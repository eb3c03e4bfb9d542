use bm25_index::builder::build;
use bm25_index::index::{Index, Record};
use bm25_index::rank::{key_of, rank, results, score_exceeds, select, Scored};
use bm25_index::group::group;
use bm25_index::scorer::{candidates, plan, Contribution};

const K1: f64 = 1.6;
const B: f64 = 0.75;

fn record(name: &str, items: &[&str]) -> Option<Record> {
    Some(Record { name: name.to_string(), items: items.iter().map(|s| s.to_string()).collect() })
}

fn two_documents() -> Index {
    build(&vec![record("doc_a", &["a/b", "c"]), record("doc_b", &["a/b"])]).unwrap()
}

fn terms(items: &[&str]) -> Vec<String> {
    items.iter().map(|s| s.to_string()).collect()
}

fn fields(c: &Contribution) -> (u32, u32, u32, u32) {
    (c.doc, c.freq, c.doc_length, c.doc_frequency)
}

fn summand(index: &Index, c: &Contribution) -> f64 {
    let n = index.documents.len() as f64;
    let nq = c.doc_frequency as f64;
    let idf = ((n - nq + 0.5) / (nq + 0.5) + 1.0).ln();
    let avg = index.average_length().unwrap();
    let avgdl = avg.num as f64 / avg.den as f64;
    let f = c.freq as f64;
    idf * (f * (K1 + 1.0)) / (f + K1 * (1.0 - B + B * c.doc_length as f64 / avgdl))
}

fn scores(index: &Index, query: &[&str]) -> Vec<Scored> {
    let mut out: Vec<(u32, f64)> = Vec::new();
    for c in plan(index, &terms(query)) {
        let s = summand(index, &c);
        match out.iter_mut().find(|(d, _)| *d == c.doc) {
            Some(entry) => entry.1 += s,
            None => out.push((c.doc, s)),
        }
    }
    out.into_iter().map(|(doc, s)| Scored { item: doc as usize, score_bits: s.to_bits() }).collect()
}

fn scored(item: usize, score: f64) -> Scored {
    Scored { item, score_bits: score.to_bits() }
}

fn docs(v: &[Scored]) -> Vec<usize> {
    v.iter().map(|s| s.item).collect()
}

#[test]
fn empty_query_touches_nothing() {
    let index = two_documents();
    let summands = plan(&index, &Vec::new());
    assert!(summands.is_empty());
    let chosen = select(&rank(&scores(&index, &[])), 0f64.to_bits(), None);
    assert_eq!(chosen.len(), 0);
}

#[test]
fn absent_term_touches_nothing() {
    let index = two_documents();
    assert!(plan(&index, &terms(&["zzz"])).is_empty());
    assert!(plan(&index, &terms(&["A", "zzz", "a/b"])).is_empty());
}

#[test]
fn plan_lists_postings_per_occurrence() {
    let index = two_documents();
    let p: Vec<_> = plan(&index, &terms(&["c", "a"])).iter().map(fields).collect();
    assert_eq!(p, vec![(0, 1, 3, 1), (0, 1, 3, 2), (1, 1, 2, 2)]);
}

#[test]
fn repeated_query_term_is_scored_twice() {
    let index = two_documents();
    let p: Vec<_> = plan(&index, &terms(&["a", "x", "a"])).iter().map(fields).collect();
    assert_eq!(p, vec![(0, 1, 3, 2), (1, 1, 2, 2), (0, 1, 3, 2), (1, 1, 2, 2)]);
    let once = scores(&index, &["a"]);
    let twice = scores(&index, &["a", "a"]);
    for (o, t) in once.iter().zip(twice.iter()) {
        assert_eq!(o.item, t.item);
        assert_eq!(f64::from_bits(t.score_bits), 2.0 * f64::from_bits(o.score_bits));
    }
}

#[test]
fn untouched_documents_are_absent() {
    let index = two_documents();
    let ranked = rank(&scores(&index, &["c"]));
    assert_eq!(docs(&ranked), vec![0]);
}

#[test]
fn query_is_deterministic() {
    let index = two_documents();
    let q = ["b", "a", "c", "a"];
    let first = rank(&scores(&index, &q));
    let second = rank(&scores(&index, &q));
    assert_eq!(first.len(), second.len());
    for (x, y) in first.iter().zip(second.iter()) {
        assert_eq!((x.item, x.score_bits), (y.item, y.score_bits));
    }
}

#[test]
fn two_document_scenario() {
    let index = two_documents();
    let ranked = rank(&scores(&index, &["a"]));
    assert_eq!(ranked.len(), 2);
    assert_eq!(index.documents[ranked[0].item], "doc_b");
    assert_eq!(index.documents[ranked[1].item], "doc_a");
    let high = f64::from_bits(ranked[0].score_bits);
    let low = f64::from_bits(ranked[1].score_bits);
    assert!((high - 0.2009).abs() < 0.00005);
    assert!((low - 0.1669).abs() < 0.00005);
    assert!(high > low);
}

#[test]
fn threshold_then_limit() {
    let input = vec![scored(0, 0.1), scored(1, 0.5), scored(2, 0.2), scored(3, 0.9), scored(4, 0.3)];
    let ranked = rank(&input);
    assert_eq!(docs(&ranked), vec![3, 1, 4, 2, 0]);
    let chosen = select(&ranked, 0.2f64.to_bits(), Some(2));
    assert_eq!(docs(&chosen), vec![3, 1]);
    for s in &chosen {
        assert!(f64::from_bits(s.score_bits) > 0.2);
    }
    let all = select(&ranked, 0.2f64.to_bits(), None);
    assert_eq!(docs(&all), vec![3, 1, 4]);
    let wide = select(&ranked, 0.2f64.to_bits(), Some(10));
    assert_eq!(docs(&wide), vec![3, 1, 4]);
    let none = select(&ranked, 0.2f64.to_bits(), Some(0));
    assert!(none.is_empty());
}

#[test]
fn default_threshold_is_exclusive_zero() {
    let ranked = rank(&vec![scored(0, 0.0), scored(1, 0.25), scored(2, -1.0), scored(3, -0.0)]);
    let chosen = select(&ranked, 0f64.to_bits(), None);
    assert_eq!(docs(&chosen), vec![1]);
}

#[test]
fn limit_applies_to_unsorted_input_from_the_front() {
    let input = vec![scored(7, 0.3), scored(8, 0.1), scored(9, 0.8)];
    let chosen = select(&input, 0.2f64.to_bits(), Some(1));
    assert_eq!(docs(&chosen), vec![7]);
}

#[test]
fn rank_keeps_every_document() {
    let input = vec![scored(5, 1.0), scored(6, 1.0), scored(5, 3.0), scored(2, -2.0)];
    let ranked = rank(&input);
    let mut seen: Vec<(usize, u64)> = ranked.iter().map(|s| (s.item, s.score_bits)).collect();
    let mut given: Vec<(usize, u64)> = input.iter().map(|s| (s.item, s.score_bits)).collect();
    seen.sort();
    given.sort();
    assert_eq!(seen, given);
    assert_eq!(ranked[0].item, 5);
    assert_eq!(ranked[3].item, 2);
}

fn samples() -> Vec<f64> {
    vec![
        f64::NEG_INFINITY,
        f64::MIN,
        -2.5,
        -1.0,
        -f64::MIN_POSITIVE,
        -0.0,
        0.0,
        f64::MIN_POSITIVE,
        0.2,
        1.0,
        2.5,
        f64::MAX,
        f64::INFINITY,
        f64::NAN,
        -f64::NAN,
    ]
}

#[test]
fn key_order_is_the_total_order() {
    for a in samples() {
        for b in samples() {
            let by_key = key_of(a.to_bits()).cmp(&key_of(b.to_bits()));
            assert_eq!(by_key, a.total_cmp(&b), "{a} {b}");
        }
    }
}

#[test]
fn key_values() {
    assert_eq!(key_of(0), 0);
    assert_eq!(key_of(0x8000_0000_0000_0000), -1);
    assert_eq!(key_of(u64::MAX), i64::MIN);
    assert_eq!(key_of(0x7fff_ffff_ffff_ffff), i64::MAX);
    assert_eq!(key_of(1.0f64.to_bits()), 0x3ff0_0000_0000_0000);
}

#[test]
fn score_exceeds_is_greater_than() {
    for a in samples() {
        for b in samples() {
            assert_eq!(score_exceeds(a.to_bits(), b.to_bits()), a > b, "{a} {b}");
        }
    }
}

#[test]
fn rank_orders_as_total_order_sort() {
    let values = samples();
    let input: Vec<Scored> =
        values.iter().enumerate().map(|(i, v)| scored(i, *v)).collect();
    let ranked = rank(&input);
    let mut expected = values.clone();
    expected.sort_by(|a, b| b.total_cmp(a));
    let got: Vec<u64> = ranked.iter().map(|s| s.score_bits).collect();
    let want: Vec<u64> = expected.iter().map(|v| v.to_bits()).collect();
    assert_eq!(got, want);
}

fn contribution(doc: u32, freq: u32) -> Contribution {
    Contribution { doc, freq, doc_length: 10, doc_frequency: 1 }
}

#[test]
fn group_gathers_by_document_in_order_of_first_touch() {
    let summands = vec![
        contribution(4, 1),
        contribution(2, 2),
        contribution(4, 3),
        contribution(9, 4),
        contribution(2, 5),
        contribution(4, 6),
    ];
    let found = group(&summands);
    let shape: Vec<(u32, Vec<u32>)> =
        found.iter().map(|c| (c.doc, c.parts.iter().map(|p| p.freq).collect())).collect();
    assert_eq!(shape, vec![(4, vec![1, 3, 6]), (2, vec![2, 5]), (9, vec![4])]);
}

#[test]
fn group_of_nothing_is_nothing() {
    assert!(group(&Vec::new()).is_empty());
}

#[test]
fn candidates_are_the_touched_documents() {
    let index = two_documents();
    let found = candidates(&index, &terms(&["c", "a", "nowhere", "a"]));
    let shape: Vec<(u32, Vec<(u32, u32, u32, u32)>)> =
        found.iter().map(|c| (c.doc, c.parts.iter().map(fields).collect())).collect();
    assert_eq!(
        shape,
        vec![
            (0, vec![(0, 1, 3, 1), (0, 1, 3, 2), (0, 1, 3, 2)]),
            (1, vec![(1, 1, 2, 2), (1, 1, 2, 2)]),
        ]
    );
    assert!(candidates(&index, &Vec::new()).is_empty());
    assert!(candidates(&index, &terms(&["nowhere"])).is_empty());
}

#[test]
fn rank_keeps_the_order_of_equal_scores() {
    let input = vec![scored(1, 0.5), scored(2, 0.7), scored(3, 0.5), scored(4, 0.7), scored(5, 0.5)];
    assert_eq!(docs(&rank(&input)), vec![2, 4, 1, 3, 5]);
}

fn names(n: usize) -> Vec<String> {
    (0..n).map(|i| format!("doc{i}")).collect()
}

fn bits(scores: &[f64]) -> Vec<u64> {
    scores.iter().map(|s| s.to_bits()).collect()
}

fn found(
    scores: &[f64],
    min_score: f64,
    max_length: Option<usize>,
) -> Vec<(String, f64)> {
    results(&names(scores.len()), &bits(scores), min_score.to_bits(), max_length)
        .into_iter()
        .map(|m| (m.name, f64::from_bits(m.score_bits)))
        .collect()
}

#[test]
fn results_filter_then_limit() {
    let scores = [0.1, 0.5, 0.2, 0.9, 0.3];
    assert_eq!(
        found(&scores, 0.2, Some(2)),
        vec![("doc3".to_string(), 0.9), ("doc1".to_string(), 0.5)]
    );
    assert_eq!(
        found(&scores, 0.2, None),
        vec![("doc3".to_string(), 0.9), ("doc1".to_string(), 0.5), ("doc4".to_string(), 0.3)]
    );
    assert_eq!(found(&scores, 0.95, Some(2)), Vec::new());
    assert_eq!(found(&scores, 0.0, Some(0)), Vec::new());
    assert_eq!(found(&scores, 0.0, None).len(), 5);
}

#[test]
fn results_of_no_candidates_are_empty() {
    assert_eq!(found(&[], 0.0, None), Vec::new());
    assert_eq!(found(&[], 0.0, Some(3)).len(), 0);
}

#[test]
fn results_never_pass_a_nan_threshold() {
    assert_eq!(found(&[1.0, 2.0], f64::NAN, None), Vec::new());
}

#[test]
fn rank_of_many_items_is_sorted_and_complete() {
    let input: Vec<Scored> =
        (0..1000usize).map(|i| scored(i, ((i * 7919) % 101) as f64 / 10.0)).collect();
    let ranked = rank(&input);
    assert_eq!(ranked.len(), 1000);
    for pair in ranked.windows(2) {
        let (a, b) = (f64::from_bits(pair[0].score_bits), f64::from_bits(pair[1].score_bits));
        assert!(a > b || (a == b && pair[0].item < pair[1].item));
    }
    let mut seen: Vec<usize> = docs(&ranked);
    seen.sort();
    assert_eq!(seen, (0..1000).collect::<Vec<usize>>());
}
