use bm25_index::builder::{build, check_limits};
use bm25_index::index::{find_term, BuildError, Index, Posting, Record, TermData};
use bm25_index::stats::idf_argument;

fn record(name: &str, items: &[&str]) -> Option<Record> {
    Some(Record { name: name.to_string(), items: items.iter().map(|s| s.to_string()).collect() })
}

fn two_documents() -> Index {
    build(&vec![record("doc_a", &["a/b", "c"]), record("doc_b", &["a/b"])]).unwrap()
}

fn postings(index: &Index, term: &str) -> Vec<(u32, u32)> {
    match find_term(&index.terms, &index.slots, &term.to_string()) {
        Some(i) => index.terms[i].postings.iter().map(|p| (p.doc, p.freq)).collect(),
        None => Vec::new(),
    }
}

#[test]
fn build_two_documents() {
    let index = two_documents();
    assert_eq!(index.documents, vec!["doc_a".to_string(), "doc_b".to_string()]);
    assert_eq!(index.doc_length, vec![3, 2]);
    assert_eq!(index.total_length, 5);
    assert_eq!(index.terms.len(), 3);
    assert_eq!(postings(&index, "a"), vec![(0, 1), (1, 1)]);
    assert_eq!(postings(&index, "b"), vec![(0, 1), (1, 1)]);
    assert_eq!(postings(&index, "c"), vec![(0, 1)]);
    assert_eq!(postings(&index, "d"), Vec::new());
}

#[test]
fn build_counts_repeated_terms() {
    let index = build(&vec![
        record("x", &["a/a/b", "a"]),
        record("y", &["b"]),
        record("z", &["a//", ""]),
    ])
    .unwrap();
    assert_eq!(index.doc_length, vec![4, 1, 4]);
    assert_eq!(index.total_length, 9);
    assert_eq!(postings(&index, "a"), vec![(0, 3), (2, 1)]);
    assert_eq!(postings(&index, "b"), vec![(0, 1), (1, 1)]);
    assert_eq!(postings(&index, ""), vec![(2, 3)]);
}

#[test]
fn build_document_without_items_has_length_zero() {
    let index = build(&vec![record("empty", &[]), record("one", &["t"])]).unwrap();
    assert_eq!(index.doc_length, vec![0, 1]);
    assert_eq!(postings(&index, "t"), vec![(1, 1)]);
}

#[test]
fn build_of_nothing_is_division_by_zero() {
    match build(&Vec::new()) {
        Err(BuildError::DivisionByZero) => {}
        other => panic!("unexpected: {:?}", other.err()),
    }
}

#[test]
fn build_stops_at_first_unreadable_record() {
    let records = vec![record("a", &["x"]), None, record("c", &["y"]), None];
    match build(&records) {
        Err(BuildError::InputParse { record }) => assert_eq!(record, 1),
        other => panic!("unexpected: {:?}", other.err()),
    }
}

#[test]
fn add_document_assigns_dense_identifiers() {
    let mut index = Index::new();
    assert_eq!(index.documents.len(), 0);
    index.add_document(&record("first", &["p/q"]).unwrap());
    index.add_document(&record("second", &["q"]).unwrap());
    assert_eq!(index.documents, vec!["first".to_string(), "second".to_string()]);
    assert_eq!(postings(&index, "q"), vec![(0, 1), (1, 1)]);
    assert_eq!(postings(&index, "p"), vec![(0, 1)]);
}

#[test]
fn average_length_is_sum_over_count() {
    let index = two_documents();
    let avg = index.average_length().unwrap();
    assert_eq!((avg.num, avg.den), (5, 2));
    let sum: u64 = index.doc_length.iter().map(|l| *l as u64).sum();
    assert_eq!(avg.num, sum);
    assert_eq!(avg.num as f64 / avg.den as f64, 2.5);
}

#[test]
fn average_length_of_empty_index_fails() {
    match Index::new().average_length() {
        Err(BuildError::DivisionByZero) => {}
        other => panic!("unexpected: {:?}", other.err()),
    }
}

#[test]
fn document_frequency_counts_documents() {
    let index = two_documents();
    assert_eq!(index.document_count(), 2);
    assert_eq!(index.document_frequency(&"a".to_string()), 2);
    assert_eq!(index.document_frequency(&"c".to_string()), 1);
    assert_eq!(index.document_frequency(&"absent".to_string()), 0);
}

#[test]
fn idf_argument_values() {
    let r = idf_argument(2, 2);
    assert_eq!((r.num, r.den), (6, 5));
    let r = idf_argument(2, 1);
    assert_eq!((r.num, r.den), (6, 3));
    let r = idf_argument(10, 0);
    assert_eq!((r.num, r.den), (22, 1));
    let r = idf_argument(u32::MAX, u32::MAX);
    assert_eq!((r.num, r.den), (2 * (u32::MAX as u64) + 2, 2 * (u32::MAX as u64) + 1));
}

#[test]
fn idf_is_never_negative() {
    for n in 0..20u32 {
        for nq in 0..=n {
            let r = idf_argument(n, nq);
            assert!(r.den > 0 && r.num >= r.den);
            let idf = (r.num as f64 / r.den as f64).ln();
            assert!(idf >= 0.0);
            let direct = ((n as f64 - nq as f64 + 0.5) / (nq as f64 + 0.5) + 1.0).ln();
            assert!((idf - direct).abs() < 1e-12);
        }
    }
}

#[test]
fn idf_argument_of_term() {
    let index = two_documents();
    let r = index.idf_argument_of(&"a".to_string());
    assert_eq!((r.num, r.den), (6, 5));
    assert!(((r.num as f64 / r.den as f64).ln() - 0.1823).abs() < 0.00005);
    let r = index.idf_argument_of(&"c".to_string());
    assert_eq!((r.num, r.den), (6, 3));
}

fn term(name: &str, postings: &[(u32, u32)]) -> TermData {
    TermData {
        term: name.to_string(),
        postings: postings.iter().map(|(doc, freq)| Posting { doc: *doc, freq: *freq }).collect(),
    }
}

fn names(n: usize) -> Vec<String> {
    (0..n).map(|i| format!("doc{i}")).collect()
}

#[test]
fn from_parts_accepts_the_parts_of_a_built_index() {
    let built = two_documents();
    let terms: Vec<TermData> = built
        .terms
        .iter()
        .map(|td| TermData { term: td.term.clone(), postings: td.postings.clone() })
        .collect();
    let again =
        Index::from_parts(built.documents.clone(), terms, built.doc_length.clone()).unwrap();
    assert_eq!(again.documents, built.documents);
    assert_eq!(again.doc_length, built.doc_length);
    assert_eq!(again.total_length, built.total_length);
    assert_eq!(again.terms.len(), built.terms.len());
    for t in ["a", "b", "c", "d"] {
        assert_eq!(postings(&again, t), postings(&built, t));
        assert_eq!(
            again.document_frequency(&t.to_string()),
            built.document_frequency(&t.to_string())
        );
    }
}

#[test]
fn from_parts_accepts_nothing_at_all() {
    let index = Index::from_parts(Vec::new(), Vec::new(), Vec::new()).unwrap();
    assert_eq!(index.documents.len(), 0);
    assert_eq!(index.total_length, 0);
    assert_eq!(index.document_frequency(&"a".to_string()), 0);
}

#[test]
fn from_parts_accepts_one_and_many_documents() {
    let one = Index::from_parts(names(1), vec![term("x", &[(0, 2)])], vec![2]).unwrap();
    assert_eq!(one.total_length, 2);
    assert_eq!(postings(&one, "x"), vec![(0, 2)]);
    let many = Index::from_parts(
        names(4),
        vec![term("x", &[(0, 1), (2, 5), (3, 1)]), term("y", &[(1, 1)])],
        vec![1, 1, 5, 1],
    )
    .unwrap();
    assert_eq!(many.total_length, 8);
    assert_eq!(many.document_frequency(&"x".to_string()), 3);
    assert_eq!(postings(&many, "y"), vec![(1, 1)]);
}

#[test]
fn from_parts_rejects_what_breaks_the_invariant() {
    assert!(Index::from_parts(names(2), Vec::new(), vec![1]).is_none());
    assert!(Index::from_parts(names(1), vec![term("x", &[])], vec![1]).is_none());
    assert!(Index::from_parts(names(1), vec![term("x", &[(0, 0)])], vec![1]).is_none());
    assert!(Index::from_parts(names(1), vec![term("x", &[(1, 1)])], vec![1]).is_none());
    assert!(Index::from_parts(names(2), vec![term("x", &[(1, 1), (0, 1)])], vec![1, 1]).is_none());
    assert!(Index::from_parts(names(2), vec![term("x", &[(1, 1), (1, 1)])], vec![1, 1]).is_none());
    assert!(Index::from_parts(
        names(2),
        vec![term("x", &[(0, 1)]), term("y", &[(1, 1)]), term("x", &[(1, 1)])],
        vec![1, 2]
    )
    .is_none());
}

#[test]
fn check_limits_accepts_ordinary_collections() {
    assert!(check_limits(&Vec::new()));
    assert!(check_limits(&vec![record("a", &["x/y"]), None, record("b", &[])]));
}

fn term_order(index: &Index) -> Vec<String> {
    index.terms.iter().map(|td| td.term.clone()).collect()
}

#[test]
fn build_keeps_terms_in_order_of_first_occurrence() {
    assert_eq!(term_order(&two_documents()), vec!["a", "b", "c"]);
    let index = build(&vec![
        record("x", &["m/k/m"]),
        record("y", &["k", "z/m"]),
        record("z", &["", "a/"]),
    ])
    .unwrap();
    assert_eq!(term_order(&index), vec!["m", "k", "z", "", "a"]);
}
