//! Ordering scored documents and choosing those to return.
//!
//! A score is held as the bit pattern of an IEEE 754 double. The patterns
//! are put in the standard's total order: negative values below positive
//! ones, each side by magnitude, minus zero below plus zero, and the
//! not-a-number patterns at the two ends.

use vstd::prelude::*;
use vstd::seq_lib::*;

verus! {

/// A scored item.
#[derive(Clone, Copy, Debug)]
pub struct Scored {
    /// The place of the item among those that were scored.
    pub item: usize,
    /// The bit pattern of the score.
    pub score_bits: u64,
}

/// A document that a query returns.
#[derive(Debug)]
pub struct Match {
    /// The external identifier of the document.
    pub name: String,
    /// The bit pattern of its score.
    pub score_bits: u64,
}

/// The scores as scored items: item `i` has score `bits[i]`.
pub open spec fn scored_items(bits: Seq<u64>) -> Seq<Scored> {
    Seq::new(bits.len(), |i: int| Scored { item: i as usize, score_bits: bits[i] })
}

/// What a query returns of items with the scores `bits`: the items in
/// descending order of score, of them those above the threshold, and of
/// those no more than the limit.
pub open spec fn chosen_items(bits: Seq<u64>, threshold: u64, max_length: Option<usize>) -> Seq<
    Scored,
> {
    selected(ranked_spec(scored_items(bits)), threshold, max_length)
}

/// The pattern with only the sign bit set.
pub const SIGN_BIT: u64 = 0x8000_0000_0000_0000;

/// The pattern of positive infinity: above it, a magnitude is no number.
pub const INFINITY_BITS: u64 = 0x7ff0_0000_0000_0000;

/// The sign bit of the pattern is set.
pub open spec fn is_negative(bits: u64) -> bool {
    bits >= SIGN_BIT
}

/// The pattern without its sign bit.
pub open spec fn magnitude(bits: u64) -> int {
    if is_negative(bits) {
        bits - SIGN_BIT
    } else {
        bits as int
    }
}

/// The pattern is one of not-a-number.
pub open spec fn is_nan(bits: u64) -> bool {
    magnitude(bits) > INFINITY_BITS
}

/// The place of a pattern in the total order: the larger the integer, the
/// later the pattern comes.
pub open spec fn order_key(bits: u64) -> int {
    if is_negative(bits) {
        -1 - magnitude(bits)
    } else {
        bits as int
    }
}

/// The value of pattern `a` is greater than that of pattern `b`, as numbers
/// compare: nothing is greater or less than not-a-number, and the two zeros
/// are equal.
pub open spec fn exceeds(a: u64, b: u64) -> bool {
    &&& !is_nan(a)
    &&& !is_nan(b)
    &&& order_key(a) > order_key(b)
    &&& !(magnitude(a) == 0 && magnitude(b) == 0)
}

/// The scores do not ascend anywhere in the total order.
pub open spec fn descending(s: Seq<Scored>) -> bool {
    forall|i: int, j: int|
        0 <= i < j < s.len() ==> order_key((#[trigger] s[i]).score_bits) >= order_key(
            (#[trigger] s[j]).score_bits,
        )
}

/// Where `x` goes in the descending sequence `r`: behind every leading
/// element that does not come before it in the total order, so behind
/// those of equal score.
pub open spec fn place(r: Seq<Scored>, x: Scored) -> int
    decreases r.len(),
{
    if r.len() == 0 {
        0
    } else if not_before(r.first(), x) {
        1 + place(r.drop_first(), x)
    } else {
        0
    }
}

/// The ranking of `s`: its elements in descending order of score, those of
/// equal score in the order in which they stand in `s`.
pub open spec fn ranked_spec(s: Seq<Scored>) -> Seq<Scored>
    decreases s.len(),
{
    if s.len() == 0 {
        Seq::<Scored>::empty()
    } else {
        placed(ranked_spec(s.drop_last()), s.last())
    }
}

/// Those of `s` whose score is greater than the threshold, in their order.
pub open spec fn passing(s: Seq<Scored>, threshold: u64) -> Seq<Scored>
    decreases s.len(),
{
    if s.len() == 0 {
        Seq::<Scored>::empty()
    } else if exceeds(s.last().score_bits, threshold) {
        passing(s.drop_last(), threshold).push(s.last())
    } else {
        passing(s.drop_last(), threshold)
    }
}

/// The most results that a limit lets through; no limit lets all through.
pub open spec fn limit_of(max_length: Option<usize>, available: nat) -> nat {
    match max_length {
        Some(m) => if (m as nat) < available {
            m as nat
        } else {
            available
        },
        None => available,
    }
}

/// What a query returns of `s`: first the threshold is applied, then the
/// limit to what is left.
pub open spec fn selected(s: Seq<Scored>, threshold: u64, max_length: Option<usize>) -> Seq<
    Scored,
> {
    passing(s, threshold).take(limit_of(max_length, passing(s, threshold).len()) as int)
}

/// The place of a pattern in the total order.
pub fn key_of(bits: u64) -> (key: i64)
    ensures
        key == order_key(bits),
{
    if bits >= SIGN_BIT {
        let m: u64 = bits - SIGN_BIT;
        -1 - (m as i64)
    } else {
        bits as i64
    }
}

/// Whether the value of pattern `a` is greater than that of pattern `b`.
pub fn score_exceeds(a: u64, b: u64) -> (r: bool)
    ensures
        r == exceeds(a, b),
{
    let ma: u64 = if a >= SIGN_BIT {
        a - SIGN_BIT
    } else {
        a
    };
    let mb: u64 = if b >= SIGN_BIT {
        b - SIGN_BIT
    } else {
        b
    };
    ma <= INFINITY_BITS && mb <= INFINITY_BITS && key_of(a) > key_of(b) && !(ma == 0 && mb == 0)
}

proof fn lemma_insert_multiset(s: Seq<Scored>, i: int, x: Scored)
    requires
        0 <= i <= s.len(),
    ensures
        s.insert(i, x).to_multiset() =~= s.to_multiset().insert(x),
{
    let t = s.insert(i, x);
    assert(t.remove(i) =~= s);
    assert(t[i] == x);
    to_multiset_remove(t, i);
    t.to_multiset_ensures();
    assert(t.contains(x));
}

/// `a` does not come before `b` in the total order of their scores.
pub open spec fn not_before(a: Scored, b: Scored) -> bool {
    order_key(a.score_bits) >= order_key(b.score_bits)
}

/// `x` put at its place in `r`.
pub open spec fn placed(r: Seq<Scored>, x: Scored) -> Seq<Scored> {
    r.insert(place(r, x), x)
}

/// Two rankings run into one: at each step the better head goes first, and
/// the head of `a` where the two are equal.
pub open spec fn merged(a: Seq<Scored>, b: Seq<Scored>) -> Seq<Scored>
    decreases a.len() + b.len(),
{
    if a.len() == 0 {
        b
    } else if b.len() == 0 {
        a
    } else if not_before(a.first(), b.first()) {
        seq![a.first()] + merged(a.drop_first(), b)
    } else {
        seq![b.first()] + merged(a, b.drop_first())
    }
}

/// The place of `x` lies in `r` or at its end; nothing ahead of it comes
/// before `x`, and what stands there, if anything, does.
pub proof fn lemma_place(r: Seq<Scored>, x: Scored)
    ensures
        0 <= place(r, x) <= r.len(),
        forall|q: int| 0 <= q < place(r, x) ==> not_before(#[trigger] r[q], x),
        place(r, x) < r.len() ==> !not_before(r[place(r, x)], x),
    decreases r.len(),
{
    if r.len() > 0 && not_before(r.first(), x) {
        let rest = r.drop_first();
        lemma_place(rest, x);
        assert forall|q: int| 0 <= q < place(r, x) implies not_before(#[trigger] r[q], x) by {
            if q > 0 {
                assert(r[q] == rest[q - 1]);
            }
        }
        if place(r, x) < r.len() {
            assert(r[place(r, x)] == rest[place(rest, x)]);
        }
    }
}

/// How `x` is placed, by the head of `r`.
proof fn lemma_placed(r: Seq<Scored>, x: Scored)
    ensures
        r.len() == 0 ==> placed(r, x) == seq![x],
        r.len() > 0 && not_before(r.first(), x) ==> placed(r, x) == seq![r.first()] + placed(
            r.drop_first(),
            x,
        ),
        r.len() > 0 && !not_before(r.first(), x) ==> placed(r, x) == seq![x] + r,
        placed(r, x).len() == r.len() + 1,
{
    lemma_place(r, x);
    if r.len() == 0 {
        assert(placed(r, x) =~= seq![x]);
    } else if not_before(r.first(), x) {
        lemma_place(r.drop_first(), x);
        assert(placed(r, x) =~= seq![r.first()] + placed(r.drop_first(), x));
    } else {
        assert(placed(r, x) =~= seq![x] + r);
    }
}

/// Placing into the second of two rankings and then running them into one
/// is running them into one and then placing.
proof fn lemma_placed_merged(a: Seq<Scored>, b: Seq<Scored>, x: Scored)
    ensures
        placed(merged(a, b), x) == merged(a, placed(b, x)),
    decreases a.len() + b.len(),
{
    let m = merged(a, b);
    let y = placed(b, x);
    lemma_placed(m, x);
    lemma_placed(b, x);
    if a.len() == 0 {
    } else if b.len() == 0 {
        lemma_placed(a, x);
        assert(y.first() == x);
        assert(y.drop_first() =~= Seq::<Scored>::empty());
        if not_before(a.first(), x) {
            lemma_placed_merged(a.drop_first(), b, x);
        } else {
            assert(merged(a, y.drop_first()) == a);
        }
    } else {
        let a0 = a.first();
        let b0 = b.first();
        if not_before(a0, b0) {
            let m1 = merged(a.drop_first(), b);
            assert(m.first() == a0);
            assert(m.drop_first() =~= m1);
            if not_before(a0, x) {
                lemma_placed_merged(a.drop_first(), b, x);
                assert(not_before(a0, y.first()));
            } else {
                assert(y =~= seq![x] + b);
                assert(y.first() == x);
                assert(y.drop_first() =~= b);
            }
        } else {
            let m1 = merged(a, b.drop_first());
            assert(m.first() == b0);
            assert(m.drop_first() =~= m1);
            if not_before(b0, x) {
                lemma_placed_merged(a, b.drop_first(), x);
                assert(y.first() == b0);
                assert(y.drop_first() =~= placed(b.drop_first(), x));
            } else {
                assert(y.first() == x);
                assert(y.drop_first() =~= b);
            }
        }
    }
}

/// The ranking of two sequences on end is their two rankings run into one.
pub proof fn lemma_ranked_merged(a: Seq<Scored>, b: Seq<Scored>)
    ensures
        ranked_spec(a + b) == merged(ranked_spec(a), ranked_spec(b)),
    decreases b.len(),
{
    if b.len() == 0 {
        assert(a + b =~= a);
    } else {
        lemma_ranked_merged(a, b.drop_last());
        assert((a + b).drop_last() =~= a + b.drop_last());
        assert((a + b).last() == b.last());
        lemma_placed_merged(ranked_spec(a), ranked_spec(b.drop_last()), b.last());
    }
}

/// A ranking is in descending order of score and holds what was ranked,
/// each as often.
pub proof fn lemma_ranked(s: Seq<Scored>)
    ensures
        descending(ranked_spec(s)),
        ranked_spec(s).to_multiset() == s.to_multiset(),
        ranked_spec(s).len() == s.len(),
    decreases s.len(),
{
    if s.len() > 0 {
        let x = s.last();
        let before = ranked_spec(s.drop_last());
        let p = place(before, x);
        lemma_ranked(s.drop_last());
        lemma_place(before, x);
        lemma_insert_multiset(before, p, x);
        assert(s == s.drop_last().push(x));
        to_multiset_build(s.drop_last(), x);
        let after = ranked_spec(s);
        assert(after == before.insert(p, x));
        assert(after.to_multiset() =~= s.to_multiset());
        assert forall|a: int, b: int| 0 <= a < b < after.len() implies order_key(
            (#[trigger] after[a]).score_bits,
        ) >= order_key((#[trigger] after[b]).score_bits) by {
            if b < p {
                assert(after[a] == before[a] && after[b] == before[b]);
            } else if b == p {
                assert(after[a] == before[a]);
                assert(not_before(before[a], x));
            } else if a == p {
                assert(after[b] == before[b - 1]);
                if p < b - 1 {
                    assert(order_key(before[p].score_bits) >= order_key(
                        before[b - 1].score_bits,
                    ));
                }
            } else if a < p {
                assert(after[a] == before[a] && after[b] == before[b - 1]);
            } else {
                assert(after[a] == before[a - 1] && after[b] == before[b - 1]);
            }
        }
    } else {
        assert(s =~= ranked_spec(s));
    }
}

/// Runs two rankings into one.
fn merge(left: &Vec<Scored>, right: &Vec<Scored>) -> (out: Vec<Scored>)
    requires
        left@.len() + right@.len() <= usize::MAX,
    ensures
        out@ == merged(left@, right@),
{
    let mut out: Vec<Scored> = Vec::new();
    let mut i: usize = 0;
    let mut j: usize = 0;
    proof {
        assert(left@.skip(0) == left@);
        assert(right@.skip(0) == right@);
    }
    while i < left.len() || j < right.len()
        invariant
            i <= left.len(),
            j <= right.len(),
            left@.len() + right@.len() <= usize::MAX,
            out@ + merged(left@.skip(i as int), right@.skip(j as int)) == merged(left@, right@),
        decreases left.len() - i + right.len() - j,
    {
        let ghost a = left@.skip(i as int);
        let ghost b = right@.skip(j as int);
        let ghost done = out@;
        let from_left: bool = if i == left.len() {
            false
        } else if j == right.len() {
            true
        } else {
            key_of(left[i].score_bits) >= key_of(right[j].score_bits)
        };
        if from_left {
            out.push(left[i]);
            i = i + 1;
            proof {
                let a1 = left@.skip(i as int);
                assert(a.first() == left@[i - 1]);
                assert(a.drop_first() =~= a1);
                if b.len() == 0 {
                    assert(a =~= seq![a.first()] + a1);
                    assert(merged(a1, b) == a1);
                }
                assert(merged(a, b) == seq![a.first()] + merged(a1, b));
                assert(out@ + merged(a1, b) =~= done + merged(a, b));
            }
        } else {
            out.push(right[j]);
            j = j + 1;
            proof {
                let b1 = right@.skip(j as int);
                assert(b.first() == right@[j - 1]);
                assert(b.drop_first() =~= b1);
                if a.len() == 0 {
                    assert(b =~= seq![b.first()] + b1);
                }
                assert(merged(a, b) == seq![b.first()] + merged(a, b1));
                assert(out@ + merged(a, b1) =~= done + merged(a, b));
            }
        }
    }
    proof {
        assert(left@.skip(left@.len() as int) =~= Seq::<Scored>::empty());
        assert(out@ + Seq::<Scored>::empty() =~= out@);
    }
    out
}

/// Ranks the part of `scores` from `lo` up to `hi`.
fn rank_range(scores: &Vec<Scored>, lo: usize, hi: usize) -> (out: Vec<Scored>)
    requires
        lo <= hi <= scores@.len(),
    ensures
        out@ == ranked_spec(scores@.subrange(lo as int, hi as int)),
    decreases hi - lo,
{
    let ghost part = scores@.subrange(lo as int, hi as int);
    if hi - lo == 0 {
        proof {
            assert(part.len() == 0);
        }
        Vec::new()
    } else if hi - lo == 1 {
        let mut out: Vec<Scored> = Vec::new();
        out.push(scores[lo]);
        proof {
            assert(part.drop_last() =~= Seq::<Scored>::empty());
            assert(part.last() == scores@[lo as int]);
            assert(ranked_spec(part.drop_last()) == Seq::<Scored>::empty());
            lemma_placed(Seq::<Scored>::empty(), part.last());
            assert(out@ =~= seq![part.last()]);
        }
        out
    } else {
        let mid: usize = lo + (hi - lo) / 2;
        let left: Vec<Scored> = rank_range(scores, lo, mid);
        let right: Vec<Scored> = rank_range(scores, mid, hi);
        proof {
            let a = scores@.subrange(lo as int, mid as int);
            let b = scores@.subrange(mid as int, hi as int);
            assert(a + b =~= part);
            lemma_ranked_merged(a, b);
            lemma_ranked(a);
            lemma_ranked(b);
        }
        merge(&left, &right)
    }
}

/// Puts the scored documents in descending order of score. The result holds
/// what the input holds, each as often; documents of equal score keep the
/// order in which they came.
pub fn rank(scores: &Vec<Scored>) -> (ranked: Vec<Scored>)
    ensures
        ranked@ == ranked_spec(scores@),
        ranked@.to_multiset() == scores@.to_multiset(),
        ranked@.len() == scores@.len(),
        descending(ranked@),
{
    proof {
        assert(scores@.subrange(0, scores@.len() as int) =~= scores@);
        lemma_ranked(scores@);
    }
    rank_range(scores, 0, scores.len())
}

/// Chooses what a query returns of the ranked documents: those whose score
/// is greater than the threshold, and of them no more than the limit, from
/// the front.
pub fn select(ranked: &Vec<Scored>, threshold: u64, max_length: Option<usize>) -> (chosen: Vec<
    Scored,
>)
    ensures
        chosen@ == selected(ranked@, threshold, max_length),
{
    let mut chosen: Vec<Scored> = Vec::new();
    let mut i: usize = 0;
    proof {
        assert(ranked@.take(0) == Seq::<Scored>::empty());
    }
    while i < ranked.len()
        invariant
            i <= ranked.len(),
            chosen@ == selected(ranked@.take(i as int), threshold, max_length),
            passing(ranked@.take(i as int), threshold).len() <= i,
        decreases ranked.len() - i,
    {
        let x: Scored = ranked[i];
        proof {
            assert(ranked@.take(i + 1).drop_last() == ranked@.take(i as int));
            assert(ranked@.take(i + 1).last() == x);
        }
        let ghost seen = passing(ranked@.take(i as int), threshold);
        let room: bool = match max_length {
            Some(m) => chosen.len() < m,
            None => true,
        };
        if score_exceeds(x.score_bits, threshold) {
            if room {
                chosen.push(x);
                proof {
                    assert(seen.push(x).take(seen.len() as int + 1) == seen.push(x));
                    assert(seen.take(seen.len() as int) == seen);
                }
            } else {
                proof {
                    let m = max_length.unwrap() as int;
                    assert(seen.push(x).take(m) == seen.take(m));
                }
            }
        }
        i = i + 1;
    }
    proof {
        assert(ranked@.take(ranked@.len() as int) == ranked@);
    }
    chosen
}

/// The documents that a query returns, best first: the scored candidates
/// are ranked, those above the threshold are kept, and of those no more
/// than the limit; each is given by the name of its candidate. Without
/// candidates nothing is returned.
pub fn results(
    names: &Vec<String>,
    score_bits: &Vec<u64>,
    threshold: u64,
    max_length: Option<usize>,
) -> (matches: Vec<Match>)
    requires
        names@.len() == score_bits@.len(),
    ensures
        matches@.len() == chosen_items(score_bits@, threshold, max_length).len(),
        forall|i: int|
            0 <= i < matches@.len() ==> {
                let c = chosen_items(score_bits@, threshold, max_length)[i];
                &&& c.item < names@.len()
                &&& (#[trigger] matches@[i]).name@ == names@[c.item as int]@
                &&& matches@[i].score_bits == c.score_bits
                &&& c.score_bits == score_bits@[c.item as int]
                &&& exceeds(c.score_bits, threshold)
            },
        max_length is Some ==> matches@.len() <= max_length.unwrap(),
        matches@.len() <= names@.len(),
{
    let n: usize = score_bits.len();
    let mut scores: Vec<Scored> = Vec::new();
    let mut i: usize = 0;
    while i < n
        invariant
            i <= n,
            n == score_bits@.len(),
            scores@ == scored_items(score_bits@).take(i as int),
        decreases n - i,
    {
        scores.push(Scored { item: i, score_bits: score_bits[i] });
        proof {
            assert(scores@ =~= scored_items(score_bits@).take(i + 1));
        }
        i = i + 1;
    }
    proof {
        assert(scored_items(score_bits@).take(n as int) == scored_items(score_bits@));
    }
    let ranked: Vec<Scored> = rank(&scores);
    let chosen: Vec<Scored> = select(&ranked, threshold, max_length);
    proof {
        assert forall|k: int| 0 <= k < ranked@.len() implies (#[trigger] ranked@[k]).item < n
            && ranked@[k].score_bits == score_bits@[ranked@[k].item as int] by {
            let x = ranked@[k];
            ranked@.to_multiset_ensures();
            scores@.to_multiset_ensures();
            assert(ranked@.contains(x));
            assert(ranked@.to_multiset().count(x) > 0);
            assert(scores@.to_multiset().count(x) > 0);
            assert(scores@.contains(x));
            let w = choose|w: int| 0 <= w < scores@.len() && scores@[w] == x;
            assert(scores@[w].item == w);
        }
        lemma_within(ranked@, score_bits@, threshold);
        lemma_selected(ranked@, threshold, max_length);
    }
    let mut matches: Vec<Match> = Vec::new();
    let mut k: usize = 0;
    while k < chosen.len()
        invariant
            k <= chosen.len(),
            matches@.len() == k,
            names@.len() == score_bits@.len(),
            forall|j: int|
                0 <= j < chosen@.len() ==> (#[trigger] chosen@[j]).item < names@.len()
                    && chosen@[j].score_bits == score_bits@[chosen@[j].item as int],
            forall|j: int|
                0 <= j < k ==> (#[trigger] matches@[j]).name@ == names@[chosen@[j].item as int]@
                    && matches@[j].score_bits == chosen@[j].score_bits,
        decreases chosen.len() - k,
    {
        let c: Scored = chosen[k];
        matches.push(Match { name: names[c.item].clone(), score_bits: c.score_bits });
        k = k + 1;
    }
    matches
}

/// What is chosen of scored items that name their own scores names its own
/// scores too.
proof fn lemma_within(ranked: Seq<Scored>, bits: Seq<u64>, threshold: u64)
    requires
        forall|k: int|
            0 <= k < ranked.len() ==> (#[trigger] ranked[k]).item < bits.len()
                && ranked[k].score_bits == bits[ranked[k].item as int],
    ensures
        forall|k: int|
            0 <= k < passing(ranked, threshold).len() ==> (#[trigger] passing(
                ranked,
                threshold,
            )[k]).item < bits.len() && passing(ranked, threshold)[k].score_bits
                == bits[passing(ranked, threshold)[k].item as int],
    decreases ranked.len(),
{
    if ranked.len() > 0 {
        let rest = ranked.drop_last();
        assert forall|k: int| 0 <= k < rest.len() implies (#[trigger] rest[k]).item < bits.len()
            && rest[k].score_bits == bits[rest[k].item as int] by {
            assert(rest[k] == ranked[k]);
        }
        lemma_within(rest, bits, threshold);
        let p = passing(ranked, threshold);
        let q = passing(rest, threshold);
        assert(ranked.last() == ranked[ranked.len() - 1]);
        assert forall|k: int| 0 <= k < p.len() implies (#[trigger] p[k]).item < bits.len()
            && p[k].score_bits == bits[p[k].item as int] by {
            if k < q.len() {
                assert(p[k] == q[k]);
            }
        }
    }
}

/// Every chosen document passes the threshold, there are no more of them
/// than the limit allows, and they are the first of those that pass: the
/// limit never decides which documents pass.
pub proof fn lemma_selected(s: Seq<Scored>, threshold: u64, max_length: Option<usize>)
    ensures
        selected(s, threshold, max_length).len() <= s.len(),
        max_length is Some ==> selected(s, threshold, max_length).len() <= max_length.unwrap(),
        selected(s, threshold, max_length).is_prefix_of(passing(s, threshold)),
        forall|i: int|
            0 <= i < selected(s, threshold, max_length).len() ==> exceeds(
                (#[trigger] selected(s, threshold, max_length)[i]).score_bits,
                threshold,
            ),
{
    lemma_passing(s, threshold);
}

/// What passes the threshold is no longer than the input, and each of it is
/// above the threshold.
pub proof fn lemma_passing(s: Seq<Scored>, threshold: u64)
    ensures
        passing(s, threshold).len() <= s.len(),
        forall|i: int|
            0 <= i < passing(s, threshold).len() ==> exceeds(
                (#[trigger] passing(s, threshold)[i]).score_bits,
                threshold,
            ),
    decreases s.len(),
{
    if s.len() > 0 {
        lemma_passing(s.drop_last(), threshold);
    }
}

} // verus!
