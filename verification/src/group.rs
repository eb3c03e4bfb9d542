//! Gathering the summands of a query by the document they belong to.

use crate::scorer::Contribution;
use std::collections::HashMap;
use vstd::prelude::*;

verus! {

/// A document that a query touches, with everything the query adds to it.
#[derive(Debug)]
pub struct Candidate {
    /// The internal identifier of the document.
    pub doc: u32,
    /// The summands of the document, in the order of the query.
    pub parts: Vec<Contribution>,
}

/// The documents that the summands name, each once, in the order in which
/// they are first named.
pub open spec fn touched(summands: Seq<Contribution>) -> Seq<u32>
    decreases summands.len(),
{
    if summands.len() == 0 {
        Seq::<u32>::empty()
    } else {
        let earlier = touched(summands.drop_last());
        if earlier.contains(summands.last().doc) {
            earlier
        } else {
            earlier.push(summands.last().doc)
        }
    }
}

/// The summands of document `doc`, in their order.
pub open spec fn parts_of(summands: Seq<Contribution>, doc: u32) -> Seq<Contribution>
    decreases summands.len(),
{
    if summands.len() == 0 {
        Seq::<Contribution>::empty()
    } else if summands.last().doc == doc {
        parts_of(summands.drop_last(), doc).push(summands.last())
    } else {
        parts_of(summands.drop_last(), doc)
    }
}

/// The candidates are the touched documents in their order, each with its
/// summands.
pub open spec fn grouped(candidates: Seq<Candidate>, summands: Seq<Contribution>) -> bool {
    &&& candidates.len() == touched(summands).len()
    &&& forall|i: int|
        0 <= i < candidates.len() ==> (#[trigger] candidates[i]).doc == touched(summands)[i]
            && candidates[i].parts@ == parts_of(summands, candidates[i].doc)
}

/// A document is touched exactly if it has a summand, and no document is
/// listed twice.
pub proof fn lemma_touched(summands: Seq<Contribution>, d: u32)
    ensures
        touched(summands).contains(d) <==> parts_of(summands, d).len() > 0,
        touched(summands).contains(d) <==> exists|k: int|
            0 <= k < summands.len() && (#[trigger] summands[k]).doc == d,
        touched(summands).no_duplicates(),
    decreases summands.len(),
{
    if summands.len() > 0 {
        let rest = summands.drop_last();
        let last = summands.last();
        lemma_touched(rest, d);
        lemma_touched(rest, last.doc);
        let earlier = touched(rest);
        if !earlier.contains(last.doc) {
            assert(earlier.push(last.doc).last() == last.doc);
            if earlier.contains(d) {
                let w = choose|w: int| 0 <= w < earlier.len() && earlier[w] == d;
                assert(earlier.push(last.doc)[w] == d);
            }
        }
        if last.doc == d {
            assert(summands[summands.len() - 1].doc == d);
        } else if earlier.contains(d) {
            let k = choose|k: int| 0 <= k < rest.len() && (#[trigger] rest[k]).doc == d;
            assert(summands[k].doc == d);
        }
        if exists|k: int| 0 <= k < summands.len() && (#[trigger] summands[k]).doc == d {
            let k = choose|k: int| 0 <= k < summands.len() && (#[trigger] summands[k]).doc == d;
            if k < rest.len() {
                assert(rest[k].doc == d);
            }
        }
    }
}

/// Gathers the summands of a query by document. Only documents that some
/// summand names become candidates.
pub fn group(summands: &Vec<Contribution>) -> (candidates: Vec<Candidate>)
    ensures
        grouped(candidates@, summands@),
{
    let mut candidates: Vec<Candidate> = Vec::new();
    let mut slots: HashMap<u32, usize> = HashMap::new();
    let mut k: usize = 0;
    proof {
        assert(summands@.take(0) == Seq::<Contribution>::empty());
    }
    while k < summands.len()
        invariant
            k <= summands.len(),
            grouped(candidates@, summands@.take(k as int)),
            forall|i: int|
                0 <= i < candidates@.len() ==> slots@.contains_key((#[trigger] candidates@[i]).doc)
                    && slots@[candidates@[i].doc] == i,
            forall|d: u32| #[trigger]
                slots@.contains_key(d) ==> slots@[d] < candidates@.len()
                    && candidates@[slots@[d] as int].doc == d,
        decreases summands.len() - k,
    {
        let c: Contribution = summands[k];
        let ghost seen = summands@.take(k as int);
        let ghost now = summands@.take(k + 1);
        let ghost before = candidates@;
        let ghost mapped = slots@;
        proof {
            assert(now.drop_last() == seen);
            assert(now.last() == c);
            lemma_touched(seen, c.doc);
        }
        let found: Option<usize> = match slots.get(&c.doc) {
            Some(s) => Some(*s),
            None => None,
        };
        match found {
            Some(s) => {
                candidates[s].parts.push(c);
                proof {
                    let after = candidates@;
                    assert(before[s as int].doc == touched(seen)[s as int]);
                    assert(touched(seen).contains(c.doc));
                    assert forall|i: int| 0 <= i < after.len() implies (#[trigger] after[i]).doc
                        == touched(now)[i] && after[i].parts@ == parts_of(now, after[i].doc) by {
                        if i != s {
                            assert(after[i] == before[i]);
                            assert(mapped.contains_key(before[i].doc));
                        }
                    }
                    assert forall|i: int| 0 <= i < after.len() implies slots@.contains_key(
                        (#[trigger] after[i]).doc,
                    ) && slots@[after[i].doc] == i by {
                        assert(after[i].doc == before[i].doc);
                        assert(mapped.contains_key(before[i].doc));
                    }
                    assert forall|d: u32| #[trigger] slots@.contains_key(d) implies slots@[d]
                        < after.len() && after[slots@[d] as int].doc == d by {
                        assert(after[mapped[d] as int].doc == before[mapped[d] as int].doc);
                    }
                }
            },
            None => {
                let mut parts: Vec<Contribution> = Vec::new();
                parts.push(c);
                slots.insert(c.doc, candidates.len());
                candidates.push(Candidate { doc: c.doc, parts });
                proof {
                    let after = candidates@;
                    if touched(seen).contains(c.doc) {
                        let w = choose|w: int|
                            0 <= w < touched(seen).len() && touched(seen)[w] == c.doc;
                        assert(before[w].doc == c.doc);
                        assert(mapped.contains_key(before[w].doc));
                    }
                    assert(parts_of(seen, c.doc).len() == 0);
                    assert(parts@ == Seq::<Contribution>::empty().push(c));
                    assert forall|i: int| 0 <= i < after.len() implies (#[trigger] after[i]).doc
                        == touched(now)[i] && after[i].parts@ == parts_of(now, after[i].doc) by {
                        if i < before.len() {
                            assert(after[i] == before[i]);
                            assert(mapped.contains_key(before[i].doc));
                        }
                    }
                    assert forall|i: int| 0 <= i < after.len() implies slots@.contains_key(
                        (#[trigger] after[i]).doc,
                    ) && slots@[after[i].doc] == i by {
                        if i < before.len() {
                            assert(after[i] == before[i]);
                            assert(mapped.contains_key(before[i].doc));
                        }
                    }
                    assert forall|d: u32| #[trigger] slots@.contains_key(d) implies slots@[d]
                        < after.len() && after[slots@[d] as int].doc == d by {
                        if d != c.doc {
                            assert(mapped.contains_key(d));
                            assert(after[mapped[d] as int] == before[mapped[d] as int]);
                        }
                    }
                }
            },
        }
        k = k + 1;
    }
    proof {
        assert(summands@.take(summands@.len() as int) == summands@);
    }
    candidates
}

} // verus!
