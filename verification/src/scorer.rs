//! Laying out the score of a query: which documents it touches, and what
//! each occurrence of a query term adds to each of them.

use crate::index::{
    find_term, has_entry, lemma_frequency_at, lemma_postings_bound, postings_wf, Index, Posting,
};
use crate::group::{group, grouped, Candidate};
use crate::stats::{lemma_slot_of, slot_of};
use crate::tokenizer::views;
use vstd::prelude::*;

verus! {

/// What one occurrence of a query term adds to one document: the integers
/// that the term's summand is computed from.
#[derive(Clone, Copy, Debug)]
pub struct Contribution {
    /// The document that is scored.
    pub doc: u32,
    /// How often the term occurs in it.
    pub freq: u32,
    /// The length of the document.
    pub doc_length: u32,
    /// How many documents hold the term.
    pub doc_frequency: u32,
}

/// The summands of one occurrence of term `t`: one for each document that
/// holds it, by ascending identifier; none for a term that the index does
/// not hold.
pub open spec fn term_plan(index: Index, t: Seq<char>) -> Seq<Contribution> {
    match slot_of(index.terms@, t) {
        Some(i) => {
            let ps = index.terms@[i].postings@;
            Seq::new(
                ps.len(),
                |j: int|
                    Contribution {
                        doc: ps[j].doc,
                        freq: ps[j].freq,
                        doc_length: index.doc_length@[ps[j].doc as int],
                        doc_frequency: ps.len() as u32,
                    },
            )
        },
        None => Seq::<Contribution>::empty(),
    }
}

/// The summands of a query: those of its terms, occurrence after
/// occurrence, so that a term that stands twice is scored twice.
pub open spec fn plan_spec(index: Index, query: Seq<Seq<char>>) -> Seq<Contribution>
    decreases query.len(),
{
    if query.len() == 0 {
        Seq::<Contribution>::empty()
    } else {
        plan_spec(index, query.drop_last()) + term_plan(index, query.last())
    }
}

/// Lays out the score of `query` over `index`.
pub fn plan(index: &Index, query: &Vec<String>) -> (summands: Vec<Contribution>)
    requires
        index.wf(),
    ensures
        summands@ == plan_spec(*index, views(query@)),
{
    let mut summands: Vec<Contribution> = Vec::new();
    let ghost q = views(query@);
    let ghost n = index.documents@.len() as int;
    let mut k: usize = 0;
    proof {
        assert(q.take(0) == Seq::<Seq<char>>::empty());
    }
    while k < query.len()
        invariant
            k <= query.len(),
            index.wf(),
            q == views(query@),
            n == index.documents@.len(),
            summands@ == plan_spec(*index, q.take(k as int)),
        decreases query.len() - k,
    {
        let ghost done = summands@;
        proof {
            assert(q.take(k + 1).drop_last() == q.take(k as int));
            assert(q.take(k + 1).last() == query@[k as int]@);
        }
        match find_term(&index.terms, &index.slots, &query[k]) {
            Some(i) => {
                let postings = &index.terms[i].postings;
                let ghost ps = postings@;
                let ghost part = term_plan(*index, query@[k as int]@);
                proof {
                    lemma_slot_of(index.terms@, n, i as int);
                    assert(postings_wf(ps, n));
                    lemma_postings_bound(ps, n);
                    assert(part.len() == ps.len());
                }
                let nq: u32 = postings.len() as u32;
                let mut j: usize = 0;
                while j < postings.len()
                    invariant
                        j <= postings.len(),
                        ps == postings@,
                        postings_wf(ps, n),
                        n == index.doc_length@.len(),
                        part == term_plan(*index, query@[k as int]@),
                        part.len() == ps.len(),
                        forall|l: int|
                            0 <= l < ps.len() ==> #[trigger] part[l] == (Contribution {
                                doc: ps[l].doc,
                                freq: ps[l].freq,
                                doc_length: index.doc_length@[ps[l].doc as int],
                                doc_frequency: nq,
                            }),
                        summands@ == done + part.take(j as int),
                    decreases postings.len() - j,
                {
                    let p: Posting = postings[j];
                    summands.push(
                        Contribution {
                            doc: p.doc,
                            freq: p.freq,
                            doc_length: index.doc_length[p.doc as usize],
                            doc_frequency: nq,
                        },
                    );
                    proof {
                        assert(part.take(j + 1) == part.take(j as int).push(part[j as int]));
                        assert(summands@ == done + part.take(j + 1));
                    }
                    j = j + 1;
                }
                proof {
                    assert(part.take(ps.len() as int) == part);
                }
            },
            None => {
                proof {
                    assert(slot_of(index.terms@, query@[k as int]@) is None);
                    assert(done + Seq::<Contribution>::empty() == done);
                }
            },
        }
        k = k + 1;
    }
    proof {
        assert(q.take(query@.len() as int) == q);
    }
    summands
}

/// The documents that `query` touches in `index`, each with its summands.
pub fn candidates(index: &Index, query: &Vec<String>) -> (found: Vec<Candidate>)
    requires
        index.wf(),
    ensures
        grouped(found@, plan_spec(*index, views(query@))),
        views(query@).len() == 0 ==> found@.len() == 0,
{
    let summands: Vec<Contribution> = plan(index, query);
    group(&summands)
}

/// Asked twice, the same query of the same index touches the same documents
/// in the same order and adds the same summands to each, in the same order.
pub proof fn lemma_deterministic(
    index: Index,
    query: Seq<Seq<char>>,
    first: Seq<Candidate>,
    second: Seq<Candidate>,
)
    requires
        grouped(first, plan_spec(index, query)),
        grouped(second, plan_spec(index, query)),
    ensures
        first.len() == second.len(),
        forall|i: int|
            0 <= i < first.len() ==> (#[trigger] first[i]).doc == second[i].doc && first[i].parts@
                == second[i].parts@,
{
}

/// A query without terms touches no document.
pub proof fn lemma_empty_query(index: Index)
    ensures
        plan_spec(index, Seq::<Seq<char>>::empty()).len() == 0,
{
}

/// A query all of whose terms the index holds in no document touches no
/// document.
pub proof fn lemma_absent_terms(index: Index, query: Seq<Seq<char>>)
    requires
        index.wf(),
        forall|k: int, d: int|
            0 <= k < query.len() ==> #[trigger] index.frequency(query[k], d) == 0,
    ensures
        plan_spec(index, query).len() == 0,
    decreases query.len(),
{
    if query.len() > 0 {
        lemma_absent_terms(index, query.drop_last());
        let t = query.last();
        match slot_of(index.terms@, t) {
            Some(i) => {
                let ps = index.terms@[i].postings@;
                let n = index.documents@.len() as int;
                assert(postings_wf(ps, n));
                assert(has_entry(index.terms@, t, ps[0].doc as int, i, 0));
                lemma_frequency_at(index.terms@, n, t, ps[0].doc as int, i, 0);
                assert(index.frequency(query[query.len() - 1], ps[0].doc as int) == 0);
            },
            None => {},
        }
    }
}

/// What the summands of a term say is what the index stores: each names a
/// document that holds the term, with the stored frequency and length, and
/// every document that holds the term has its summand.
pub proof fn lemma_term_plan_frequency(index: Index, t: Seq<char>)
    requires
        index.wf(),
    ensures
        forall|j: int|
            0 <= j < term_plan(index, t).len() ==> {
                let c = #[trigger] term_plan(index, t)[j];
                &&& c.doc < index.documents@.len()
                &&& c.freq > 0
                &&& c.freq == index.frequency(t, c.doc as int)
                &&& c.doc_length == index.doc_length@[c.doc as int]
                &&& c.doc_frequency == term_plan(index, t).len()
            },
        forall|j: int, l: int|
            0 <= j < l < term_plan(index, t).len() ==> term_plan(index, t)[j].doc < term_plan(
                index,
                t,
            )[l].doc,
        forall|d: int|
            index.frequency(t, d) > 0 ==> exists|j: int|
                0 <= j < term_plan(index, t).len() && (#[trigger] term_plan(index, t)[j]).doc == d,
{
    let n = index.documents@.len() as int;
    let terms = index.terms@;
    match slot_of(terms, t) {
        Some(i) => {
            let ps = terms[i].postings@;
            assert(postings_wf(ps, n));
            lemma_postings_bound(ps, n);
            assert forall|j: int| 0 <= j < term_plan(index, t).len() implies {
                let c = #[trigger] term_plan(index, t)[j];
                &&& c.doc < index.documents@.len()
                &&& c.freq > 0
                &&& c.freq == index.frequency(t, c.doc as int)
                &&& c.doc_length == index.doc_length@[c.doc as int]
                &&& c.doc_frequency == term_plan(index, t).len()
            } by {
                assert(0 < ps[j].freq && ps[j].doc < n);
                assert(has_entry(terms, t, ps[j].doc as int, i, j));
                lemma_frequency_at(terms, n, t, ps[j].doc as int, i, j);
            }
            assert forall|j: int, l: int| 0 <= j < l < term_plan(index, t).len() implies term_plan(
                index,
                t,
            )[j].doc < term_plan(index, t)[l].doc by {
                assert(ps[j].doc < ps[l].doc);
            }
            assert forall|d: int| index.frequency(t, d) > 0 implies exists|j: int|
                0 <= j < term_plan(index, t).len() && (#[trigger] term_plan(index, t)[j]).doc
                    == d by {
                let (a, b) = choose|a: int, b: int| has_entry(terms, t, d, a, b);
                assert(has_entry(terms, t, d, a, b));
                lemma_slot_of(terms, n, a);
                assert(term_plan(index, t)[b].doc == d);
            }
        },
        None => {
            assert forall|d: int| index.frequency(t, d) > 0 implies exists|j: int|
                0 <= j < term_plan(index, t).len() && (#[trigger] term_plan(index, t)[j]).doc
                    == d by {
                let (a, b) = choose|a: int, b: int| has_entry(terms, t, d, a, b);
                assert(has_entry(terms, t, d, a, b));
                assert(terms[a].term@ == t);
            }
        },
    }
}

} // verus!
