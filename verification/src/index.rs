//! The index: documents, postings and lengths, and how a collection of
//! records becomes one.

use crate::tokenizer::{tokens_spec, views};
use vstd::hash_map::StringHashMap;
use vstd::prelude::*;

verus! {

/// How often a term occurs in one document.
#[derive(Clone, Copy, Debug)]
pub struct Posting {
    /// The internal identifier of the document.
    pub doc: u32,
    /// The number of occurrences; never zero in a well-formed index.
    pub freq: u32,
}

/// A term with the documents that hold it.
#[derive(Debug)]
pub struct TermData {
    pub term: String,
    /// One entry for each document that holds the term, by ascending
    /// identifier.
    pub postings: Vec<Posting>,
}

/// One document as it is handed to the builder.
#[derive(Debug)]
pub struct Record {
    /// The stable external identifier.
    pub name: String,
    /// The raw items, each a path.
    pub items: Vec<String>,
}

/// Why a build was given up.
#[derive(Clone, Copy, Debug)]
pub enum BuildError {
    /// The record at this position of the input could not be read.
    InputParse { record: usize },
    /// The input held no document, so there is no average length.
    DivisionByZero,
}

/// The aggregate that queries are answered from.
pub struct Index {
    /// External identifiers by internal identifier.
    pub documents: Vec<String>,
    /// The terms, each once, in order of first occurrence.
    pub terms: Vec<TermData>,
    /// Where each term stands in `terms`.
    pub slots: StringHashMap<usize>,
    /// Term counts by internal identifier.
    pub doc_length: Vec<u32>,
    /// The sum of all term counts.
    pub total_length: u64,
}

/// Entry `j` of the postings of slot `i` is the one of term `t` in document
/// `d`.
pub open spec fn has_entry(terms: Seq<TermData>, t: Seq<char>, d: int, i: int, j: int) -> bool {
    &&& 0 <= i < terms.len()
    &&& 0 <= j < terms[i].postings@.len()
    &&& terms[i].term@ == t
    &&& terms[i].postings@[j].doc == d
}

/// The stored frequency of term `t` in document `d`; zero where nothing is
/// stored.
pub open spec fn frequency(terms: Seq<TermData>, t: Seq<char>, d: int) -> nat {
    if exists|i: int, j: int| has_entry(terms, t, d, i, j) {
        let (i, j) = choose|i: int, j: int| has_entry(terms, t, d, i, j);
        terms[i].postings@[j].freq as nat
    } else {
        0
    }
}

/// A postings list over `n` documents: not empty, no zero frequency, every
/// document known, identifiers strictly ascending.
pub open spec fn postings_wf(ps: Seq<Posting>, n: int) -> bool {
    &&& ps.len() > 0
    &&& forall|j: int| 0 <= j < ps.len() ==> 0 < (#[trigger] ps[j]).freq && ps[j].doc < n
    &&& forall|j: int, k: int| 0 <= j < k < ps.len() ==> (#[trigger] ps[j]).doc < (#[trigger] ps[k]).doc
}

/// A term table over `n` documents: no term twice, every postings list
/// well formed.
pub open spec fn terms_wf(terms: Seq<TermData>, n: int) -> bool {
    &&& forall|i: int, k: int|
        0 <= i < k < terms.len() ==> (#[trigger] terms[i]).term@ != (#[trigger] terms[k]).term@
    &&& forall|i: int| 0 <= i < terms.len() ==> postings_wf((#[trigger] terms[i]).postings@, n)
}

/// The map from terms to slots is the one that the table gives: every term
/// of the table is mapped to its slot, and nothing else is mapped.
pub open spec fn slots_wf(slots: Map<Seq<char>, usize>, terms: Seq<TermData>) -> bool {
    &&& forall|i: int|
        0 <= i < terms.len() ==> slots.contains_key((#[trigger] terms[i]).term@)
            && slots[terms[i].term@] == i
    &&& forall|t: Seq<char>| #[trigger]
        slots.contains_key(t) ==> slots[t] < terms.len() && terms[slots[t] as int].term@ == t
}

/// The sum of the lengths.
pub open spec fn length_sum(lengths: Seq<u32>) -> nat
    decreases lengths.len(),
{
    if lengths.len() == 0 {
        0
    } else {
        length_sum(lengths.drop_last()) + lengths.last() as nat
    }
}

/// How often `t` stands in `tokens`.
pub open spec fn occurrences(tokens: Seq<Seq<char>>, t: Seq<char>) -> nat
    decreases tokens.len(),
{
    if tokens.len() == 0 {
        0
    } else {
        occurrences(tokens.drop_last(), t) + if tokens.last() == t {
            1nat
        } else {
            0nat
        }
    }
}

/// The terms of the table, slot by slot.
pub open spec fn term_names(terms: Seq<TermData>) -> Seq<Seq<char>> {
    Seq::new(terms.len(), |i: int| terms[i].term@)
}

/// The terms `known` with those of `tokens` that are new, each once, in the
/// order in which they first stand in `tokens`.
pub open spec fn with_new_terms(known: Seq<Seq<char>>, tokens: Seq<Seq<char>>) -> Seq<Seq<char>>
    decreases tokens.len(),
{
    if tokens.len() == 0 {
        known
    } else {
        let earlier = with_new_terms(known, tokens.drop_last());
        if earlier.contains(tokens.last()) {
            earlier
        } else {
            earlier.push(tokens.last())
        }
    }
}

/// The term sequence of a record.
pub open spec fn record_tokens(r: Record) -> Seq<Seq<char>> {
    tokens_spec(views(r.items@))
}

/// A term cannot occur more often than there are tokens.
pub proof fn lemma_occurrences_bound(tokens: Seq<Seq<char>>, t: Seq<char>)
    ensures
        occurrences(tokens, t) <= tokens.len(),
    decreases tokens.len(),
{
    if tokens.len() > 0 {
        lemma_occurrences_bound(tokens.drop_last(), t);
    }
}

/// The sum of `n` lengths is at most `n` times the largest length there is.
pub proof fn lemma_length_sum_bound(lengths: Seq<u32>)
    ensures
        length_sum(lengths) <= lengths.len() * 0xffff_ffff,
    decreases lengths.len(),
{
    if lengths.len() > 0 {
        lemma_length_sum_bound(lengths.drop_last());
    }
}

/// In a well-formed table an entry is the only one of its term and
/// document, so the stored frequency is the one found there.
pub proof fn lemma_frequency_at(terms: Seq<TermData>, n: int, t: Seq<char>, d: int, i: int, j: int)
    requires
        terms_wf(terms, n),
        has_entry(terms, t, d, i, j),
    ensures
        frequency(terms, t, d) == terms[i].postings@[j].freq,
{
    let (i2, j2) = choose|i: int, j: int| has_entry(terms, t, d, i, j);
    assert(has_entry(terms, t, d, i2, j2));
    assert(i2 == i) by {
        if i2 < i {
            assert(terms[i2].term@ != terms[i].term@);
        } else if i < i2 {
            assert(terms[i].term@ != terms[i2].term@);
        }
    }
    let ps = terms[i].postings@;
    assert(postings_wf(ps, n));
    assert(j2 == j) by {
        if j2 < j {
            assert(ps[j2].doc < ps[j].doc);
        } else if j < j2 {
            assert(ps[j].doc < ps[j2].doc);
        }
    }
}

/// Entry `j` of a well-formed postings list names a document not below `j`,
/// so the list is no longer than the collection.
pub proof fn lemma_postings_bound(ps: Seq<Posting>, n: int)
    requires
        postings_wf(ps, n),
    ensures
        forall|j: int| 0 <= j < ps.len() ==> j <= (#[trigger] ps[j]).doc,
        ps.len() <= n,
{
    assert forall|j: int| 0 <= j < ps.len() implies j <= (#[trigger] ps[j]).doc by {
        lemma_postings_ascend(ps, n, j);
    }
    assert(ps.len() - 1 <= ps[ps.len() - 1].doc);
}

proof fn lemma_postings_ascend(ps: Seq<Posting>, n: int, j: int)
    requires
        postings_wf(ps, n),
        0 <= j < ps.len(),
    ensures
        j <= ps[j].doc,
    decreases j,
{
    if j > 0 {
        lemma_postings_ascend(ps, n, j - 1);
        assert(ps[j - 1].doc < ps[j].doc);
    }
}

/// The slot of `term` in the table, if it has one.
pub fn find_term(terms: &Vec<TermData>, slots: &StringHashMap<usize>, term: &String) -> (slot:
    Option<usize>)
    requires
        slots_wf(slots@, terms@),
    ensures
        match slot {
            Some(i) => i < terms.len() && terms[i as int].term@ == term@,
            None => forall|i: int| 0 <= i < terms.len() ==> (#[trigger] terms[i]).term@ != term@,
        },
{
    match slots.get(term.as_str()) {
        Some(i) => Some(*i),
        None => None,
    }
}

/// Counts one more occurrence of `term` in the newest document, `doc`.
pub fn count_occurrence(
    terms: &mut Vec<TermData>,
    slots: &mut StringHashMap<usize>,
    term: &String,
    doc: u32,
)
    requires
        terms_wf(old(terms)@, doc + 1),
        slots_wf(old(slots)@, old(terms)@),
        frequency(old(terms)@, term@, doc as int) < u32::MAX,
    ensures
        terms_wf(final(terms)@, doc + 1),
        slots_wf(final(slots)@, final(terms)@),
        term_names(final(terms)@) == if term_names(old(terms)@).contains(term@) {
            term_names(old(terms)@)
        } else {
            term_names(old(terms)@).push(term@)
        },
        forall|t: Seq<char>, d: int| #[trigger]
            frequency(final(terms)@, t, d) == frequency(old(terms)@, t, d) + if t == term@ && d
                == doc {
                1nat
            } else {
                0nat
            },
{
    let ghost before = terms@;
    let ghost n = doc + 1;
    match find_term(terms, slots, term) {
        Some(i) => {
            assert(postings_wf(before[i as int].postings@, n));
            let last: usize = terms[i].postings.len() - 1;
            if terms[i].postings[last].doc == doc {
                proof {
                    assert(has_entry(before, term@, doc as int, i as int, last as int));
                    lemma_frequency_at(before, n, term@, doc as int, i as int, last as int);
                }
                terms[i].postings[last].freq += 1;
                proof {
                    let after = terms@;
                    assert(after.len() == before.len());
                    assert forall|k: int| 0 <= k < after.len() implies (#[trigger] after[k]).term@
                        == before[k].term@ && after[k].postings@.len() == before[k].postings@.len()
                        && (forall|j: int|
                        0 <= j < after[k].postings@.len() ==> (#[trigger] after[k].postings@[j]).doc
                            == before[k].postings@[j].doc && after[k].postings@[j].freq
                            == before[k].postings@[j].freq + if k == i && j == last {
                            1int
                        } else {
                            0int
                        }) by {
                        assert(postings_wf(before[k].postings@, n));
                    }
                    lemma_same_shape_wf(before, after, n);
                    lemma_same_terms_slots(slots@, before, after);
                    assert(term_names(after) =~= term_names(before));
                    assert(term_names(before)[i as int] == term@);
                    assert forall|t: Seq<char>, d: int| #[trigger]
                        frequency(after, t, d) == frequency(before, t, d) + if t == term@ && d
                            == doc {
                            1nat
                        } else {
                            0nat
                        } by {
                        if exists|a: int, b: int| has_entry(before, t, d, a, b) {
                            let (a, b) = choose|a: int, b: int| has_entry(before, t, d, a, b);
                            lemma_frequency_at(before, n, t, d, a, b);
                            assert(has_entry(after, t, d, a, b));
                            lemma_frequency_at(after, n, t, d, a, b);
                            if t == term@ && d == doc {
                                lemma_frequency_at(after, n, t, d, i as int, last as int);
                            }
                        } else if exists|a: int, b: int| has_entry(after, t, d, a, b) {
                            let (a, b) = choose|a: int, b: int| has_entry(after, t, d, a, b);
                            assert(has_entry(before, t, d, a, b));
                        }
                    }
                }
            } else {
                terms[i].postings.push(Posting { doc, freq: 1 });
                proof {
                    let after = terms@;
                    let len = before[i as int].postings@.len() as int;
                    assert(after.len() == before.len());
                    assert(after[i as int].term@ == before[i as int].term@);
                    assert(after[i as int].postings@ == before[i as int].postings@.push(
                        Posting { doc, freq: 1 },
                    ));
                    assert forall|k: int| 0 <= k < after.len() implies (#[trigger] after[k]).term@
                        == before[k].term@ by {
                        if k != i {
                            assert(after[k] == before[k]);
                        }
                    }
                    lemma_same_terms_slots(slots@, before, after);
                    assert(term_names(after) =~= term_names(before));
                    assert(term_names(before)[i as int] == term@);
                    assert forall|k: int| 0 <= k < after.len() implies postings_wf(
                        (#[trigger] after[k]).postings@,
                        n,
                    ) by {
                        assert(postings_wf(before[k].postings@, n));
                        if k != i {
                            assert(after[k] == before[k]);
                        }
                    }
                    assert forall|a: int, b: int| 0 <= a < b < after.len() implies (
                    #[trigger] after[a]).term@ != (#[trigger] after[b]).term@ by {
                        assert(before[a].term@ != before[b].term@);
                        assert(after[a].term@ == before[a].term@);
                        assert(after[b].term@ == before[b].term@);
                    }
                    assert forall|t: Seq<char>, d: int| #[trigger]
                        frequency(after, t, d) == frequency(before, t, d) + if t == term@ && d
                            == doc {
                            1nat
                        } else {
                            0nat
                        } by {
                        if exists|a: int, b: int| has_entry(before, t, d, a, b) {
                            let (a, b) = choose|a: int, b: int| has_entry(before, t, d, a, b);
                            lemma_frequency_at(before, n, t, d, a, b);
                            assert(after[a].term@ == before[a].term@);
                            assert(after[a].postings@[b] == before[a].postings@[b]);
                            assert(has_entry(after, t, d, a, b));
                            lemma_frequency_at(after, n, t, d, a, b);
                            if t == term@ && d == doc {
                                assert(a == i) by {
                                    if a < i {
                                        assert(before[a].term@ != before[i as int].term@);
                                    } else if i < a {
                                        assert(before[i as int].term@ != before[a].term@);
                                    }
                                }
                                assert(false);
                            }
                        } else if exists|a: int, b: int| has_entry(after, t, d, a, b) {
                            let (a, b) = choose|a: int, b: int| has_entry(after, t, d, a, b);
                            lemma_frequency_at(after, n, t, d, a, b);
                            assert(after[a].term@ == before[a].term@);
                            if a != i || b != len {
                                assert(after[a].postings@[b] == before[a].postings@[b]);
                                assert(has_entry(before, t, d, a, b));
                            }
                        } else {
                            if t == term@ && d == doc {
                                assert(has_entry(after, t, d, i as int, len));
                            }
                        }
                    }
                }
            }
        },
        None => {
            let mut postings: Vec<Posting> = Vec::new();
            postings.push(Posting { doc, freq: 1 });
            let ghost mapped = slots@;
            slots.insert(term.clone(), terms.len());
            terms.push(TermData { term: term.clone(), postings });
            proof {
                let after = terms@;
                let slot = before.len() as int;
                assert(after[slot].term@ == term@);
                assert forall|k: int| 0 <= k < before.len() implies after[k] == before[k] by {}
                assert(term_names(after) =~= term_names(before).push(term@));
                assert(!term_names(before).contains(term@)) by {
                    if term_names(before).contains(term@) {
                        let w = choose|w: int|
                            0 <= w < term_names(before).len() && term_names(before)[w] == term@;
                        assert(before[w].term@ == term@);
                    }
                }
                assert forall|k: int| 0 <= k < after.len() implies slots@.contains_key(
                    (#[trigger] after[k]).term@,
                ) && slots@[after[k].term@] == k by {
                    if k != slot {
                        assert(after[k] == before[k]);
                        assert(mapped.contains_key(before[k].term@));
                    }
                }
                assert forall|t: Seq<char>| #[trigger] slots@.contains_key(t) implies slots@[t]
                    < after.len() && after[slots@[t] as int].term@ == t by {
                    if t != term@ {
                        assert(mapped.contains_key(t));
                        assert(after[mapped[t] as int] == before[mapped[t] as int]);
                    }
                }
                assert(after[slot].term@ == term@);
                assert(after[slot].postings@ == seq![Posting { doc, freq: 1 }]);
                assert forall|k: int| 0 <= k < after.len() implies postings_wf(
                    (#[trigger] after[k]).postings@,
                    n,
                ) by {
                    if k != slot {
                        assert(after[k] == before[k]);
                        assert(postings_wf(before[k].postings@, n));
                    }
                }
                assert forall|a: int, b: int| 0 <= a < b < after.len() implies (
                #[trigger] after[a]).term@ != (#[trigger] after[b]).term@ by {
                    assert(after[a] == before[a]);
                    if b != slot {
                        assert(after[b] == before[b]);
                        assert(before[a].term@ != before[b].term@);
                    }
                }
                assert forall|t: Seq<char>, d: int| #[trigger]
                    frequency(after, t, d) == frequency(before, t, d) + if t == term@ && d == doc {
                        1nat
                    } else {
                        0nat
                    } by {
                    if exists|a: int, b: int| has_entry(before, t, d, a, b) {
                        let (a, b) = choose|a: int, b: int| has_entry(before, t, d, a, b);
                        lemma_frequency_at(before, n, t, d, a, b);
                        assert(after[a] == before[a]);
                        assert(has_entry(after, t, d, a, b));
                        lemma_frequency_at(after, n, t, d, a, b);
                    } else if exists|a: int, b: int| has_entry(after, t, d, a, b) {
                        let (a, b) = choose|a: int, b: int| has_entry(after, t, d, a, b);
                        lemma_frequency_at(after, n, t, d, a, b);
                        if a != slot {
                            assert(after[a] == before[a]);
                            assert(has_entry(before, t, d, a, b));
                        }
                    } else {
                        if t == term@ && d == doc {
                            assert(has_entry(after, t, d, slot, 0));
                        }
                    }
                }
            }
        },
    }
}

/// A map that fits a table fits every table with the same terms in the same
/// slots.
proof fn lemma_same_terms_slots(
    slots: Map<Seq<char>, usize>,
    before: Seq<TermData>,
    after: Seq<TermData>,
)
    requires
        slots_wf(slots, before),
        after.len() == before.len(),
        forall|k: int| 0 <= k < after.len() ==> (#[trigger] after[k]).term@ == before[k].term@,
    ensures
        slots_wf(slots, after),
{
    assert forall|i: int| 0 <= i < after.len() implies slots.contains_key(
        (#[trigger] after[i]).term@,
    ) && slots[after[i].term@] == i by {
        assert(slots.contains_key(before[i].term@));
    }
}

/// A table with the terms and documents of a well-formed one, entry for
/// entry, and no zero frequency, is well formed.
proof fn lemma_same_shape_wf(before: Seq<TermData>, after: Seq<TermData>, n: int)
    requires
        terms_wf(before, n),
        after.len() == before.len(),
        forall|k: int|
            0 <= k < after.len() ==> (#[trigger] after[k]).term@ == before[k].term@
                && after[k].postings@.len() == before[k].postings@.len() && (forall|j: int|
                0 <= j < after[k].postings@.len() ==> (#[trigger] after[k].postings@[j]).doc
                    == before[k].postings@[j].doc && after[k].postings@[j].freq
                    >= before[k].postings@[j].freq),
    ensures
        terms_wf(after, n),
{
    assert forall|i: int, k: int| 0 <= i < k < after.len() implies (#[trigger] after[i]).term@ != (
    #[trigger] after[k]).term@ by {
        assert(before[i].term@ != before[k].term@);
    }
    assert forall|k: int| 0 <= k < after.len() implies postings_wf(
        (#[trigger] after[k]).postings@,
        n,
    ) by {
        let ps = after[k].postings@;
        let qs = before[k].postings@;
        assert(postings_wf(qs, n));
        assert forall|j: int| 0 <= j < ps.len() implies 0 < (#[trigger] ps[j]).freq && ps[j].doc
            < n by {
            assert(0 < qs[j].freq && qs[j].doc < n);
        }
        assert forall|j: int, l: int| 0 <= j < l < ps.len() implies (#[trigger] ps[j]).doc < (
        #[trigger] ps[l]).doc by {
            assert(qs[j].doc < qs[l].doc);
        }
    }
}

} // verus!
