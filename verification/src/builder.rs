//! Building an index from the records of a collection.

use crate::index::{
    count_occurrence, frequency, has_entry, lemma_length_sum_bound, lemma_occurrences_bound,
    length_sum, occurrences, postings_wf, record_tokens, slots_wf, term_names, terms_wf,
    with_new_terms, BuildError, Index, Record,
};
use crate::tokenizer::{tokenize, views};
use vstd::hash_map::StringHashMap;
use vstd::prelude::*;

verus! {

impl Index {
    /// The invariant of an index: one length per document, identifiers that
    /// fit their type, a well-formed term table over the documents, and a
    /// total that is the sum of the lengths.
    pub open spec fn wf(&self) -> bool {
        &&& self.documents@.len() == self.doc_length@.len()
        &&& self.documents@.len() <= u32::MAX
        &&& terms_wf(self.terms@, self.documents@.len() as int)
        &&& slots_wf(self.slots@, self.terms@)
        &&& self.total_length == length_sum(self.doc_length@)
    }

    /// The frequency of term `t` in document `d`.
    pub open spec fn frequency(&self, t: Seq<char>, d: int) -> nat {
        frequency(self.terms@, t, d)
    }

    /// The index of no documents.
    pub fn new() -> (index: Index)
        ensures
            index.wf(),
            index.documents@.len() == 0,
            index.terms@.len() == 0,
            index.total_length == 0,
    {
        Index {
            documents: Vec::new(),
            terms: Vec::new(),
            slots: StringHashMap::new(),
            doc_length: Vec::new(),
            total_length: 0,
        }
    }

    /// Takes in one document: it gets the next internal identifier, each of
    /// its terms is counted once per occurrence, and its length is recorded.
    /// Nothing that was stored of earlier documents changes.
    pub fn add_document(&mut self, record: &Record)
        requires
            old(self).wf(),
            old(self).documents@.len() < u32::MAX,
            record_tokens(*record).len() <= u32::MAX,
        ensures
            final(self).wf(),
            final(self).documents@ == old(self).documents@.push(record.name),
            final(self).doc_length@ == old(self).doc_length@.push(
                record_tokens(*record).len() as u32,
            ),
            term_names(final(self).terms@) == with_new_terms(
                term_names(old(self).terms@),
                record_tokens(*record),
            ),
            forall|t: Seq<char>, d: int| #[trigger]
                final(self).frequency(t, d) == if d == old(self).documents@.len() {
                    occurrences(record_tokens(*record), t)
                } else {
                    old(self).frequency(t, d)
                },
    {
        let tokens: Vec<String> = tokenize(&record.items);
        let doc: u32 = self.documents.len() as u32;
        let ghost before = self.terms@;
        let ghost toks = views(tokens@);
        proof {
            assert forall|t: Seq<char>| #[trigger] frequency(before, t, doc as int) == 0 by {
                if exists|a: int, b: int| has_entry(before, t, doc as int, a, b) {
                    let (a, b) = choose|a: int, b: int| has_entry(before, t, doc as int, a, b);
                    assert(postings_wf(before[a].postings@, doc as int));
                }
            }
            assert forall|k: int| 0 <= k < before.len() implies postings_wf(
                (#[trigger] before[k]).postings@,
                doc + 1,
            ) by {
                assert(postings_wf(before[k].postings@, doc as int));
            }
            assert(toks.take(0) == Seq::<Seq<char>>::empty());
        }
        let mut k: usize = 0;
        while k < tokens.len()
            invariant
                k <= tokens.len(),
                tokens@.len() <= u32::MAX,
                toks == views(tokens@),
                before == old(self).terms@,
                doc == old(self).documents@.len(),
                old(self).wf(),
                forall|t: Seq<char>| #[trigger] frequency(before, t, doc as int) == 0,
                terms_wf(self.terms@, doc + 1),
                slots_wf(self.slots@, self.terms@),
                term_names(self.terms@) == with_new_terms(term_names(before), toks.take(k as int)),
                self.documents == old(self).documents,
                self.doc_length == old(self).doc_length,
                self.total_length == old(self).total_length,
                forall|t: Seq<char>, d: int| #[trigger]
                    frequency(self.terms@, t, d) == frequency(before, t, d) + if d == doc {
                        occurrences(toks.take(k as int), t)
                    } else {
                        0nat
                    },
            decreases tokens.len() - k,
        {
            proof {
                lemma_occurrences_bound(toks.take(k as int), tokens@[k as int]@);
                assert(frequency(before, tokens@[k as int]@, doc as int) == 0);
                assert(toks.take(k + 1).drop_last() == toks.take(k as int));
                assert(toks.take(k + 1).last() == tokens@[k as int]@);
            }
            count_occurrence(&mut self.terms, &mut self.slots, &tokens[k], doc);
            k = k + 1;
        }
        proof {
            assert(toks.take(tokens@.len() as int) == toks);
            lemma_length_sum_bound(self.doc_length@);
            assert(self.doc_length@.len() * 0xffff_ffff + 0xffff_ffff <= u64::MAX)
                by (nonlinear_arith)
                requires
                    self.doc_length@.len() < 0xffff_ffff,
            ;
            assert(self.doc_length@.push(tokens@.len() as u32).drop_last() == self.doc_length@);
        }
        self.documents.push(record.name.clone());
        self.doc_length.push(tokens.len() as u32);
        self.total_length = self.total_length + tokens.len() as u64;
    }
}

/// The terms of all the records, record after record.
pub open spec fn all_tokens(records: Seq<Record>) -> Seq<Seq<char>>
    decreases records.len(),
{
    if records.len() == 0 {
        Seq::<Seq<char>>::empty()
    } else {
        all_tokens(records.drop_last()) + record_tokens(records.last())
    }
}

/// The distinct terms of `tokens`, in the order in which they first occur.
pub open spec fn distinct_terms(tokens: Seq<Seq<char>>) -> Seq<Seq<char>> {
    with_new_terms(Seq::<Seq<char>>::empty(), tokens)
}

/// The new terms of a second run of tokens, added to the distinct terms of
/// a first, are the distinct terms of the two runs on end.
proof fn lemma_distinct_terms_append(a: Seq<Seq<char>>, b: Seq<Seq<char>>)
    ensures
        with_new_terms(distinct_terms(a), b) == distinct_terms(a + b),
    decreases b.len(),
{
    if b.len() == 0 {
        assert(a + b =~= a);
    } else {
        lemma_distinct_terms_append(a, b.drop_last());
        assert((a + b).drop_last() =~= a + b.drop_last());
        assert((a + b).last() == b.last());
    }
}

/// What the records hold, once every one of them could be read.
pub open spec fn readable(records: Seq<Option<Record>>) -> Seq<Record> {
    Seq::new(records.len(), |i: int| records[i].unwrap())
}

/// `index` is the index of the collection `records`: document `d` is record
/// `d`, its length is the number of its terms, and the frequency of every
/// term in it is the number of times the term stands among them. The table
/// holds the terms of the collection in the order in which they first occur.
pub open spec fn built_from(index: Index, records: Seq<Record>) -> bool {
    &&& index.wf()
    &&& term_names(index.terms@) == distinct_terms(all_tokens(records))
    &&& index.documents@.len() == records.len()
    &&& forall|d: int|
        0 <= d < records.len() ==> (#[trigger] index.documents@[d])@ == records[d].name@
    &&& forall|d: int|
        0 <= d < records.len() ==> (#[trigger] index.doc_length@[d]) == record_tokens(
            records[d],
        ).len()
    &&& forall|t: Seq<char>, d: int|
        0 <= d < records.len() ==> #[trigger] index.frequency(t, d) == occurrences(
            record_tokens(records[d]),
            t,
        )
}

/// The number of terms in all the records.
pub open spec fn tokens_total(records: Seq<Record>) -> nat
    decreases records.len(),
{
    if records.len() == 0 {
        0
    } else {
        tokens_total(records.drop_last()) + record_tokens(records.last()).len()
    }
}

/// Lengths that are the term counts of the records sum to the number of
/// terms in all the records.
proof fn lemma_length_sum_tokens(lengths: Seq<u32>, records: Seq<Record>)
    requires
        lengths.len() == records.len(),
        forall|d: int|
            0 <= d < records.len() ==> (#[trigger] lengths[d]) == record_tokens(records[d]).len(),
    ensures
        length_sum(lengths) == tokens_total(records),
    decreases records.len(),
{
    if records.len() > 0 {
        let l = lengths.drop_last();
        let r = records.drop_last();
        assert forall|d: int| 0 <= d < r.len() implies (#[trigger] l[d]) == record_tokens(
            r[d],
        ).len() by {
            assert(l[d] == lengths[d]);
            assert(r[d] == records[d]);
        }
        lemma_length_sum_tokens(l, r);
        assert(lengths.last() == lengths[lengths.len() - 1]);
    }
}

/// In a built index the average document length is the mean of the stored
/// lengths: the total is their sum, which is the number of terms in all the
/// records, and there is one length for each record.
pub proof fn lemma_average_is_mean(index: Index, records: Seq<Record>)
    requires
        built_from(index, records),
    ensures
        index.total_length == length_sum(index.doc_length@),
        index.total_length == tokens_total(records),
        index.doc_length@.len() == records.len(),
{
    lemma_length_sum_tokens(index.doc_length@, records);
}

/// The collection fits the integers of an index: there are no more records
/// than identifiers, and no readable record has more terms than a length
/// can count.
pub open spec fn within_limits(records: Seq<Option<Record>>) -> bool {
    &&& records.len() <= u32::MAX
    &&& forall|i: int|
        0 <= i < records.len() && records[i].is_some() ==> record_tokens(
            (#[trigger] records[i]).unwrap(),
        ).len() <= u32::MAX
}

/// Whether the collection fits the integers of an index.
pub fn check_limits(records: &Vec<Option<Record>>) -> (ok: bool)
    ensures
        ok == within_limits(records@),
{
    if records.len() > 0xffff_ffff {
        return false;
    }
    let mut i: usize = 0;
    while i < records.len()
        invariant
            i <= records@.len() <= u32::MAX,
            forall|k: int|
                0 <= k < i && records@[k].is_some() ==> record_tokens(
                    (#[trigger] records@[k]).unwrap(),
                ).len() <= u32::MAX,
        decreases records@.len() - i,
    {
        match &records[i] {
            Some(record) => {
                let tokens: Vec<String> = tokenize(&record.items);
                if tokens.len() > 0xffff_ffff {
                    proof {
                        assert(views(tokens@).len() == tokens@.len());
                        assert(record_tokens(records@[i as int].unwrap()).len() > u32::MAX);
                    }
                    return false;
                }
                proof {
                    assert(views(tokens@).len() == tokens@.len());
                }
            },
            None => {},
        }
        i = i + 1;
    }
    true
}

/// Builds the index of a collection. A record that could not be read stands
/// in the input as `None`; the first of them ends the build with its
/// position. A collection without documents has no average length, and the
/// build fails on it.
pub fn build(records: &Vec<Option<Record>>) -> (result: Result<Index, BuildError>)
    requires
        within_limits(records@),
    ensures
        match result {
            Ok(index) => {
                &&& records@.len() > 0
                &&& forall|i: int| 0 <= i < records@.len() ==> (#[trigger] records@[i]).is_some()
                &&& built_from(index, readable(records@))
            },
            Err(BuildError::InputParse { record }) => {
                &&& record < records@.len()
                &&& records@[record as int].is_none()
                &&& forall|i: int| 0 <= i < record ==> (#[trigger] records@[i]).is_some()
            },
            Err(BuildError::DivisionByZero) => records@.len() == 0,
        },
{
    let mut index = Index::new();
    let mut i: usize = 0;
    proof {
        let none = readable(records@).take(0);
        assert(all_tokens(none) == Seq::<Seq<char>>::empty());
        assert(distinct_terms(all_tokens(none)) == Seq::<Seq<char>>::empty());
        assert(term_names(index.terms@) =~= Seq::<Seq<char>>::empty());
    }
    while i < records.len()
        invariant
            i <= records@.len() <= u32::MAX,
            forall|k: int|
                0 <= k < records@.len() && records@[k].is_some() ==> record_tokens(
                    (#[trigger] records@[k]).unwrap(),
                ).len() <= u32::MAX,
            forall|k: int| 0 <= k < i ==> (#[trigger] records@[k]).is_some(),
            built_from(index, readable(records@).take(i as int)),
        decreases records@.len() - i,
    {
        match &records[i] {
            None => {
                return Err(BuildError::InputParse { record: i });
            },
            Some(record) => {
                let ghost earlier = index;
                index.add_document(record);
                proof {
                    let done = readable(records@).take(i as int);
                    let now = readable(records@).take(i + 1);
                    assert(now[i as int] == *record);
                    assert(now.drop_last() =~= done);
                    assert(now.last() == *record);
                    lemma_distinct_terms_append(all_tokens(done), record_tokens(*record));
                    assert forall|t: Seq<char>, d: int| 0 <= d < now.len() implies #[trigger]
                        index.frequency(t, d) == occurrences(record_tokens(now[d]), t) by {
                        if d < i {
                            assert(now[d] == done[d]);
                            assert(earlier.frequency(t, d) == occurrences(
                                record_tokens(done[d]),
                                t,
                            ));
                        }
                    }
                    assert forall|d: int| 0 <= d < now.len() implies (
                    #[trigger] index.documents@[d])@ == now[d].name@ by {
                        if d < i {
                            assert(now[d] == done[d]);
                            assert(earlier.documents@[d]@ == done[d].name@);
                        }
                    }
                    assert forall|d: int| 0 <= d < now.len() implies (
                    #[trigger] index.doc_length@[d]) == record_tokens(now[d]).len() by {
                        if d < i {
                            assert(now[d] == done[d]);
                            assert(earlier.doc_length@[d] == record_tokens(done[d]).len());
                        }
                    }
                }
            },
        }
        i = i + 1;
    }
    proof {
        assert(readable(records@).take(records@.len() as int) == readable(records@));
    }
    if i == 0 {
        Err(BuildError::DivisionByZero)
    } else {
        Ok(index)
    }
}

} // verus!
