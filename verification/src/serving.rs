//! The one index of a serving process, and what a query needs of it.
//!
//! The state only ever holds a well-formed index. Readers share it; whoever
//! replaces it has it alone for the one step of the swap.

use crate::group::{grouped, lemma_touched, touched, Candidate};
use crate::index::Index;
use crate::scorer::{
    candidates, lemma_absent_terms, lemma_term_plan_frequency, plan_spec, term_plan, Contribution,
};
use crate::tokenizer::views;
use vstd::prelude::*;

verus! {

/// What a query needs of the index to be scored: the documents it touches
/// with their names and summands, and the statistics of the collection.
pub struct Prepared {
    /// The number of documents in the collection.
    pub document_count: u32,
    /// The summed length of all documents.
    pub total_length: u64,
    /// The documents that the query touches.
    pub candidates: Vec<Candidate>,
    /// The external identifier of each candidate, in the same order.
    pub names: Vec<String>,
}

/// `prepared` is what `query` needs of `index`.
pub open spec fn prepared_from(prepared: Prepared, index: Index, query: Seq<Seq<char>>) -> bool {
    &&& prepared.document_count == index.documents@.len()
    &&& prepared.total_length == index.total_length
    &&& grouped(prepared.candidates@, plan_spec(index, query))
    &&& prepared.names@.len() == prepared.candidates@.len()
    &&& forall|i: int|
        0 <= i < prepared.candidates@.len() ==> (#[trigger] prepared.candidates@[i]).doc
            < index.documents@.len() && prepared.names@[i]@
            == index.documents@[prepared.candidates@[i].doc as int]@
}

/// Every summand of a query names a document of the index.
pub proof fn lemma_plan_documents(index: Index, query: Seq<Seq<char>>)
    requires
        index.wf(),
    ensures
        forall|k: int|
            0 <= k < plan_spec(index, query).len() ==> (#[trigger] plan_spec(index, query)[k]).doc
                < index.documents@.len(),
    decreases query.len(),
{
    if query.len() > 0 {
        lemma_plan_documents(index, query.drop_last());
        lemma_term_plan_frequency(index, query.last());
        let head = plan_spec(index, query.drop_last());
        let tail = term_plan(index, query.last());
        assert forall|k: int| 0 <= k < plan_spec(index, query).len() implies (
        #[trigger] plan_spec(index, query)[k]).doc < index.documents@.len() by {
            if k < head.len() {
                assert((head + tail)[k] == head[k]);
            } else {
                assert((head + tail)[k] == tail[k - head.len()]);
            }
        }
    }
}

/// A query all of whose terms the index holds in no document, and so a
/// query of terms that the index does not know, has no candidates.
pub proof fn lemma_absent_terms_prepared(prepared: Prepared, index: Index, query: Seq<Seq<char>>)
    requires
        index.wf(),
        prepared_from(prepared, index, query),
        forall|k: int, d: int|
            0 <= k < query.len() ==> #[trigger] index.frequency(query[k], d) == 0,
    ensures
        prepared.candidates@.len() == 0,
        prepared.names@.len() == 0,
{
    lemma_absent_terms(index, query);
    assert(plan_spec(index, query) == Seq::<Contribution>::empty());
}

/// What a query needs of an index is the same whenever it is asked: the
/// same candidates in the same order, each with the same name and the same
/// summands in the same order.
pub proof fn lemma_same_answer(first: Prepared, second: Prepared, index: Index, query: Seq<Seq<char>>)
    requires
        prepared_from(first, index, query),
        prepared_from(second, index, query),
    ensures
        first.document_count == second.document_count,
        first.total_length == second.total_length,
        first.candidates@.len() == second.candidates@.len(),
        first.names@.len() == second.names@.len(),
        forall|i: int|
            0 <= i < first.candidates@.len() ==> (#[trigger] first.candidates@[i]).doc
                == second.candidates@[i].doc && first.candidates@[i].parts@
                == second.candidates@[i].parts@ && first.names@[i]@ == second.names@[i]@,
{
}

/// Gathers what `query` needs of `index`.
pub fn prepare(index: &Index, query: &Vec<String>) -> (prepared: Prepared)
    requires
        index.wf(),
    ensures
        prepared_from(prepared, *index, views(query@)),
        query@.len() == 0 ==> prepared.candidates@.len() == 0 && prepared.names@.len() == 0,
{
    let found: Vec<Candidate> = candidates(index, query);
    let ghost summands = plan_spec(*index, views(query@));
    let mut names: Vec<String> = Vec::new();
    let mut i: usize = 0;
    proof {
        lemma_plan_documents(*index, views(query@));
    }
    while i < found.len()
        invariant
            i <= found.len(),
            index.wf(),
            summands == plan_spec(*index, views(query@)),
            grouped(found@, summands),
            forall|k: int|
                0 <= k < summands.len() ==> (#[trigger] summands[k]).doc < index.documents@.len(),
            names@.len() == i,
            forall|j: int|
                0 <= j < i ==> (#[trigger] found@[j]).doc < index.documents@.len() && names@[j]@
                    == index.documents@[found@[j].doc as int]@,
        decreases found.len() - i,
    {
        let doc: u32 = found[i].doc;
        proof {
            lemma_touched(summands, doc);
            assert(touched(summands)[i as int] == doc);
            assert(touched(summands).contains(doc));
        }
        names.push(index.documents[doc as usize].clone());
        i = i + 1;
    }
    Prepared {
        document_count: index.documents.len() as u32,
        total_length: index.total_length,
        candidates: found,
        names,
    }
}

/// The index that a process serves.
///
/// Many may read it at once and one may replace it, as shared and exclusive
/// borrows allow: a reader works on one whole index from the beginning of
/// its call to the end, and a replacement puts a whole index in the place
/// of the old one in one step.
pub struct ServingState {
    index: Index,
}

impl ServingState {
    /// What is served is always a well-formed index.
    #[verifier::type_invariant]
    spec fn serves_well_formed(self) -> bool {
        self.index.wf()
    }

    /// The index that is served.
    pub closed spec fn served(&self) -> Index {
        self.index
    }

    /// Starts serving `index`.
    pub fn new(index: Index) -> (state: ServingState)
        requires
            index.wf(),
        ensures
            state.served() == index,
    {
        ServingState { index }
    }

    /// The index that is served, for reading.
    pub fn read(&self) -> (index: &Index)
        ensures
            *index == self.served(),
            index.wf(),
    {
        proof {
            use_type_invariant(self);
        }
        &self.index
    }

    /// Gathers what `query` needs, all of it from the index that is served.
    pub fn prepare(&self, query: &Vec<String>) -> (prepared: Prepared)
        ensures
            self.served().wf(),
            prepared_from(prepared, self.served(), views(query@)),
            query@.len() == 0 ==> prepared.candidates@.len() == 0 && prepared.names@.len() == 0,
    {
        prepare(self.read(), query)
    }

    /// Puts `index` in the place of the index that was served, and hands
    /// that one back.
    pub fn replace(&mut self, index: Index) -> (previous: Index)
        requires
            index.wf(),
        ensures
            previous == old(self).served(),
            previous.wf(),
            final(self).served() == index,
    {
        proof {
            use_type_invariant(&*self);
        }
        let mut incoming: Index = index;
        core::mem::swap(&mut self.index, &mut incoming);
        incoming
    }
}

} // verus!
