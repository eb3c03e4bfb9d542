//! The statistics of a built index, as exact fractions of integers.

use crate::index::{
    find_term, lemma_postings_bound, length_sum, postings_wf, BuildError, Index, Posting, TermData,
};
use vstd::prelude::*;

verus! {

/// The fraction `num / den`.
#[derive(Clone, Copy, Debug)]
pub struct Ratio {
    pub num: u64,
    pub den: u64,
}

/// The slot of term `t` in the table, if it has one.
pub open spec fn slot_of(terms: Seq<TermData>, t: Seq<char>) -> Option<int> {
    if exists|i: int| 0 <= i < terms.len() && (#[trigger] terms[i]).term@ == t {
        Some(choose|i: int| 0 <= i < terms.len() && (#[trigger] terms[i]).term@ == t)
    } else {
        None
    }
}

/// The postings of term `t`; none where the table does not hold it.
pub open spec fn postings_of(terms: Seq<TermData>, t: Seq<char>) -> Seq<Posting> {
    match slot_of(terms, t) {
        Some(i) => terms[i].postings@,
        None => Seq::<Posting>::empty(),
    }
}

/// The number of documents that hold term `t`.
pub open spec fn document_frequency(terms: Seq<TermData>, t: Seq<char>) -> nat {
    postings_of(terms, t).len()
}

/// Twice the numerator of `(n - nq + 1/2) / (nq + 1/2) + 1` over the common
/// denominator `nq + 1/2`.
pub open spec fn idf_numerator(n: int, nq: int) -> int {
    (2 * (n - nq) + 1) + (2 * nq + 1)
}

/// Twice `nq + 1/2`.
pub open spec fn idf_denominator(nq: int) -> int {
    2 * nq + 1
}

/// Where no term stands twice, the slot of a term is the one place where it
/// stands.
pub proof fn lemma_slot_of(terms: Seq<TermData>, n: int, i: int)
    requires
        crate::index::terms_wf(terms, n),
        0 <= i < terms.len(),
    ensures
        slot_of(terms, terms[i].term@) == Some(i),
{
    let t = terms[i].term@;
    let k = choose|k: int| 0 <= k < terms.len() && (#[trigger] terms[k]).term@ == t;
    if k < i {
        assert(terms[k].term@ != terms[i].term@);
    } else if i < k {
        assert(terms[i].term@ != terms[k].term@);
    }
}

/// The fraction whose natural logarithm is the inverse document frequency
/// of a term that `nq` of `n` documents hold. It is at least one, so the
/// logarithm is never negative.
pub fn idf_argument(n: u32, nq: u32) -> (r: Ratio)
    requires
        nq <= n,
    ensures
        r.num == idf_numerator(n as int, nq as int),
        r.den == idf_denominator(nq as int),
        0 < r.den <= r.num,
{
    let n64: u64 = n as u64;
    let nq64: u64 = nq as u64;
    Ratio { num: 2 * (n64 - nq64) + 1 + (2 * nq64 + 1), den: 2 * nq64 + 1 }
}

impl Index {
    /// The number of documents.
    pub fn document_count(&self) -> (n: u32)
        requires
            self.wf(),
        ensures
            n == self.documents@.len(),
    {
        self.documents.len() as u32
    }

    /// The number of documents that hold `term`: never more than there are
    /// documents, and zero for a term that the index does not know.
    pub fn document_frequency(&self, term: &String) -> (nq: u32)
        requires
            self.wf(),
        ensures
            nq == document_frequency(self.terms@, term@),
            nq <= self.documents@.len(),
    {
        match find_term(&self.terms, &self.slots, term) {
            Some(i) => {
                proof {
                    lemma_slot_of(self.terms@, self.documents@.len() as int, i as int);
                    lemma_postings_bound(
                        self.terms@[i as int].postings@,
                        self.documents@.len() as int,
                    );
                }
                self.terms[i].postings.len() as u32
            },
            None => 0,
        }
    }

    /// The argument of the logarithm in the inverse document frequency of
    /// `term`, which for every term is a fraction not below one.
    pub fn idf_argument_of(&self, term: &String) -> (r: Ratio)
        requires
            self.wf(),
        ensures
            r.num == idf_numerator(
                self.documents@.len() as int,
                document_frequency(self.terms@, term@) as int,
            ),
            r.den == idf_denominator(document_frequency(self.terms@, term@) as int),
            0 < r.den <= r.num,
    {
        idf_argument(self.document_count(), self.document_frequency(term))
    }

    /// The average document length as the fraction of the summed lengths
    /// over the number of documents. An index without documents has none.
    pub fn average_length(&self) -> (result: Result<Ratio, BuildError>)
        requires
            self.wf(),
        ensures
            match result {
                Ok(r) => {
                    &&& self.documents@.len() > 0
                    &&& r.num == length_sum(self.doc_length@)
                    &&& r.den == self.doc_length@.len()
                },
                Err(BuildError::DivisionByZero) => self.documents@.len() == 0,
                Err(BuildError::InputParse { .. }) => false,
            },
    {
        if self.documents.len() == 0 {
            Err(BuildError::DivisionByZero)
        } else {
            Ok(Ratio { num: self.total_length, den: self.documents.len() as u64 })
        }
    }
}

/// In a well-formed index no term is held by more documents than there are,
/// so the argument of every term's logarithm is a fraction of positive
/// integers that is at least one.
pub proof fn lemma_idf_argument_at_least_one(index: Index, t: Seq<char>)
    requires
        index.wf(),
    ensures
        document_frequency(index.terms@, t) <= index.documents@.len(),
        0 < idf_denominator(document_frequency(index.terms@, t) as int) <= idf_numerator(
            index.documents@.len() as int,
            document_frequency(index.terms@, t) as int,
        ),
{
    match slot_of(index.terms@, t) {
        Some(i) => {
            assert(postings_wf(index.terms@[i].postings@, index.documents@.len() as int));
            lemma_postings_bound(index.terms@[i].postings@, index.documents@.len() as int);
        },
        None => {},
    }
}

} // verus!
