//! Putting an index together from stored parts, which are held to the
//! invariant before anything is answered from them.

use crate::index::{
    lemma_length_sum_bound, length_sum, postings_wf, slots_wf, terms_wf, Index, Posting, TermData,
};
use vstd::hash_map::StringHashMap;
use vstd::prelude::*;

verus! {

/// The parts can be the documents, terms and lengths of an index.
pub open spec fn parts_wf(documents: Seq<String>, terms: Seq<TermData>, doc_length: Seq<u32>) -> bool {
    &&& documents.len() == doc_length.len()
    &&& documents.len() <= u32::MAX
    &&& terms_wf(terms, documents.len() as int)
}

/// Taking an index apart and putting it together again gives the index
/// back: its parts are always accepted, and whatever is made of them has
/// the same documents, terms, lengths, total and slots.
pub proof fn lemma_round_trip(index: Index, again: Option<Index>)
    requires
        index.wf(),
        match again {
            Some(made) => {
                &&& made.wf()
                &&& made.documents == index.documents
                &&& made.terms == index.terms
                &&& made.doc_length == index.doc_length
            },
            None => !parts_wf(index.documents@, index.terms@, index.doc_length@),
        },
    ensures
        again is Some,
        again.unwrap().documents == index.documents,
        again.unwrap().terms == index.terms,
        again.unwrap().doc_length == index.doc_length,
        again.unwrap().total_length == index.total_length,
        again.unwrap().slots@ == index.slots@,
{
    let made = again.unwrap();
    assert forall|t: Seq<char>| made.slots@.contains_key(t) <==> index.slots@.contains_key(t) by {
        if made.slots@.contains_key(t) {
            assert(index.terms@[made.slots@[t] as int].term@ == t);
        }
        if index.slots@.contains_key(t) {
            assert(made.terms@[index.slots@[t] as int].term@ == t);
        }
    }
    assert(made.slots@ =~= index.slots@);
}

/// Whether a postings list is well formed over `n` documents.
pub fn check_postings(postings: &Vec<Posting>, n: usize) -> (ok: bool)
    ensures
        ok == postings_wf(postings@, n as int),
{
    if postings.len() == 0 {
        return false;
    }
    let mut j: usize = 0;
    while j < postings.len()
        invariant
            j <= postings.len(),
            forall|q: int| 0 <= q < j ==> 0 < (#[trigger] postings@[q]).freq && postings@[q].doc < n,
            forall|a: int, b: int|
                0 <= a < b < j ==> (#[trigger] postings@[a]).doc < (#[trigger] postings@[b]).doc,
        decreases postings.len() - j,
    {
        let p: Posting = postings[j];
        if p.freq == 0 || p.doc as usize >= n {
            return false;
        }
        if j > 0 {
            if postings[j - 1].doc >= p.doc {
                proof {
                    assert(!(postings@[j - 1].doc < postings@[j as int].doc));
                }
                return false;
            }
            proof {
                assert forall|a: int, b: int| 0 <= a < b < j + 1 implies (
                #[trigger] postings@[a]).doc < (#[trigger] postings@[b]).doc by {
                    if b == j && a < j - 1 {
                        assert(postings@[a].doc < postings@[j - 1].doc);
                    }
                }
            }
        }
        j = j + 1;
    }
    true
}

/// The sum of the lengths of at most 2^32 - 1 documents.
pub fn sum_lengths(doc_length: &Vec<u32>) -> (total: u64)
    requires
        doc_length@.len() <= u32::MAX,
    ensures
        total == length_sum(doc_length@),
{
    let mut total: u64 = 0;
    let mut i: usize = 0;
    proof {
        assert(doc_length@.take(0) == Seq::<u32>::empty());
    }
    while i < doc_length.len()
        invariant
            i <= doc_length@.len() <= u32::MAX,
            total == length_sum(doc_length@.take(i as int)),
        decreases doc_length.len() - i,
    {
        proof {
            assert(doc_length@.take(i + 1).drop_last() == doc_length@.take(i as int));
            lemma_length_sum_bound(doc_length@.take(i as int));
            assert(i * 0xffff_ffff + 0xffff_ffff <= u64::MAX) by (nonlinear_arith)
                requires
                    i < 0xffff_ffff,
            ;
        }
        total = total + doc_length[i] as u64;
        i = i + 1;
    }
    proof {
        assert(doc_length@.take(doc_length@.len() as int) == doc_length@);
    }
    total
}

impl Index {
    /// The index with these documents, terms and lengths, if they can be
    /// those of an index: one length for each document, no term twice, and
    /// every postings list not empty, without a zero frequency, ascending,
    /// and within the documents. Parts that fail any of this give nothing.
    pub fn from_parts(documents: Vec<String>, terms: Vec<TermData>, doc_length: Vec<u32>) -> (result:
        Option<Index>)
        ensures
            match result {
                Some(index) => {
                    &&& index.wf()
                    &&& index.documents == documents
                    &&& index.terms == terms
                    &&& index.doc_length == doc_length
                },
                None => !parts_wf(documents@, terms@, doc_length@),
            },
    {
        let n: usize = documents.len();
        if n != doc_length.len() || n > 0xffff_ffff {
            return None;
        }
        let total_length: u64 = sum_lengths(&doc_length);
        let mut slots: StringHashMap<usize> = StringHashMap::new();
        let mut i: usize = 0;
        while i < terms.len()
            invariant
                i <= terms.len(),
                n == documents@.len(),
                slots_wf(slots@, terms@.take(i as int)),
                terms_wf(terms@.take(i as int), n as int),
            decreases terms.len() - i,
        {
            let ghost seen = terms@.take(i as int);
            let ghost mapped = slots@;
            match slots.get(terms[i].term.as_str()) {
                Some(k) => {
                    proof {
                        assert(seen[*k as int].term@ == terms@[i as int].term@);
                        assert(terms@[*k as int].term@ == terms@[i as int].term@);
                    }
                    return None;
                },
                None => {},
            }
            if !check_postings(&terms[i].postings, n) {
                return None;
            }
            slots.insert(terms[i].term.clone(), i);
            proof {
                let now = terms@.take(i + 1);
                let t = terms@[i as int].term@;
                assert forall|k: int| 0 <= k < now.len() implies slots@.contains_key(
                    (#[trigger] now[k]).term@,
                ) && slots@[now[k].term@] == k by {
                    if k < i {
                        assert(now[k] == seen[k]);
                        assert(mapped.contains_key(seen[k].term@));
                    }
                }
                assert forall|u: Seq<char>| #[trigger] slots@.contains_key(u) implies slots@[u]
                    < now.len() && now[slots@[u] as int].term@ == u by {
                    if u != t {
                        assert(mapped.contains_key(u));
                        assert(now[mapped[u] as int] == seen[mapped[u] as int]);
                    }
                }
                assert forall|a: int, b: int| 0 <= a < b < now.len() implies (
                #[trigger] now[a]).term@ != (#[trigger] now[b]).term@ by {
                    assert(now[a] == seen[a]);
                    if b < i {
                        assert(now[b] == seen[b]);
                    } else {
                        assert(mapped.contains_key(seen[a].term@));
                    }
                }
                assert forall|k: int| 0 <= k < now.len() implies postings_wf(
                    (#[trigger] now[k]).postings@,
                    n as int,
                ) by {
                    if k < i {
                        assert(now[k] == seen[k]);
                    }
                }
            }
            i = i + 1;
        }
        proof {
            assert(terms@.take(terms@.len() as int) == terms@);
        }
        Some(Index { documents, terms, slots, doc_length, total_length })
    }
}

} // verus!
