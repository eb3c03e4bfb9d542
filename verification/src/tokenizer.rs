//! Splitting raw path strings into terms.

use vstd::prelude::*;
use vstd::string::*;

verus! {

/// The delimiter between the terms of a raw item.
pub open spec fn is_delimiter(c: char) -> bool {
    c == '/'
}

/// The terms of one raw item: the maximal delimiter-free pieces of `s`, in
/// order. An empty piece before, after or between delimiters is a term too,
/// so a string with `k` delimiters always has `k + 1` terms.
pub open spec fn split_spec(s: Seq<char>) -> Seq<Seq<char>>
    decreases s.len(),
{
    if s.len() == 0 {
        seq![Seq::<char>::empty()]
    } else {
        let before = split_spec(s.drop_last());
        if is_delimiter(s.last()) {
            before.push(Seq::<char>::empty())
        } else {
            before.drop_last().push(before.last().push(s.last()))
        }
    }
}

/// The term sequence of a document: the terms of its raw items, item after
/// item.
pub open spec fn tokens_spec(items: Seq<Seq<char>>) -> Seq<Seq<char>>
    decreases items.len(),
{
    if items.len() == 0 {
        Seq::<Seq<char>>::empty()
    } else {
        tokens_spec(items.drop_last()) + split_spec(items.last())
    }
}

/// The views of a vector of strings.
pub open spec fn views(v: Seq<String>) -> Seq<Seq<char>> {
    Seq::new(v.len(), |i: int| v[i]@)
}

/// The number of delimiters in `s`.
pub open spec fn delimiter_count(s: Seq<char>) -> nat
    decreases s.len(),
{
    if s.len() == 0 {
        0
    } else {
        delimiter_count(s.drop_last()) + if is_delimiter(s.last()) {
            1nat
        } else {
            0nat
        }
    }
}

/// A raw item always has one term more than it has delimiters; in particular
/// it has at least one term, and an item without a delimiter is its own
/// single term.
pub proof fn lemma_split_len(s: Seq<char>)
    ensures
        split_spec(s).len() == delimiter_count(s) + 1,
        delimiter_count(s) == 0 ==> split_spec(s) == seq![s],
        forall|k: int| 0 <= k < split_spec(s).len() ==> #[trigger] split_spec(s)[k].len() <= s.len(),
    decreases s.len(),
{
    if s.len() > 0 {
        lemma_split_len(s.drop_last());
        if delimiter_count(s) == 0 {
            assert(split_spec(s.drop_last()) == seq![s.drop_last()]);
            assert(s.drop_last().push(s.last()) == s);
            assert(split_spec(s) == seq![s]);
        }
    } else {
        assert(s == Seq::<char>::empty());
    }
}

/// No term holds a delimiter.
pub proof fn lemma_split_terms_plain(s: Seq<char>)
    ensures
        forall|k: int, i: int|
            0 <= k < split_spec(s).len() && 0 <= i < split_spec(s)[k].len() ==> !is_delimiter(
                #[trigger] split_spec(s)[k][i],
            ),
    decreases s.len(),
{
    if s.len() > 0 {
        lemma_split_terms_plain(s.drop_last());
        lemma_split_len(s.drop_last());
    }
}

/// The terms put together again, with one delimiter between neighbours.
pub open spec fn joined(terms: Seq<Seq<char>>) -> Seq<char>
    decreases terms.len(),
{
    if terms.len() == 0 {
        Seq::<char>::empty()
    } else if terms.len() == 1 {
        terms[0]
    } else {
        joined(terms.drop_last()) + seq!['/'] + terms.last()
    }
}

/// Splitting loses nothing: the terms of an item, put together again with
/// the delimiter between them, are the item.
pub proof fn lemma_split_joined(s: Seq<char>)
    ensures
        joined(split_spec(s)) == s,
    decreases s.len(),
{
    if s.len() == 0 {
        assert(split_spec(s)[0] =~= s);
    } else {
        let before = split_spec(s.drop_last());
        let c = s.last();
        lemma_split_joined(s.drop_last());
        lemma_split_len(s.drop_last());
        assert(s =~= s.drop_last().push(c));
        if is_delimiter(c) {
            let now = before.push(Seq::<char>::empty());
            assert(now.drop_last() =~= before);
            assert(joined(now) =~= joined(before) + seq!['/']);
        } else {
            let now = before.drop_last().push(before.last().push(c));
            assert(now.drop_last() =~= before.drop_last());
            if before.len() == 1 {
                assert(joined(now) =~= before[0].push(c));
            } else {
                assert(joined(now) =~= joined(before.drop_last()) + seq!['/'] + before.last().push(
                    c,
                ));
                assert(joined(before) =~= joined(before.drop_last()) + seq!['/'] + before.last());
            }
        }
    }
}

/// Splits one raw item at each delimiter.
pub fn split_path(item: &str) -> (terms: Vec<String>)
    ensures
        views(terms@) == split_spec(item@),
{
    if item.is_ascii() {
        split_ascii(item)
    } else {
        split_chars(item)
    }
}

/// Splits an item of one-byte characters, byte by byte.
fn split_ascii(item: &str) -> (terms: Vec<String>)
    requires
        is_ascii(item),
    ensures
        views(terms@) == split_spec(item@),
{
    let n: usize = item.unicode_len();
    let mut terms: Vec<String> = Vec::new();
    let mut start: usize = 0;
    let mut i: usize = 0;
    proof {
        assert(item@.take(0) == Seq::<char>::empty());
        assert(item@.subrange(0, 0) == Seq::<char>::empty());
        assert(views(terms@).push(item@.subrange(0, 0)) == split_spec(item@.take(0)));
    }
    while i < n
        invariant
            is_ascii(item),
            n == item@.len(),
            start <= i <= n,
            views(terms@).push(item@.subrange(start as int, i as int)) == split_spec(
                item@.take(i as int),
            ),
        decreases n - i,
    {
        let byte: u8 = item.get_ascii(i);
        let ghost c = item@[i as int];
        let ghost before = views(terms@);
        proof {
            assert('\0' <= c <= '\u{7f}');
            assert((byte == 47) <==> c == '/');
            assert(item@.take(i + 1).drop_last() == item@.take(i as int));
            assert(item@.take(i + 1).last() == c);
        }
        if byte == 47 {
            let piece: String = String::from_str(item.substring_ascii(start, i));
            terms.push(piece);
            start = i + 1;
            proof {
                assert(views(terms@) == before.push(piece@));
                assert(item@.subrange(start as int, i + 1) == Seq::<char>::empty());
            }
        } else {
            proof {
                let cur = item@.subrange(start as int, i as int);
                assert(before.push(cur).drop_last() == before);
                assert(before.push(cur).last() == cur);
                assert(cur.push(c) == item@.subrange(start as int, i + 1));
            }
        }
        i = i + 1;
    }
    let piece: String = String::from_str(item.substring_ascii(start, n));
    let ghost before = views(terms@);
    terms.push(piece);
    proof {
        assert(item@.take(n as int) == item@);
        assert(views(terms@) == before.push(piece@));
    }
    terms
}

/// Splits an item character by character.
fn split_chars(item: &str) -> (terms: Vec<String>)
    ensures
        views(terms@) == split_spec(item@),
{
    let n: usize = item.unicode_len();
    let mut terms: Vec<String> = Vec::new();
    let mut start: usize = 0;
    let mut i: usize = 0;
    proof {
        assert(item@.take(0) == Seq::<char>::empty());
        assert(item@.subrange(0, 0) == Seq::<char>::empty());
        assert(views(terms@).push(item@.subrange(0, 0)) == split_spec(item@.take(0)));
    }
    while i < n
        invariant
            n == item@.len(),
            start <= i <= n,
            views(terms@).push(item@.subrange(start as int, i as int)) == split_spec(
                item@.take(i as int),
            ),
        decreases n - i,
    {
        let c: char = item.get_char(i);
        let ghost before = views(terms@);
        proof {
            assert(item@.take(i + 1).drop_last() == item@.take(i as int));
            assert(item@.take(i + 1).last() == c);
        }
        if c == '/' {
            let piece: String = String::from_str(item.substring_char(start, i));
            terms.push(piece);
            start = i + 1;
            proof {
                assert(views(terms@) == before.push(piece@));
                assert(item@.subrange(start as int, i + 1) == Seq::<char>::empty());
            }
        } else {
            proof {
                let cur = item@.subrange(start as int, i as int);
                assert(before.push(cur).drop_last() == before);
                assert(before.push(cur).last() == cur);
                assert(cur.push(c) == item@.subrange(start as int, i + 1));
            }
        }
        i = i + 1;
    }
    let piece: String = String::from_str(item.substring_char(start, n));
    let ghost before = views(terms@);
    terms.push(piece);
    proof {
        assert(item@.take(n as int) == item@);
        assert(views(terms@) == before.push(piece@));
    }
    terms
}

/// The term sequence of a document with the raw items `items`.
pub fn tokenize(items: &Vec<String>) -> (terms: Vec<String>)
    ensures
        views(terms@) == tokens_spec(views(items@)),
{
    let mut terms: Vec<String> = Vec::new();
    let mut i: usize = 0;
    proof {
        assert(views(items@).take(0) == Seq::<Seq<char>>::empty());
        assert(views(terms@) == Seq::<Seq<char>>::empty());
    }
    while i < items.len()
        invariant
            i <= items.len(),
            views(terms@) == tokens_spec(views(items@).take(i as int)),
        decreases items.len() - i,
    {
        let mut pieces: Vec<String> = split_path(items[i].as_str());
        let ghost before = terms@;
        let ghost added = pieces@;
        terms.append(&mut pieces);
        proof {
            assert(views(items@).take(i + 1).drop_last() == views(items@).take(i as int));
            assert(views(items@).take(i + 1).last() == items@[i as int]@);
            assert(views(before + added) == views(before) + views(added));
        }
        i = i + 1;
    }
    proof {
        assert(views(items@).take(items.len() as int) == views(items@));
    }
    terms
}

} // verus!
