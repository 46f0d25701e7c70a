//! Lists of numbers joined by a separator.
//!
//! Resource requests are comma-joined, dependency ids space-joined, and the
//! per-dimension assigned-slot lists semicolon-joined.  An empty list is the
//! empty string, never a lone empty piece.

use vstd::prelude::*;
use crate::numfmt::{dec_of, dec_val, is_dec_seq, is_digit_char, lemma_dec_roundtrip};
use crate::numfmt::{fmt_usize, parse_usize_chars};
use crate::text::{join_with, split_on, views_of, join_chars, split_chars, lemma_split_join};

verus! {

/// The decimal numerals of the numbers in `ns`.
pub open spec fn numerals_of(ns: Seq<usize>) -> Seq<Seq<char>> {
    Seq::new(ns.len(), |i: int| dec_of(ns[i] as nat))
}

/// The encoding of `ns`: numerals joined by `sep`, the empty string for an
/// empty list.
pub open spec fn enc_list(ns: Seq<usize>, sep: char) -> Seq<char> {
    if ns.len() == 0 {
        Seq::<char>::empty()
    } else {
        join_with(numerals_of(ns), sep)
    }
}

/// What a list field parses to: the empty string is the empty list, anything
/// else must be `sep`-joined numerals, each fitting in `usize`.
pub open spec fn parse_list_spec(s: Seq<char>, sep: char) -> Option<Seq<usize>> {
    if s.len() == 0 {
        Some(Seq::<usize>::empty())
    } else {
        let pieces = split_on(s, sep);
        if forall|i: int|
            0 <= i < pieces.len() ==> is_dec_seq(#[trigger] pieces[i]) && dec_val(pieces[i])
                <= usize::MAX {
            Some(Seq::new(pieces.len(), |i: int| dec_val(pieces[i]) as usize))
        } else {
            None
        }
    }
}

/// A numeral never holds a non-digit separator.
pub proof fn lemma_dec_seq_no_sep(s: Seq<char>, sep: char)
    requires
        is_dec_seq(s),
        !is_digit_char(sep),
    ensures
        !s.contains(sep),
{
    assert(forall|i: int| 0 <= i < s.len() ==> s[i] != sep);
}

/// A list encoding holds nothing but digits and its separator.
pub proof fn lemma_enc_list_no_char(ns: Seq<usize>, sep: char, c: char)
    requires
        !is_digit_char(c),
        c != sep,
    ensures
        !enc_list(ns, sep).contains(c),
{
    if ns.len() == 0 {
        assert(!enc_list(ns, sep).contains(c)) by {
            if enc_list(ns, sep).contains(c) {
                let w = choose|w: int| 0 <= w < enc_list(ns, sep).len() && enc_list(ns, sep)[w] == c;
            }
        }
    } else {
        let strs = numerals_of(ns);
        assert forall|i: int| 0 <= i < strs.len() implies !(#[trigger] strs[i]).contains(c) by {
            lemma_dec_roundtrip(ns[i] as nat);
            lemma_dec_seq_no_sep(strs[i], c);
        }
        crate::text::lemma_join_no_char(strs, sep, c);
    }
}

/// Round trip: a list encoding parses back to the same list.
pub proof fn lemma_list_roundtrip(ns: Seq<usize>, sep: char)
    requires
        !is_digit_char(sep),
    ensures
        parse_list_spec(enc_list(ns, sep), sep) == Some(ns),
{
    if ns.len() == 0 {
    } else {
        let strs = numerals_of(ns);
        assert forall|i: int| 0 <= i < strs.len() implies is_dec_seq(#[trigger] strs[i])
            && dec_val(strs[i]) == ns[i] && !strs[i].contains(sep) by {
            lemma_dec_roundtrip(ns[i] as nat);
            lemma_dec_seq_no_sep(strs[i], sep);
        }
        let s = enc_list(ns, sep);
        assert(s.len() > 0) by {
            if strs.len() == 1 {
                assert(s == strs[0]);
            } else {
                assert(s == join_with(strs.drop_last(), sep) + seq![sep] + strs.last());
            }
        }
        lemma_split_join(strs, sep);
        let pieces = split_on(s, sep);
        assert(pieces == strs);
        assert(parse_list_spec(s, sep) == Some(Seq::new(pieces.len(), |i: int| dec_val(
            pieces[i],
        ) as usize)));
        assert(Seq::new(pieces.len(), |i: int| dec_val(pieces[i]) as usize) =~= ns);
    }
}

/// Encodes `ns` as `sep`-joined decimal numerals.
pub fn encode_list(ns: &Vec<usize>, sep: char) -> (r: Vec<char>)
    ensures
        r@ == enc_list(ns@, sep),
{
    if ns.len() == 0 {
        let r: Vec<char> = Vec::new();
        assert(r@ =~= enc_list(ns@, sep));
        return r;
    }
    let mut strs: Vec<Vec<char>> = Vec::new();
    let mut i: usize = 0;
    while i < ns.len()
        invariant
            i <= ns@.len(),
            strs@.len() == i,
            forall|k: int| 0 <= k < i ==> strs@[k]@ == dec_of(ns@[k] as nat),
        decreases ns@.len() - i,
    {
        strs.push(fmt_usize(ns[i]));
        i = i + 1;
    }
    assert(views_of(strs@) =~= numerals_of(ns@));
    join_chars(&strs, sep)
}

/// Parses a `sep`-joined list of decimal numerals; the empty string is the
/// empty list.
pub fn parse_list(v: &Vec<char>, sep: char) -> (r: Option<Vec<usize>>)
    ensures
        match r {
            Some(ns) => parse_list_spec(v@, sep) == Some(ns@),
            None => parse_list_spec(v@, sep) is None,
        },
{
    if v.len() == 0 {
        let ns: Vec<usize> = Vec::new();
        assert(ns@ =~= Seq::<usize>::empty());
        return Some(ns);
    }
    let pieces = split_chars(v, sep);
    let ghost piecesv = split_on(v@, sep);
    let mut ns: Vec<usize> = Vec::new();
    let mut i: usize = 0;
    while i < pieces.len()
        invariant
            v@.len() > 0,
            i <= pieces@.len(),
            views_of(pieces@) == piecesv,
            piecesv == split_on(v@, sep),
            ns@.len() == i,
            forall|k: int|
                0 <= k < i ==> is_dec_seq(#[trigger] piecesv[k]) && dec_val(piecesv[k])
                    <= usize::MAX && ns@[k] == dec_val(piecesv[k]),
        decreases pieces@.len() - i,
    {
        assert(pieces@[i as int]@ == piecesv[i as int]);
        match parse_usize_chars(&pieces[i]) {
            Some(n) => {
                ns.push(n);
            },
            None => {
                assert(parse_list_spec(v@, sep) is None) by {
                    if forall|k: int|
                        0 <= k < piecesv.len() ==> is_dec_seq(#[trigger] piecesv[k]) && dec_val(
                            piecesv[k],
                        ) <= usize::MAX {
                        assert(is_dec_seq(piecesv[i as int]) && dec_val(piecesv[i as int])
                            <= usize::MAX);
                    }
                }
                return None;
            },
        }
        i = i + 1;
    }
    assert(ns@ =~= Seq::new(piecesv.len(), |k: int| dec_val(piecesv[k]) as usize));
    Some(ns)
}

} // verus!
