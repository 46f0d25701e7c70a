//! Decimal formatting and parsing of slot counts, job ids and pids.
//!
//! `dec_of` is the canonical decimal numeral of a number and `dec_val` the
//! value of a digit string; `lemma_dec_roundtrip` ties them together, which
//! is what the record and bitmap codecs build their round-trip proofs on.

use vstd::prelude::*;
use vstd::arithmetic::div_mod::lemma_fundamental_div_mod;

verus! {

pub open spec fn is_digit_char(c: char) -> bool {
    c == '0' || c == '1' || c == '2' || c == '3' || c == '4' || c == '5' || c == '6' || c == '7'
        || c == '8' || c == '9'
}

pub open spec fn digit_of(d: int) -> char {
    if d == 0 {
        '0'
    } else if d == 1 {
        '1'
    } else if d == 2 {
        '2'
    } else if d == 3 {
        '3'
    } else if d == 4 {
        '4'
    } else if d == 5 {
        '5'
    } else if d == 6 {
        '6'
    } else if d == 7 {
        '7'
    } else if d == 8 {
        '8'
    } else {
        '9'
    }
}

pub open spec fn val_of_digit(c: char) -> int {
    if c == '0' {
        0
    } else if c == '1' {
        1
    } else if c == '2' {
        2
    } else if c == '3' {
        3
    } else if c == '4' {
        4
    } else if c == '5' {
        5
    } else if c == '6' {
        6
    } else if c == '7' {
        7
    } else if c == '8' {
        8
    } else {
        9
    }
}

/// The decimal numeral of `n`, most significant digit first, no leading zero
/// except for `n == 0` itself.
pub open spec fn dec_of(n: nat) -> Seq<char>
    decreases n,
{
    if n < 10 {
        seq![digit_of(n as int)]
    } else {
        dec_of(n / 10).push(digit_of((n % 10) as int))
    }
}

/// The value of a digit string, most significant digit first.
pub open spec fn dec_val(s: Seq<char>) -> int
    decreases s.len(),
{
    if s.len() == 0 {
        0
    } else {
        dec_val(s.drop_last()) * 10 + val_of_digit(s.last())
    }
}

/// A non-empty string of decimal digits.
pub open spec fn is_dec_seq(s: Seq<char>) -> bool {
    s.len() > 0 && forall|i: int| 0 <= i < s.len() ==> is_digit_char(s[i])
}

pub proof fn lemma_dec_val_nonneg(s: Seq<char>)
    ensures
        dec_val(s) >= 0,
    decreases s.len(),
{
    if s.len() > 0 {
        lemma_dec_val_nonneg(s.drop_last());
    }
}

/// Appending characters never lowers the value of a digit string.
pub proof fn lemma_dec_val_extend(s: Seq<char>, t: Seq<char>)
    ensures
        dec_val(s + t) >= dec_val(s),
    decreases t.len(),
{
    if t.len() == 0 {
        assert(s + t =~= s);
    } else {
        lemma_dec_val_extend(s, t.drop_last());
        assert((s + t).drop_last() =~= s + t.drop_last());
        lemma_dec_val_nonneg(s + t.drop_last());
    }
}

pub proof fn lemma_dec_of_digits(n: nat)
    ensures
        is_dec_seq(dec_of(n)),
    decreases n,
{
    if n >= 10 {
        lemma_dec_of_digits(n / 10);
    }
}

/// Reading back the decimal numeral of `n` yields `n`.
pub proof fn lemma_dec_roundtrip(n: nat)
    ensures
        is_dec_seq(dec_of(n)),
        dec_val(dec_of(n)) == n,
    decreases n,
{
    lemma_dec_of_digits(n);
    if n < 10 {
        let s = dec_of(n);
        assert(s == seq![digit_of(n as int)]);
        assert(s.len() == 1);
        assert(s.drop_last() =~= Seq::<char>::empty());
        assert(dec_val(s.drop_last()) == 0);
        assert(s.last() == digit_of(n as int));
        assert(dec_val(s) == dec_val(s.drop_last()) * 10 + val_of_digit(s.last()));
        assert(val_of_digit(digit_of(n as int)) == n);
    } else {
        lemma_dec_roundtrip(n / 10);
        let s = dec_of(n);
        let d = digit_of((n % 10) as int);
        assert(s == dec_of(n / 10).push(d));
        assert(s.drop_last() =~= dec_of(n / 10));
        assert(s.last() == d);
        assert(s.len() > 0);
        assert(dec_val(s) == dec_val(s.drop_last()) * 10 + val_of_digit(s.last()));
        assert(val_of_digit(d) == n % 10);
        lemma_fundamental_div_mod(n as int, 10);
        assert(dec_val(s) == (n / 10) * 10 + (n % 10));
    }
}

fn digit_char_of(d: usize) -> (c: char)
    requires
        d < 10,
    ensures
        c == digit_of(d as int),
{
    match d {
        0 => '0',
        1 => '1',
        2 => '2',
        3 => '3',
        4 => '4',
        5 => '5',
        6 => '6',
        7 => '7',
        8 => '8',
        _ => '9',
    }
}

fn digit_val_of(c: char) -> (r: Option<usize>)
    ensures
        match r {
            Some(d) => is_digit_char(c) && d == val_of_digit(c),
            None => !is_digit_char(c),
        },
{
    match c {
        '0' => Some(0),
        '1' => Some(1),
        '2' => Some(2),
        '3' => Some(3),
        '4' => Some(4),
        '5' => Some(5),
        '6' => Some(6),
        '7' => Some(7),
        '8' => Some(8),
        '9' => Some(9),
        _ => None,
    }
}

/// The decimal numeral of `n` as characters.
pub fn fmt_usize(n: usize) -> (r: Vec<char>)
    ensures
        r@ == dec_of(n as nat),
    decreases n,
{
    if n < 10 {
        let mut v: Vec<char> = Vec::new();
        v.push(digit_char_of(n));
        assert(v@ =~= dec_of(n as nat));
        v
    } else {
        let mut v = fmt_usize(n / 10);
        v.push(digit_char_of(n % 10));
        v
    }
}

/// Parses a non-empty digit string; `None` on any other character or when
/// the value does not fit in `usize`.
pub fn parse_usize_chars(s: &Vec<char>) -> (r: Option<usize>)
    ensures
        match r {
            Some(v) => is_dec_seq(s@) && v == dec_val(s@),
            None => !is_dec_seq(s@) || dec_val(s@) > usize::MAX,
        },
{
    if s.len() == 0 {
        return None;
    }
    let mut acc: usize = 0;
    let mut i: usize = 0;
    while i < s.len()
        invariant
            0 < s@.len(),
            i <= s@.len(),
            forall|k: int| 0 <= k < i ==> is_digit_char(s@[k]),
            acc == dec_val(s@.take(i as int)),
        decreases s@.len() - i,
    {
        let ghost prefix = s@.take(i as int);
        let c = s[i];
        let d = match digit_val_of(c) {
            Some(d) => d,
            None => {
                return None;
            },
        };
        assert(s@.take(i + 1).drop_last() =~= prefix);
        let shifted = match acc.checked_mul(10) {
            Some(t) => t,
            None => {
                proof {
                    lemma_dec_val_extend(s@.take(i + 1), s@.skip(i + 1));
                    assert(s@.take(i + 1) + s@.skip(i + 1) =~= s@);
                }
                return None;
            },
        };
        let next = match shifted.checked_add(d) {
            Some(t) => t,
            None => {
                proof {
                    lemma_dec_val_extend(s@.take(i + 1), s@.skip(i + 1));
                    assert(s@.take(i + 1) + s@.skip(i + 1) =~= s@);
                }
                return None;
            },
        };
        acc = next;
        i = i + 1;
    }
    assert(s@.take(s@.len() as int) =~= s@);
    Some(acc)
}

} // verus!
