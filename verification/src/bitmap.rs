//! The slot bitmap: one row of bits per resource dimension.
//!
//! A bit is `true` when the slot is busy.  On disk a row is a line of `0`
//! (free) and `1` (busy) characters whose length is the dimension's fixed
//! slot total.

use vstd::prelude::*;
use crate::chars::{str_to_chars, chars_to_string};

verus! {

/// The views of a vector of lines.
pub open spec fn str_views(lines: Seq<String>) -> Seq<Seq<char>> {
    Seq::new(lines.len(), |i: int| lines[i]@)
}

/// How many slots of a row are free.
pub open spec fn count_free(row: Seq<bool>) -> int
    decreases row.len(),
{
    if row.len() == 0 {
        0
    } else {
        count_free(row.drop_last()) + if !row.last() {
            1int
        } else {
            0int
        }
    }
}

pub proof fn lemma_count_free_le_len(row: Seq<bool>)
    ensures
        0 <= count_free(row) <= row.len(),
    decreases row.len(),
{
    if row.len() > 0 {
        lemma_count_free_le_len(row.drop_last());
    }
}

/// The total slots of each dimension: the row lengths.
pub fn get_nslots_total(avail: &Vec<Vec<bool>>) -> (r: Vec<usize>)
    ensures
        r@.len() == avail@.len(),
        forall|d: int| 0 <= d < avail@.len() ==> r@[d] == avail@[d]@.len(),
{
    let mut r: Vec<usize> = Vec::new();
    let mut d: usize = 0;
    while d < avail.len()
        invariant
            d <= avail@.len(),
            r@.len() == d,
            forall|k: int| 0 <= k < d ==> r@[k] == avail@[k]@.len(),
        decreases avail@.len() - d,
    {
        r.push(avail[d].len());
        d = d + 1;
    }
    r
}

/// The free slots of each dimension: the zero bits of each row.
pub fn get_nslots_free(avail: &Vec<Vec<bool>>) -> (r: Vec<usize>)
    ensures
        r@.len() == avail@.len(),
        forall|d: int| 0 <= d < avail@.len() ==> r@[d] == count_free(avail@[d]@),
{
    let mut r: Vec<usize> = Vec::new();
    let mut d: usize = 0;
    while d < avail.len()
        invariant
            d <= avail@.len(),
            r@.len() == d,
            forall|k: int| 0 <= k < d ==> r@[k] == count_free(avail@[k]@),
        decreases avail@.len() - d,
    {
        let row = &avail[d];
        let mut cnt: usize = 0;
        let mut i: usize = 0;
        while i < row.len()
            invariant
                i <= row@.len(),
                cnt == count_free(row@.take(i as int)),
                cnt <= i,
            decreases row@.len() - i,
        {
            assert(row@.take(i + 1).drop_last() =~= row@.take(i as int));
            if !row[i] {
                cnt = cnt + 1;
            }
            i = i + 1;
        }
        assert(row@.take(row@.len() as int) =~= row@);
        r.push(cnt);
        d = d + 1;
    }
    r
}

/// The busy slots of each dimension: total minus free.
pub fn get_nslots_used(avail: &Vec<Vec<bool>>) -> (r: Vec<usize>)
    ensures
        r@.len() == avail@.len(),
        forall|d: int|
            0 <= d < avail@.len() ==> r@[d] == avail@[d]@.len() - count_free(avail@[d]@),
{
    let total = get_nslots_total(avail);
    let free = get_nslots_free(avail);
    let mut r: Vec<usize> = Vec::new();
    let mut d: usize = 0;
    while d < total.len()
        invariant
            total@.len() == avail@.len(),
            free@.len() == avail@.len(),
            forall|k: int| 0 <= k < avail@.len() ==> total@[k] == avail@[k]@.len(),
            forall|k: int| 0 <= k < avail@.len() ==> free@[k] == count_free(avail@[k]@),
            d <= avail@.len(),
            r@.len() == d,
            forall|k: int|
                0 <= k < d ==> r@[k] == avail@[k]@.len() - count_free(avail@[k]@),
        decreases total@.len() - d,
    {
        proof {
            lemma_count_free_le_len(avail@[d as int]@);
        }
        r.push(total[d] - free[d]);
        d = d + 1;
    }
    r
}

/// The line that encodes a row: `1` for busy, `0` for free.
pub open spec fn enc_row(row: Seq<bool>) -> Seq<char> {
    Seq::new(row.len(), |i: int| if row[i] { '1' } else { '0' })
}

/// What a bitmap line parses to: every character must be `0` or `1`.
pub open spec fn parse_row_spec(s: Seq<char>) -> Option<Seq<bool>> {
    if forall|i: int| 0 <= i < s.len() ==> s[i] == '0' || s[i] == '1' {
        Some(Seq::new(s.len(), |i: int| s[i] == '1'))
    } else {
        None
    }
}

/// Round trip: an encoded row parses back to the same bits.
pub proof fn lemma_row_roundtrip(row: Seq<bool>)
    ensures
        parse_row_spec(enc_row(row)) == Some(row),
{
    let s = enc_row(row);
    assert(forall|i: int| 0 <= i < s.len() ==> s[i] == '0' || s[i] == '1');
    assert(Seq::new(s.len(), |i: int| s[i] == '1') =~= row);
}

/// Encodes the bitmap, one line per dimension.
pub fn encode_bitmap(avail: &Vec<Vec<bool>>) -> (r: Vec<String>)
    ensures
        r@.len() == avail@.len(),
        forall|d: int| 0 <= d < avail@.len() ==> r@[d]@ == enc_row(avail@[d]@),
{
    let mut r: Vec<String> = Vec::new();
    let mut d: usize = 0;
    while d < avail.len()
        invariant
            d <= avail@.len(),
            r@.len() == d,
            forall|k: int| 0 <= k < d ==> r@[k]@ == enc_row(avail@[k]@),
        decreases avail@.len() - d,
    {
        let row = &avail[d];
        let mut cs: Vec<char> = Vec::new();
        let mut i: usize = 0;
        while i < row.len()
            invariant
                i <= row@.len(),
                cs@.len() == i,
                forall|k: int| 0 <= k < i ==> cs@[k] == enc_row(row@)[k],
            decreases row@.len() - i,
        {
            if row[i] {
                cs.push('1');
            } else {
                cs.push('0');
            }
            i = i + 1;
        }
        assert(cs@ =~= enc_row(row@));
        r.push(chars_to_string(&cs));
        d = d + 1;
    }
    r
}

/// Parses the bitmap from its lines; `None` on any stray character.
pub fn parse_bitmap(lines: &Vec<String>) -> (r: Option<Vec<Vec<bool>>>)
    ensures
        match r {
            Some(b) => {
                &&& b@.len() == lines@.len()
                &&& forall|d: int|
                    0 <= d < lines@.len() ==> parse_row_spec(lines@[d]@) == Some(b@[d]@)
            },
            None => exists|d: int| 0 <= d < lines@.len() && parse_row_spec(#[trigger] lines@[d]@) is None,
        },
{
    let mut b: Vec<Vec<bool>> = Vec::new();
    let mut d: usize = 0;
    while d < lines.len()
        invariant
            d <= lines@.len(),
            b@.len() == d,
            forall|k: int| 0 <= k < d ==> parse_row_spec(lines@[k]@) == Some(b@[k]@),
        decreases lines@.len() - d,
    {
        let cs = str_to_chars(lines[d].as_str());
        let mut row: Vec<bool> = Vec::new();
        let mut i: usize = 0;
        while i < cs.len()
            invariant
                cs@ == lines@[d as int]@,
                d < lines@.len(),
                i <= cs@.len(),
                row@.len() == i,
                forall|k: int| 0 <= k < i ==> (cs@[k] == '0' || cs@[k] == '1'),
                forall|k: int| 0 <= k < i ==> row@[k] == (cs@[k] == '1'),
            decreases cs@.len() - i,
        {
            let c = cs[i];
            if c == '1' {
                row.push(true);
            } else if c == '0' {
                row.push(false);
            } else {
                assert(parse_row_spec(lines@[d as int]@) is None);
                return None;
            }
            i = i + 1;
        }
        assert(parse_row_spec(lines@[d as int]@) == Some(row@)) by {
            assert(Seq::new(cs@.len(), |k: int| cs@[k] == '1') =~= row@);
        }
        b.push(row);
        d = d + 1;
    }
    Some(b)
}

/// A fresh bitmap: every slot of every dimension free.
pub fn init_bitmap(totals: &Vec<usize>) -> (r: Vec<Vec<bool>>)
    ensures
        r@.len() == totals@.len(),
        forall|d: int| 0 <= d < totals@.len() ==> r@[d]@.len() == totals@[d],
        forall|d: int, i: int|
            0 <= d < totals@.len() && 0 <= i < totals@[d] ==> !(#[trigger] r@[d]@[i]),
{
    let mut r: Vec<Vec<bool>> = Vec::new();
    let mut d: usize = 0;
    while d < totals.len()
        invariant
            d <= totals@.len(),
            r@.len() == d,
            forall|k: int| 0 <= k < d ==> r@[k]@.len() == totals@[k],
            forall|k: int, i: int|
                0 <= k < d && 0 <= i < totals@[k] ==> !(#[trigger] r@[k]@[i]),
        decreases totals@.len() - d,
    {
        let n = totals[d];
        let mut row: Vec<bool> = Vec::new();
        let mut i: usize = 0;
        while i < n
            invariant
                i <= n,
                row@.len() == i,
                forall|k: int| 0 <= k < i ==> !(#[trigger] row@[k]),
            decreases n - i,
        {
            row.push(false);
            i = i + 1;
        }
        r.push(row);
        d = d + 1;
    }
    r
}

/// Whether the index list `a` holds the slot index `i`.
pub open spec fn mentions(a: Seq<usize>, i: int) -> bool {
    exists|k: int| 0 <= k < a.len() && a[k] == i
}

/// Clears the given slot indices: releasing a finished job's allocation.
/// Entries out of the bitmap's range are ignored, so a record from a
/// damaged file cannot fault here.
pub fn clear_slots(avail: &mut Vec<Vec<bool>>, alloc: &Vec<Vec<usize>>)
    ensures
        final(avail)@.len() == old(avail)@.len(),
        forall|d: int|
            0 <= d < old(avail)@.len() ==> (#[trigger] final(avail)@[d])@.len()
                == old(avail)@[d]@.len(),
        forall|d: int, i: int|
            0 <= d < old(avail)@.len() && 0 <= i < old(avail)@[d]@.len()
                ==> #[trigger] final(avail)@[d]@[i] == (old(avail)@[d]@[i] && !(d < alloc@.len()
                && mentions(alloc@[d]@, i))),
{
    let ghost orig = avail@;
    let mut d: usize = 0;
    while d < alloc.len()
        invariant
            d <= alloc@.len(),
            avail@.len() == orig.len(),
            forall|dd: int| 0 <= dd < orig.len() ==> (#[trigger] avail@[dd])@.len() == orig[dd]@.len(),
            forall|dd: int, i: int|
                0 <= dd < orig.len() && 0 <= i < orig[dd]@.len() ==> #[trigger] avail@[dd]@[i] == (
                orig[dd]@[i] && !(dd < d && dd < alloc@.len() && mentions(alloc@[dd]@, i))),
        decreases alloc@.len() - d,
    {
        if d < avail.len() {
            let mut k: usize = 0;
            while k < alloc[d].len()
                invariant
                    d < alloc@.len(),
                    d < orig.len(),
                    k <= alloc@[d as int]@.len(),
                    avail@.len() == orig.len(),
                    forall|dd: int|
                        0 <= dd < orig.len() ==> (#[trigger] avail@[dd])@.len()
                            == orig[dd]@.len(),
                    forall|dd: int, i: int|
                        0 <= dd < orig.len() && 0 <= i < orig[dd]@.len()
                            ==> #[trigger] avail@[dd]@[i] == (orig[dd]@[i] && !((dd < d && dd
                            < alloc@.len() && mentions(alloc@[dd]@, i)) || (dd == d && mentions(
                            alloc@[dd]@.take(k as int),
                            i,
                        )))),
                decreases alloc@[d as int]@.len() - k,
            {
                let s = alloc[d][k];
                if s < avail[d].len() {
                    avail[d][s] = false;
                }
                proof {
                    assert(alloc@[d as int]@.take(k + 1).drop_last() =~= alloc@[d as int]@.take(
                        k as int,
                    ));
                    assert forall|i: int|
                        0 <= i < orig[d as int]@.len() implies (#[trigger] mentions(
                        alloc@[d as int]@.take(k + 1),
                        i,
                    ) <==> (mentions(alloc@[d as int]@.take(k as int), i) || i == s)) by {
                        let t = alloc@[d as int]@.take(k + 1);
                        if mentions(t, i) {
                            let w = choose|w: int| 0 <= w < t.len() && t[w] == i;
                            if w < k {
                                assert(alloc@[d as int]@.take(k as int)[w] == i);
                            }
                        }
                        if mentions(alloc@[d as int]@.take(k as int), i) {
                            let w = choose|w: int|
                                0 <= w < k && alloc@[d as int]@.take(k as int)[w] == i;
                            assert(t[w] == i);
                        }
                        if i == s {
                            assert(t[k as int] == i);
                        }
                    }
                }
                k = k + 1;
            }
            proof {
                assert(alloc@[d as int]@.take(alloc@[d as int]@.len() as int) =~= alloc@[d as int]@);
            }
        } else {
            proof {
                assert(d >= orig.len());
            }
        }
        d = d + 1;
    }
}

/// Marks (or clears) the given slot indices, dimension by dimension: the
/// persisted form of committing or releasing an allocation.
pub fn set_slots(avail: &mut Vec<Vec<bool>>, alloc: &Vec<Vec<usize>>, busy: bool)
    requires
        alloc@.len() <= old(avail)@.len(),
        forall|d: int, k: int|
            0 <= d < alloc@.len() && 0 <= k < alloc@[d]@.len() ==> (#[trigger] alloc@[d]@[k])
                < old(avail)@[d]@.len(),
    ensures
        final(avail)@.len() == old(avail)@.len(),
        forall|d: int|
            0 <= d < old(avail)@.len() ==> (#[trigger] final(avail)@[d])@.len()
                == old(avail)@[d]@.len(),
        forall|d: int, i: int|
            0 <= d < old(avail)@.len() && 0 <= i < old(avail)@[d]@.len()
                ==> #[trigger] final(avail)@[d]@[i] == (if d < alloc@.len()
                && mentions(alloc@[d]@, i) {
                busy
            } else {
                old(avail)@[d]@[i]
            }),
{
    let ghost orig = avail@;
    let mut d: usize = 0;
    while d < alloc.len()
        invariant
            alloc@.len() <= orig.len(),
            forall|dd: int, k: int|
                0 <= dd < alloc@.len() && 0 <= k < alloc@[dd]@.len() ==> (#[trigger] alloc@[dd]@[k])
                    < orig[dd]@.len(),
            d <= alloc@.len(),
            avail@.len() == orig.len(),
            forall|dd: int| 0 <= dd < orig.len() ==> (#[trigger] avail@[dd])@.len() == orig[dd]@.len(),
            forall|dd: int, i: int|
                0 <= dd < orig.len() && 0 <= i < orig[dd]@.len() ==> #[trigger] avail@[dd]@[i] == (
                if dd < d && mentions(alloc@[dd]@, i) {
                    busy
                } else {
                    orig[dd]@[i]
                }),
        decreases alloc@.len() - d,
    {
        let mut k: usize = 0;
        while k < alloc[d].len()
            invariant
                alloc@.len() <= orig.len(),
                d < alloc@.len(),
                forall|dd: int, kk: int|
                    0 <= dd < alloc@.len() && 0 <= kk < alloc@[dd]@.len() ==> (
                    #[trigger] alloc@[dd]@[kk]) < orig[dd]@.len(),
                k <= alloc@[d as int]@.len(),
                avail@.len() == orig.len(),
                forall|dd: int|
                    0 <= dd < orig.len() ==> (#[trigger] avail@[dd])@.len() == orig[dd]@.len(),
                forall|dd: int, i: int|
                    0 <= dd < orig.len() && 0 <= i < orig[dd]@.len() ==> #[trigger] avail@[dd]@[i]
                        == (if dd < d && mentions(alloc@[dd]@, i) {
                        busy
                    } else if dd == d && mentions(alloc@[dd]@.take(k as int), i) {
                        busy
                    } else {
                        orig[dd]@[i]
                    }),
            decreases alloc@[d as int]@.len() - k,
        {
            let s = alloc[d][k];
            avail[d][s] = busy;
            proof {
                assert(alloc@[d as int]@.take(k + 1).drop_last() =~= alloc@[d as int]@.take(
                    k as int,
                ));
                assert forall|i: int|
                    0 <= i < orig[d as int]@.len() implies (#[trigger] mentions(
                    alloc@[d as int]@.take(k + 1),
                    i,
                ) <==> (mentions(alloc@[d as int]@.take(k as int), i) || i == s)) by {
                    let t = alloc@[d as int]@.take(k + 1);
                    if mentions(t, i) {
                        let w = choose|w: int| 0 <= w < t.len() && t[w] == i;
                        if w < k {
                            assert(alloc@[d as int]@.take(k as int)[w] == i);
                        }
                    }
                    if mentions(alloc@[d as int]@.take(k as int), i) {
                        let w = choose|w: int|
                            0 <= w < k && alloc@[d as int]@.take(k as int)[w] == i;
                        assert(t[w] == i);
                    }
                    if i == s {
                        assert(t[k as int] == i);
                    }
                }
            }
            k = k + 1;
        }
        proof {
            assert(alloc@[d as int]@.take(alloc@[d as int]@.len() as int) =~= alloc@[d as int]@);
        }
        d = d + 1;
    }
}

} // verus!
