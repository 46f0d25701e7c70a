//! First-fit slot allocation.
//!
//! A request names how many slots it needs in each dimension.  An allocation
//! exists exactly when every dimension has enough free slots, and it is then
//! the lowest-indexed free slots of each dimension, in ascending order, with
//! no partial side effects on failure.

use vstd::prelude::*;
use crate::bitmap::{count_free, mentions};

verus! {

/// The free slot indices among the first `n` positions of `row`, ascending.
pub open spec fn free_up_to(row: Seq<bool>, n: int) -> Seq<usize>
    decreases n,
{
    if n <= 0 {
        Seq::<usize>::empty()
    } else {
        let p = free_up_to(row, n - 1);
        if !row[n - 1] {
            p.push((n - 1) as usize)
        } else {
            p
        }
    }
}

/// All free slot indices of `row`, ascending.
pub open spec fn free_indices(row: Seq<bool>) -> Seq<usize> {
    free_up_to(row, row.len() as int)
}

/// Whether `req` can be satisfied: one count per dimension, each within the
/// free capacity of its row.
pub open spec fn can_alloc(avail: Seq<Seq<bool>>, req: Seq<usize>) -> bool {
    req.len() == avail.len() && forall|d: int|
        0 <= d < req.len() ==> count_free(avail[d]) >= req[d]
}

/// The first-fit allocation: per dimension, the lowest `req[d]` free indices.
pub open spec fn spec_allocation(avail: Seq<Seq<bool>>, req: Seq<usize>) -> Seq<Seq<usize>> {
    Seq::new(req.len(), |d: int| free_indices(avail[d]).take(req[d] as int))
}

pub proof fn lemma_free_up_to_props(row: Seq<bool>, n: int)
    requires
        0 <= n <= row.len(),
        n <= usize::MAX,
    ensures
        free_up_to(row, n).len() == count_free(row.take(n)),
        forall|k: int|
            0 <= k < free_up_to(row, n).len() ==> 0 <= #[trigger] free_up_to(row, n)[k] < n && !row[
                free_up_to(row, n)[k] as int
            ],
        forall|a: int, b: int|
            0 <= a < b < free_up_to(row, n).len() ==> #[trigger] free_up_to(row, n)[a]
                < #[trigger] free_up_to(row, n)[b],
        forall|i: int| 0 <= i < n && !row[i] ==> mentions(free_up_to(row, n), i),
    decreases n,
{
    if n > 0 {
        lemma_free_up_to_props(row, n - 1);
        assert(row.take(n).drop_last() =~= row.take(n - 1));
        let p = free_up_to(row, n - 1);
        let f = free_up_to(row, n);
        if !row[n - 1] {
            assert(f == p.push((n - 1) as usize));
            assert forall|i: int| 0 <= i < n && !row[i] implies mentions(f, i) by {
                if i < n - 1 {
                    assert(mentions(p, i));
                    let w = choose|w: int| 0 <= w < p.len() && p[w] == i;
                    assert(f[w] == i);
                } else {
                    assert(f[f.len() - 1] == i);
                }
            }
        } else {
            assert(f == p);
            assert forall|i: int| 0 <= i < n && !row[i] implies mentions(f, i) by {
                assert(i != n - 1);
                assert(mentions(p, i));
            }
        }
    }
}

pub proof fn lemma_free_indices_props(row: Seq<bool>)
    requires
        row.len() <= usize::MAX,
    ensures
        free_indices(row).len() == count_free(row),
        forall|k: int|
            0 <= k < free_indices(row).len() ==> 0 <= #[trigger] free_indices(row)[k] < row.len()
                && !row[free_indices(row)[k] as int],
        forall|a: int, b: int|
            0 <= a < b < free_indices(row).len() ==> #[trigger] free_indices(row)[a]
                < #[trigger] free_indices(row)[b],
        forall|i: int| 0 <= i < row.len() && !row[i] ==> mentions(free_indices(row), i),
{
    lemma_free_up_to_props(row, row.len() as int);
    assert(row.take(row.len() as int) =~= row);
}

/// Shorter scans are prefixes of longer ones.
proof fn lemma_free_up_to_prefix(row: Seq<bool>, m: int, n: int)
    requires
        0 <= m <= n <= row.len(),
        n <= usize::MAX,
    ensures
        free_up_to(row, m).len() <= free_up_to(row, n).len(),
        free_up_to(row, m) == free_up_to(row, n).take(free_up_to(row, m).len() as int),
    decreases n - m,
{
    if m < n {
        lemma_free_up_to_prefix(row, m, n - 1);
        let l = free_up_to(row, m).len() as int;
        let p = free_up_to(row, n - 1);
        let f = free_up_to(row, n);
        if !row[n - 1] {
            assert(f == p.push((n - 1) as usize));
            assert forall|k: int| 0 <= k < l implies f.take(l)[k] == p.take(l)[k] by {
                assert(f[k] == p[k]);
            }
            assert(free_up_to(row, m) =~= f.take(l));
        }
    } else {
        assert(free_up_to(row, m) =~= free_up_to(row, n).take(free_up_to(row, m).len() as int));
    }
}

/// The shape of a first-fit allocation: per dimension exactly the requested
/// count of free, strictly ascending, in-range indices.
pub proof fn lemma_allocation_props(avail: Seq<Seq<bool>>, req: Seq<usize>)
    requires
        can_alloc(avail, req),
        forall|d: int| 0 <= d < avail.len() ==> (#[trigger] avail[d]).len() <= usize::MAX,
    ensures
        spec_allocation(avail, req).len() == req.len(),
        forall|d: int|
            0 <= d < req.len() ==> (#[trigger] spec_allocation(avail, req)[d]).len() == req[d],
        forall|d: int, k: int|
            0 <= d < req.len() && 0 <= k < req[d] ==> 0 <= (#[trigger] spec_allocation(
                avail,
                req,
            )[d][k]) < avail[d].len() && !avail[d][spec_allocation(avail, req)[d][k] as int],
        forall|d: int, a: int, b: int|
            0 <= d < req.len() && 0 <= a < b < req[d] ==> (#[trigger] spec_allocation(
                avail,
                req,
            )[d][a]) < (#[trigger] spec_allocation(avail, req)[d][b]),
{
    assert forall|d: int| 0 <= d < req.len() implies (#[trigger] spec_allocation(avail, req)[d]).len()
        == req[d] by {
        lemma_free_indices_props(avail[d]);
    }
    assert forall|d: int, k: int|
        0 <= d < req.len() && 0 <= k < req[d] implies 0 <= (#[trigger] spec_allocation(
        avail,
        req,
    )[d][k]) < avail[d].len() && !avail[d][spec_allocation(avail, req)[d][k] as int] by {
        lemma_free_indices_props(avail[d]);
    }
    assert forall|d: int, a: int, b: int|
        0 <= d < req.len() && 0 <= a < b < req[d] implies (#[trigger] spec_allocation(
        avail,
        req,
    )[d][a]) < (#[trigger] spec_allocation(avail, req)[d][b]) by {
        lemma_free_indices_props(avail[d]);
    }
}

/// Searches each dimension for the lowest free slots; `Some` exactly when
/// every dimension has enough capacity, and then the first-fit choice.
pub fn find_allocation(avail: &Vec<Vec<bool>>, req: &Vec<usize>) -> (r: Option<Vec<Vec<usize>>>)
    ensures
        r is Some <==> can_alloc(avail.deep_view(), req@),
        r is Some ==> r.unwrap().deep_view() == spec_allocation(avail.deep_view(), req@),
{
    let ghost av = avail.deep_view();
    if req.len() != avail.len() {
        return None;
    }
    let mut out: Vec<Vec<usize>> = Vec::new();
    let mut d: usize = 0;
    while d < req.len()
        invariant
            av == avail.deep_view(),
            av.len() == avail@.len(),
            forall|k: int| 0 <= k < av.len() ==> av[k] == avail@[k]@,
            req@.len() == av.len(),
            d <= req@.len(),
            out@.len() == d,
            forall|k: int| 0 <= k < d ==> count_free(av[k]) >= req@[k],
            forall|k: int|
                0 <= k < d ==> (#[trigger] out@[k])@ == free_indices(av[k]).take(req@[k] as int),
        decreases req@.len() - d,
    {
        let row = &avail[d];
        let need = req[d];
        let mut picked: Vec<usize> = Vec::new();
        let mut i: usize = 0;
        proof {
            lemma_free_up_to_props(row@, 0);
        }
        while i < row.len() && picked.len() < need
            invariant
                row@ == av[d as int],
                d < av.len(),
                need == req@[d as int],
                i <= row@.len(),
                picked@ == free_up_to(row@, i as int),
                picked@.len() <= need,
            decreases row@.len() - i,
        {
            if !row[i] {
                picked.push(i);
            }
            i = i + 1;
        }
        proof {
            lemma_free_indices_props(row@);
        }
        if picked.len() < need {
            // the whole row was scanned and came up short
            assert(i == row@.len());
            assert(count_free(av[d as int]) < req@[d as int]);
            return None;
        }
        proof {
            lemma_free_up_to_prefix(row@, i as int, row@.len() as int);
            assert(picked@ == free_indices(row@).take(need as int));
        }
        out.push(picked);
        d = d + 1;
    }
    assert(can_alloc(av, req@));
    proof {
        assert forall|k: int| 0 <= k < av.len() implies (#[trigger] av[k]).len() <= usize::MAX by {
            assert(avail@[k].len() == avail@[k]@.len());
        }
        lemma_allocation_props(av, req@);
        assert(out.deep_view() =~~= spec_allocation(av, req@));
    }
    Some(out)
}

} // verus!
