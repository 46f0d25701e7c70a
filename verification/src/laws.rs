//! The library's laws, stated and proved over the state model.
//!
//! Each proof function here states one system-wide guarantee over the spec
//! functions that the operations' contracts use, so a reader can check the
//! guarantee without retracing the operations.

use vstd::prelude::*;
use crate::job::{JobView, enc_wf, enc_record, enc_queue, parse_record_spec, parse_queue_spec,
    lemma_queue_roundtrip, lemma_record_roundtrip};
use crate::bitmap::{enc_row, parse_row_spec, lemma_row_roundtrip};
use crate::state::{SchedulerState, owns, blocked, id_in_prefix, ids_increasing, rec_wf};
use crate::bitmap::{count_free, mentions};

verus! {

/// Law: in a well-formed state the queued ids are pairwise distinct and
/// strictly increasing in submission order.  Together with `submit`'s
/// contract — the returned id is the incremented counter, above every id in
/// the queue — the ids an instance hands out are unique and strictly
/// increasing over its whole life.
pub proof fn law_ids_unique_and_increasing(s: SchedulerState)
    requires
        s.wf(),
    ensures
        ids_increasing(s.jobsv()),
        forall|i: int, j: int|
            0 <= i < s.jobsv().len() && 0 <= j < s.jobsv().len() && i != j ==> (
            #[trigger] s.jobsv()[i]).id != (#[trigger] s.jobsv()[j]).id,
{
    assert forall|i: int, j: int|
        0 <= i < s.jobsv().len() && 0 <= j < s.jobsv().len() && i != j implies (
    #[trigger] s.jobsv()[i]).id != (#[trigger] s.jobsv()[j]).id by {
        if i < j {
            assert(s.jobsv()[i].id < s.jobsv()[j].id);
        } else {
            assert(s.jobsv()[j].id < s.jobsv()[i].id);
        }
    }
}

/// Law: in a well-formed state no slot index is held by two running jobs,
/// and a slot is busy exactly when one running job holds it.
pub proof fn law_no_shared_slots(s: SchedulerState)
    requires
        s.wf(),
    ensures
        forall|w1: int, w2: int, d: int, sl: int|
            #[trigger] owns(s.jobsv(), w1, d, sl) && #[trigger] owns(s.jobsv(), w2, d, sl) ==> w1
                == w2,
        forall|d: int, sl: int|
            0 <= d < s.availv().len() && 0 <= sl < s.availv()[d].len() ==> ((
            #[trigger] s.availv()[d][sl]) <==> exists|w: int| owns(s.jobsv(), w, d, sl)),
{
}

/// Every dependency names an earlier submission: it is smaller than the id
/// of the record that carries it.  This holds whenever dependencies are ids
/// the instance has already handed out.
pub open spec fn deps_precede(jobs: Seq<JobView>) -> bool {
    forall|i: int, dd: int|
        0 <= i < jobs.len() && 0 <= dd < jobs[i].deps.len() ==> (#[trigger] jobs[i].deps[dd])
            < jobs[i].id
}

/// Law: a record that the dispatch scan does not consider blocked has no
/// dependency anywhere in the queue — earlier or later — provided every
/// dependency names an earlier submission.  Since the scan dispatches only
/// unblocked records, a job is never dispatched while a dependency's record
/// remains queued.
pub proof fn law_dependency_never_dispatched(s: SchedulerState, j: int)
    requires
        s.wf(),
        deps_precede(s.jobsv()),
        0 <= j < s.jobsv().len(),
        !blocked(s.jobsv(), j),
    ensures
        forall|dd: int, k: int|
            0 <= dd < s.jobsv()[j].deps.len() && 0 <= k < s.jobsv().len() ==> (
            #[trigger] s.jobsv()[k]).id != (#[trigger] s.jobsv()[j].deps[dd]),
{
    let jv = s.jobsv();
    assert forall|dd: int, k: int|
        0 <= dd < jv[j].deps.len() && 0 <= k < jv.len() implies (#[trigger] jv[k]).id != (
    #[trigger] jv[j].deps[dd]) by {
        if jv[k].id == jv[j].deps[dd] {
            assert(jv[j].deps[dd] < jv[j].id);
            if k > j {
                assert(jv[j].id < jv[k].id);
            } else {
                assert(id_in_prefix(jv, jv[j].deps[dd], j)) by {
                    assert(jv[k].id == jv[j].deps[dd]);
                }
                assert(blocked(jv, j));
            }
        }
    }
}

/// Law: removing the record at `i` keeps every other record, in the same
/// relative order — each survivor keeps its position or moves down by
/// exactly one.  `finish_job` removes records through `Seq::remove`, so this
/// covers completion and forced removal alike.
pub proof fn law_remove_preserves_order(jobs: Seq<JobView>, i: int)
    requires
        0 <= i < jobs.len(),
    ensures
        jobs.remove(i).len() == jobs.len() - 1,
        forall|p: int| 0 <= p < i ==> jobs.remove(i)[p] == jobs[p],
        forall|p: int| i <= p < jobs.len() - 1 ==> jobs.remove(i)[p] == jobs[p + 1],
        ids_increasing(jobs) ==> ids_increasing(jobs.remove(i)),
{
    if ids_increasing(jobs) {
        assert forall|a: int, b: int| 0 <= a < b < jobs.remove(i).len() implies (
        #[trigger] jobs.remove(i)[a]).id < (#[trigger] jobs.remove(i)[b]).id by {
            let a0 = if a < i {
                a
            } else {
                a + 1
            };
            let b0 = if b < i {
                b
            } else {
                b + 1
            };
            assert(jobs[a0].id < jobs[b0].id);
        }
    }
}

/// Law: dispatching rewrites one record in place — the queue keeps its
/// length, and every other record is untouched.  `dispatch_mark` changes the
/// queue through `Seq::update`, so dispatch never reorders waiting jobs.
pub proof fn law_dispatch_preserves_order(jobs: Seq<JobView>, i: int, rec: JobView)
    requires
        0 <= i < jobs.len(),
    ensures
        jobs.update(i, rec).len() == jobs.len(),
        forall|p: int| 0 <= p < jobs.len() && p != i ==> jobs.update(i, rec)[p] == jobs[p],
        jobs.update(i, rec)[i] == rec,
        (ids_increasing(jobs) && rec.id == jobs[i].id) ==> ids_increasing(jobs.update(i, rec)),
{
}

/// Law: writing a well-formed state and reading it back reproduces the same
/// logical state — every bitmap row and the whole job queue round-trip
/// through their file encodings.
pub proof fn law_state_roundtrip(s: SchedulerState)
    requires
        s.wf(),
    ensures
        parse_queue_spec(enc_queue(s.jobsv())) == Some(s.jobsv()),
        forall|d: int|
            0 <= d < s.availv().len() ==> parse_row_spec(enc_row(#[trigger] s.availv()[d]))
                == Some(s.availv()[d]),
{
    lemma_queue_roundtrip(s.jobsv());
    assert forall|d: int| 0 <= d < s.availv().len() implies parse_row_spec(
        enc_row(#[trigger] s.availv()[d]),
    ) == Some(s.availv()[d]) by {
        lemma_row_roundtrip(s.availv()[d]);
    }
}

/// How many entries of `a` lie below `n`.
pub open spec fn cnt_below(a: Seq<usize>, n: int) -> int
    decreases a.len(),
{
    if a.len() == 0 {
        0
    } else {
        cnt_below(a.drop_last(), n) + if a.last() < n {
            1int
        } else {
            0int
        }
    }
}

/// The summed assigned-slot counts of the running jobs in dimension `d`,
/// restricted to slot indices below `n`.
pub open spec fn sum_assigned(jobs: Seq<JobView>, d: int, n: int) -> int
    decreases jobs.len(),
{
    if jobs.len() == 0 {
        0
    } else {
        sum_assigned(jobs.drop_last(), d, n) + if jobs.last().is_running() && 0 <= d
            < jobs.last().assigned.len() {
            cnt_below(jobs.last().assigned[d], n)
        } else {
            0int
        }
    }
}

/// How many of the first `m` jobs hold slot `s` of dimension `d`.
spec fn sum_holders(jobs: Seq<JobView>, d: int, s: int, m: int) -> int
    decreases m,
{
    if m <= 0 {
        0
    } else {
        sum_holders(jobs, d, s, m - 1) + if m - 1 < jobs.len() && owns(jobs, m - 1, d, s) {
            1int
        } else {
            0int
        }
    }
}

proof fn lemma_mentions_split(a: Seq<usize>, x: int)
    requires
        a.len() > 0,
    ensures
        mentions(a, x) <==> (mentions(a.drop_last(), x) || a.last() == x),
{
    if mentions(a, x) {
        let w = choose|w: int| 0 <= w < a.len() && a[w] == x;
        if w < a.len() - 1 {
            assert(a.drop_last()[w] == x);
        }
    }
    if mentions(a.drop_last(), x) {
        let w = choose|w: int| 0 <= w < a.drop_last().len() && a.drop_last()[w] == x;
        assert(a[w] == x);
    }
    if a.last() == x {
        assert(a[a.len() - 1] == x);
    }
}

/// Raising the bound from `n - 1` to `n` counts exactly the entry `n - 1`,
/// provided the entries are pairwise distinct.
proof fn lemma_cnt_below_step(a: Seq<usize>, n: int)
    requires
        forall|k1: int, k2: int| 0 <= k1 < k2 < a.len() ==> a[k1] != a[k2],
    ensures
        cnt_below(a, n) == cnt_below(a, n - 1) + if mentions(a, n - 1) {
            1int
        } else {
            0int
        },
    decreases a.len(),
{
    if a.len() > 0 {
        let dl = a.drop_last();
        assert(forall|k1: int, k2: int| 0 <= k1 < k2 < dl.len() ==> dl[k1] == a[k1] && dl[k2] == a[k2]);
        lemma_cnt_below_step(dl, n);
        lemma_mentions_split(a, n - 1);
        if a.last() == n - 1 {
            assert(!mentions(dl, n - 1)) by {
                if mentions(dl, n - 1) {
                    let w = choose|w: int| 0 <= w < dl.len() && dl[w] == n - 1;
                    assert(a[w] == a[a.len() - 1]);
                }
            }
        }
    }
}

proof fn lemma_cnt_below_zero(a: Seq<usize>)
    ensures
        cnt_below(a, 0) == 0,
    decreases a.len(),
{
    if a.len() > 0 {
        lemma_cnt_below_zero(a.drop_last());
    }
}

/// With every entry below `n`, the count below `n` is the whole length.
proof fn lemma_cnt_below_all(a: Seq<usize>, n: int)
    requires
        forall|k: int| 0 <= k < a.len() ==> (#[trigger] a[k]) < n,
    ensures
        cnt_below(a, n) == a.len(),
    decreases a.len(),
{
    if a.len() > 0 {
        assert(a[a.len() - 1] < n);
        assert(forall|k: int| 0 <= k < a.drop_last().len() ==> a.drop_last()[k] == a[k]);
        lemma_cnt_below_all(a.drop_last(), n);
    }
}

proof fn lemma_sum_assigned_zero(jobs: Seq<JobView>, d: int)
    ensures
        sum_assigned(jobs, d, 0) == 0,
    decreases jobs.len(),
{
    if jobs.len() > 0 {
        lemma_sum_assigned_zero(jobs.drop_last(), d);
        lemma_cnt_below_zero(jobs.last().assigned[d]);
    }
}

/// With no slot shared, at most one job holds slot `s`, so the holder count
/// is one exactly when some job holds it.
proof fn lemma_sum_holders(jobs: Seq<JobView>, d: int, s: int, m: int)
    requires
        0 <= m <= jobs.len(),
        forall|w1: int, w2: int|
            #[trigger] owns(jobs, w1, d, s) && #[trigger] owns(jobs, w2, d, s) ==> w1 == w2,
    ensures
        sum_holders(jobs, d, s, m) == if exists|w: int| 0 <= w < m && owns(jobs, w, d, s) {
            1int
        } else {
            0int
        },
    decreases m,
{
    if m > 0 {
        lemma_sum_holders(jobs, d, s, m - 1);
        if owns(jobs, m - 1, d, s) {
            assert(!exists|w: int| 0 <= w < m - 1 && owns(jobs, w, d, s)) by {
                if exists|w: int| 0 <= w < m - 1 && owns(jobs, w, d, s) {
                    let w = choose|w: int| 0 <= w < m - 1 && owns(jobs, w, d, s);
                }
            }
            assert(exists|w: int| 0 <= w < m && owns(jobs, w, d, s)) by {
                assert(owns(jobs, m - 1, d, s));
            }
        } else {
            assert((exists|w: int| 0 <= w < m && owns(jobs, w, d, s)) <==> (exists|w: int|
                0 <= w < m - 1 && owns(jobs, w, d, s))) by {
                if exists|w: int| 0 <= w < m && owns(jobs, w, d, s) {
                    let w = choose|w: int| 0 <= w < m && owns(jobs, w, d, s);
                    assert(w != m - 1);
                }
            }
        }
    }
}

/// Raising the slot bound by one adds one to the sum exactly when some
/// running job holds the new slot.
proof fn lemma_sum_assigned_step(jobs: Seq<JobView>, d: int, n: int, avail: Seq<Seq<bool>>)
    requires
        forall|i: int| 0 <= i < jobs.len() ==> rec_wf(#[trigger] jobs[i], avail),
        0 <= d,
    ensures
        sum_assigned(jobs, d, n) == sum_assigned(jobs, d, n - 1) + sum_holders(
            jobs,
            d,
            n - 1,
            jobs.len() as int,
        ),
    decreases jobs.len(),
{
    if jobs.len() > 0 {
        let dl = jobs.drop_last();
        let m = jobs.len() as int;
        assert(forall|i: int| 0 <= i < dl.len() ==> dl[i] == jobs[i]);
        lemma_sum_assigned_step(dl, d, n, avail);
        // the prefix sums of holders agree position by position
        assert forall|mm: int| 0 <= mm <= dl.len() implies #[trigger] sum_holders(dl, d, n - 1, mm)
            == sum_holders(jobs, d, n - 1, mm) by {
            lemma_sum_holders_prefix(dl, jobs, d, n - 1, mm);
        }
        if jobs.last().is_running() && 0 <= d < jobs.last().assigned.len() {
            assert(rec_wf(jobs[m - 1], avail));
            lemma_cnt_below_step(jobs.last().assigned[d], n);
            assert(owns(jobs, m - 1, d, n - 1) <==> mentions(jobs.last().assigned[d], n - 1)) by {
                assert(jobs[m - 1] == jobs.last());
            }
        } else {
            assert(!owns(jobs, m - 1, d, n - 1));
        }
    }
}

/// Two queues that agree on the first `m` records count the same holders
/// among them.
proof fn lemma_sum_holders_prefix(a: Seq<JobView>, b: Seq<JobView>, d: int, s: int, m: int)
    requires
        0 <= m <= a.len(),
        m <= b.len(),
        forall|i: int| 0 <= i < m ==> a[i] == b[i],
    ensures
        sum_holders(a, d, s, m) == sum_holders(b, d, s, m),
    decreases m,
{
    if m > 0 {
        lemma_sum_holders_prefix(a, b, d, s, m - 1);
        assert(owns(a, m - 1, d, s) <==> owns(b, m - 1, d, s)) by {
            assert(a[m - 1] == b[m - 1]);
        }
    }
}

/// The busy bits below `n` match the assigned slots below `n`.
proof fn lemma_busy_prefix(s: SchedulerState, d: int, n: int)
    requires
        s.wf(),
        0 <= d < s.availv().len(),
        0 <= n <= s.availv()[d].len(),
    ensures
        s.availv()[d].take(n).len() - count_free(s.availv()[d].take(n)) == sum_assigned(
            s.jobsv(),
            d,
            n,
        ),
    decreases n,
{
    let row = s.availv()[d];
    let jv = s.jobsv();
    if n == 0 {
        assert(row.take(0) =~= Seq::<bool>::empty());
        lemma_sum_assigned_zero(jv, d);
    } else {
        lemma_busy_prefix(s, d, n - 1);
        assert(row.take(n).drop_last() =~= row.take(n - 1));
        assert(count_free(row.take(n)) == count_free(row.take(n - 1)) + if !row[n - 1] {
            1int
        } else {
            0int
        });
        lemma_sum_assigned_step(jv, d, n, s.availv());
        lemma_sum_holders(jv, d, n - 1, jv.len() as int);
        let sl = n - 1;
        assert(row[sl] <==> exists|w: int| owns(jv, w, d, sl));
        assert((exists|w: int| 0 <= w < jv.len() && #[trigger] owns(jv, w, d, sl)) <==> (exists|
            w: int,
        | owns(jv, w, d, sl))) by {
            if exists|w: int| owns(jv, w, d, sl) {
                let w = choose|w: int| owns(jv, w, d, sl);
            }
        }
    }
}

/// The summed requests of the running jobs in dimension `d`.
pub open spec fn sum_running_request(jobs: Seq<JobView>, d: int) -> int
    decreases jobs.len(),
{
    if jobs.len() == 0 {
        0
    } else {
        sum_running_request(jobs.drop_last(), d) + if jobs.last().is_running() && 0 <= d
            < jobs.last().nslots.len() {
            jobs.last().nslots[d] as int
        } else {
            0int
        }
    }
}

proof fn lemma_sum_assigned_full(jobs: Seq<JobView>, d: int, avail: Seq<Seq<bool>>)
    requires
        forall|i: int| 0 <= i < jobs.len() ==> rec_wf(#[trigger] jobs[i], avail),
        0 <= d < avail.len(),
    ensures
        sum_assigned(jobs, d, avail[d].len() as int) == sum_running_request(jobs, d),
    decreases jobs.len(),
{
    if jobs.len() > 0 {
        let dl = jobs.drop_last();
        assert(forall|i: int| 0 <= i < dl.len() ==> dl[i] == jobs[i]);
        lemma_sum_assigned_full(dl, d, avail);
        if jobs.last().is_running() {
            assert(rec_wf(jobs[jobs.len() - 1], avail));
            lemma_cnt_below_all(jobs.last().assigned[d], avail[d].len() as int);
        }
    }
}

/// Law: in a well-formed state the busy-bit count of each dimension equals
/// the summed assigned slot counts of the running jobs — which equal their
/// requests.
pub proof fn law_slot_accounting(s: SchedulerState, d: int)
    requires
        s.wf(),
        0 <= d < s.availv().len(),
    ensures
        s.availv()[d].len() - count_free(s.availv()[d]) == sum_running_request(s.jobsv(), d),
{
    let row = s.availv()[d];
    lemma_busy_prefix(s, d, row.len() as int);
    assert(row.take(row.len() as int) =~= row);
    lemma_sum_assigned_full(s.jobsv(), d, s.availv());
}

/// Law: one record of a well-formed state round-trips through its ten-line
/// encoding.
pub proof fn law_record_roundtrip(s: SchedulerState, i: int)
    requires
        s.wf(),
        0 <= i < s.jobsv().len(),
    ensures
        parse_record_spec(enc_record(s.jobsv()[i])) == Some(s.jobsv()[i]),
{
    assert(enc_wf(s.jobsv()[i]));
    lemma_record_roundtrip(s.jobsv()[i]);
}

} // verus!
