//! The scheduler state and its transitions.
//!
//! One instance is a slot bitmap, an ordered job queue and a monotonic id
//! counter.  A scheduling pass loads this state under the instance lock,
//! performs one transition (submit, dispatch, removal) and persists it.  The
//! well-formedness predicate `wf` carries the system invariants: ids strictly
//! increasing and within the counter, every record shaped to the instance's
//! dimensions, and every busy slot owned by exactly one running job.

use vstd::prelude::*;
use crate::bitmap::mentions;
use crate::slots::{can_alloc, spec_allocation, find_allocation, lemma_allocation_props};
use crate::bitmap::{set_slots, clear_slots};
use crate::job::{
    EnvPair, JobRecord, JobView, env_views, job_views, enc_wf, env_pair_wf, line_ok,
};
use crate::chars::str_to_chars;

verus! {

/// Ids never repeat and never decrease along the queue.
pub open spec fn ids_increasing(jobs: Seq<JobView>) -> bool {
    forall|i: int, j: int| 0 <= i < j < jobs.len() ==> (#[trigger] jobs[i]).id < (#[trigger] jobs[j]).id
}

/// Whether the queue holds a record with this id.
pub open spec fn has_id(jobs: Seq<JobView>, id: usize) -> bool {
    exists|i: int| 0 <= i < jobs.len() && (#[trigger] jobs[i]).id == id
}

/// The position of the first record with this id.
pub open spec fn idx_of_id(jobs: Seq<JobView>, id: usize) -> int {
    choose|i: int|
        0 <= i < jobs.len() && (#[trigger] jobs[i]).id == id && forall|w: int|
            0 <= w < i ==> jobs[w].id != id
}

/// One record's shape obligations towards its instance.
pub open spec fn rec_wf(j: JobView, avail: Seq<Seq<bool>>) -> bool {
    &&& j.nslots.len() == avail.len()
    &&& (j.pid is Some ==> {
        &&& j.assigned.len() == avail.len()
        &&& forall|d: int| 0 <= d < avail.len() ==> (#[trigger] j.assigned[d]).len() == j.nslots[d]
        &&& forall|d: int, k: int|
            0 <= d < avail.len() && 0 <= k < j.assigned[d].len() ==> (#[trigger] j.assigned[d][k])
                < avail[d].len()
        &&& forall|d: int, k1: int, k2: int|
            0 <= d < avail.len() && 0 <= k1 < k2 < j.assigned[d].len() ==> (
            #[trigger] j.assigned[d][k1]) < (#[trigger] j.assigned[d][k2])
    })
    &&& (j.pid is None ==> j.assigned.len() == 0)
}

/// Running job `w` holds slot `s` of dimension `d`.
pub open spec fn owns(jobs: Seq<JobView>, w: int, d: int, s: int) -> bool {
    &&& 0 <= w < jobs.len()
    &&& jobs[w].is_running()
    &&& 0 <= d < jobs[w].assigned.len()
    &&& mentions(jobs[w].assigned[d], s)
}

/// A slot is busy exactly when some running job holds it.
pub open spec fn slots_consistent(avail: Seq<Seq<bool>>, jobs: Seq<JobView>) -> bool {
    forall|d: int, s: int|
        0 <= d < avail.len() && 0 <= s < avail[d].len() ==> ((#[trigger] avail[d][s]) <==> exists|
            w: int,
        | owns(jobs, w, d, s))
}

/// No slot is held by two running jobs.
pub open spec fn no_shared_slots(jobs: Seq<JobView>) -> bool {
    forall|w1: int, w2: int, d: int, s: int|
        #[trigger] owns(jobs, w1, d, s) && #[trigger] owns(jobs, w2, d, s) ==> w1 == w2
}

/// One scheduler instance's complete shared state.
pub struct SchedulerState {
    /// Busy bits, one row per resource dimension.
    pub avail: Vec<Vec<bool>>,
    /// The job queue, in submission order.
    pub jobs: Vec<JobRecord>,
    /// The last id handed out.
    pub counter: usize,
}

impl SchedulerState {
    pub open spec fn availv(self) -> Seq<Seq<bool>> {
        self.avail.deep_view()
    }

    pub open spec fn jobsv(self) -> Seq<JobView> {
        job_views(self.jobs@)
    }

    pub open spec fn ndims(self) -> int {
        self.availv().len() as int
    }

    /// The system invariants of a reachable state.
    pub open spec fn wf(self) -> bool {
        &&& self.ndims() >= 1
        &&& ids_increasing(self.jobsv())
        &&& forall|i: int|
            0 <= i < self.jobsv().len() ==> (#[trigger] self.jobsv()[i]).id <= self.counter
        &&& forall|i: int|
            0 <= i < self.jobsv().len() ==> rec_wf(#[trigger] self.jobsv()[i], self.availv())
        &&& forall|i: int| 0 <= i < self.jobsv().len() ==> enc_wf(#[trigger] self.jobsv()[i])
        &&& slots_consistent(self.availv(), self.jobsv())
        &&& no_shared_slots(self.jobsv())
    }

    /// A fresh instance: the given bitmap, no jobs, counter at zero.
    pub fn new(avail: Vec<Vec<bool>>) -> (r: SchedulerState)
        ensures
            r.availv() == avail.deep_view(),
            r.jobsv() == Seq::<JobView>::empty(),
            r.counter == 0,
            (avail.deep_view().len() >= 1 && forall|d: int, s: int|
                0 <= d < avail.deep_view().len() && 0 <= s < avail.deep_view()[d].len()
                    ==> !(#[trigger] avail.deep_view()[d][s])) ==> r.wf(),
    {
        let r = SchedulerState { avail, jobs: Vec::new(), counter: 0 };
        proof {
            assert(r.jobsv() =~= Seq::<JobView>::empty());
            if r.ndims() >= 1 && forall|d: int, s: int|
                0 <= d < r.availv().len() && 0 <= s < r.availv()[d].len() ==> !(
                #[trigger] r.availv()[d][s]) {
                assert forall|d: int, s: int|
                    0 <= d < r.availv().len() && 0 <= s < r.availv()[d].len() implies ((
                #[trigger] r.availv()[d][s]) <==> exists|w: int| owns(r.jobsv(), w, d, s)) by {
                    if exists|w: int| owns(r.jobsv(), w, d, s) {
                        let w = choose|w: int| owns(r.jobsv(), w, d, s);
                    }
                }
            }
        }
        r
    }
}

/// Whether `id` belongs to one of the records up to and including `upto`:
/// the ids a left-to-right scan has seen.
pub open spec fn id_in_prefix(jobs: Seq<JobView>, id: usize, upto: int) -> bool {
    exists|i: int| 0 <= i <= upto && i < jobs.len() && (#[trigger] jobs[i]).id == id
}

/// A record is blocked while one of its dependencies has been seen by the
/// scan, its own record included.
pub open spec fn blocked(jobs: Seq<JobView>, k: int) -> bool {
    exists|di: int|
        0 <= di < jobs[k].deps.len() && id_in_prefix(jobs, #[trigger] jobs[k].deps[di], k)
}

/// A record the scan may dispatch: pending, unblocked, and with enough free
/// capacity in every dimension.
pub open spec fn dispatchable(avail: Seq<Seq<bool>>, jobs: Seq<JobView>, k: int) -> bool {
    &&& 0 <= k < jobs.len()
    &&& !jobs[k].is_running()
    &&& !blocked(jobs, k)
    &&& can_alloc(avail, jobs[k].nslots)
}

/// Whether `v` holds `x`.
fn vec_contains(v: &Vec<usize>, x: usize) -> (r: bool)
    ensures
        r == mentions(v@, x as int),
{
    let mut i: usize = 0;
    while i < v.len()
        invariant
            i <= v@.len(),
            forall|k: int| 0 <= k < i ==> v@[k] != x,
        decreases v@.len() - i,
    {
        if v[i] == x {
            assert(mentions(v@, x as int)) by {
                assert(v@[i as int] == x);
            }
            return true;
        }
        i = i + 1;
    }
    proof {
        if mentions(v@, x as int) {
            let w = choose|w: int| 0 <= w < v@.len() && v@[w] == x as int;
        }
    }
    false
}

impl SchedulerState {
    /// The dispatch scan: walks the queue in submission order, skipping
    /// running and blocked records, and returns the first pending record
    /// whose request fits the free slots, with its first-fit allocation.
    pub fn schedule_find(&self) -> (r: Option<(usize, Vec<Vec<usize>>)>)
        ensures
            match r {
                Some((j, alloc)) => {
                    &&& dispatchable(self.availv(), self.jobsv(), j as int)
                    &&& forall|k: int|
                        0 <= k < j ==> !dispatchable(self.availv(), self.jobsv(), k)
                    &&& alloc.deep_view() == spec_allocation(
                        self.availv(),
                        self.jobsv()[j as int].nslots,
                    )
                },
                None => forall|k: int|
                    0 <= k < self.jobsv().len() ==> !dispatchable(self.availv(), self.jobsv(), k),
            },
    {
        let ghost jv = self.jobsv();
        let ghost av = self.availv();
        let mut seen: Vec<usize> = Vec::new();
        let mut i: usize = 0;
        while i < self.jobs.len()
            invariant
                jv == self.jobsv(),
                av == self.availv(),
                i <= jv.len(),
                jv.len() == self.jobs@.len(),
                seen@.len() == i,
                forall|k: int| 0 <= k < i ==> seen@[k] == (#[trigger] jv[k]).id,
                forall|k: int| 0 <= k < i ==> !dispatchable(av, jv, k),
            decreases jv.len() - i,
        {
            seen.push(self.jobs[i].id);
            assert(seen@[i as int] == jv[i as int].id);
            let ndeps = self.jobs[i].deps.len();
            let mut blk = false;
            let mut di: usize = 0;
            while di < ndeps
                invariant
                    jv == self.jobsv(),
                    i < jv.len(),
                    jv.len() == self.jobs@.len(),
                    ndeps == jv[i as int].deps.len(),
                    di <= ndeps,
                    seen@.len() == i + 1,
                    forall|k: int| 0 <= k <= i ==> seen@[k] == (#[trigger] jv[k]).id,
                    blk ==> blocked(jv, i as int),
                    !blk ==> forall|dd: int|
                        0 <= dd < di ==> !id_in_prefix(jv, #[trigger] jv[i as int].deps[dd], i as int),
                decreases ndeps - di,
            {
                if !blk {
                    let dep = self.jobs[i].deps[di];
                    assert(dep == jv[i as int].deps[di as int]);
                    if vec_contains(&seen, dep) {
                        proof {
                            let w = choose|w: int| 0 <= w < seen@.len() && seen@[w] == dep as int;
                            assert(jv[w].id == dep);
                            assert(id_in_prefix(jv, dep, i as int));
                        }
                        blk = true;
                    } else {
                        proof {
                            if id_in_prefix(jv, dep, i as int) {
                                let w = choose|w: int|
                                    0 <= w <= i as int && w < jv.len() && (#[trigger] jv[w]).id
                                        == dep;
                                assert(seen@[w] == dep);
                                assert(mentions(seen@, dep as int));
                            }
                        }
                    }
                }
                di = di + 1;
            }
            proof {
                if !blk && blocked(jv, i as int) {
                    let dd = choose|dd: int|
                        0 <= dd < jv[i as int].deps.len() && id_in_prefix(
                            jv,
                            #[trigger] jv[i as int].deps[dd],
                            i as int,
                        );
                }
            }
            if !blk && self.jobs[i].pid.is_none() {
                assert(!jv[i as int].is_running());
                match find_allocation(&self.avail, &self.jobs[i].nslots) {
                    Some(alloc) => {
                        assert(self.jobs@[i as int].nslots@ == jv[i as int].nslots);
                        assert(dispatchable(av, jv, i as int));
                        return Some((i, alloc));
                    },
                    None => {
                        assert(!can_alloc(av, jv[i as int].nslots));
                    },
                }
            }
            assert(!dispatchable(av, jv, i as int));
            i = i + 1;
        }
        None
    }

    /// Marks record `j` as dispatched: commits its first-fit allocation and
    /// writes the assigned slots and the pid into the record.  Returns false,
    /// changing nothing, if `j` is not a pending record or the capacity is
    /// gone.
    pub fn dispatch_mark(&mut self, j: usize, pid: usize) -> (r: bool)
        ensures
            r <==> ((j as int) < old(self).jobsv().len() && !old(self).jobsv()[j as int].is_running()
                && can_alloc(old(self).availv(), old(self).jobsv()[j as int].nslots)),
            !r ==> *final(self) == *old(self),
            r ==> final(self).counter == old(self).counter,
            r ==> final(self).jobsv() == old(self).jobsv().update(
                j as int,
                JobView {
                    assigned: spec_allocation(old(self).availv(), old(self).jobsv()[j as int].nslots),
                    pid: Some(pid),
                    ..old(self).jobsv()[j as int]
                },
            ),
            r ==> {
                let alloc = spec_allocation(old(self).availv(), old(self).jobsv()[j as int].nslots);
                &&& final(self).availv().len() == old(self).availv().len()
                &&& forall|d: int|
                    0 <= d < old(self).availv().len() ==> (#[trigger] final(self).availv()[d]).len()
                        == old(self).availv()[d].len()
                &&& forall|d: int, s: int|
                    0 <= d < old(self).availv().len() && 0 <= s < old(self).availv()[d].len()
                        ==> (#[trigger] final(self).availv()[d][s] <==> (old(self).availv()[d][s]
                        || (d < alloc.len() && mentions(alloc[d], s))))
            },
            old(self).wf() && r ==> final(self).wf(),
    {
        let ghost oldstate = *self;
        if j >= self.jobs.len() {
            return false;
        }
        if self.jobs[j].pid.is_some() {
            return false;
        }
        let alloc = match find_allocation(&self.avail, &self.jobs[j].nslots) {
            Some(a) => a,
            None => {
                assert(self.jobs@[j as int].nslots@ == self.jobsv()[j as int].nslots);
                return false;
            },
        };
        let ghost allocv = alloc.deep_view();
        proof {
            assert(self.jobs@[j as int].nslots@ == self.jobsv()[j as int].nslots);
            assert(allocv == spec_allocation(oldstate.availv(), oldstate.jobsv()[j as int].nslots));
            assert forall|k: int| 0 <= k < oldstate.availv().len() implies (
            #[trigger] oldstate.availv()[k]).len() <= usize::MAX by {
                assert(self.avail@[k].len() == self.avail@[k]@.len());
            }
            lemma_allocation_props(oldstate.availv(), oldstate.jobsv()[j as int].nslots);
            assert(allocv.len() <= oldstate.availv().len());
            assert forall|d: int, k: int|
                0 <= d < allocv.len() && 0 <= k < allocv[d].len() implies (#[trigger] alloc@[d]@[k])
                < self.avail@[d]@.len() by {
                assert(allocv[d] == alloc@[d]@);
                assert(allocv[d][k] < oldstate.availv()[d].len());
            }
        }
        let mut rec = self.jobs.remove(j);
        rec.assigned = alloc;
        rec.pid = Some(pid);
        let ghost recv = rec@;
        proof {
            assert(recv.assigned == allocv) by {
                assert(crate::job::slots_views(rec.assigned@) =~~= rec.assigned.deep_view());
            }
        }
        self.jobs.insert(j, rec);
        set_slots(&mut self.avail, &self.jobs[j].assigned, true);
        proof {
            let newjobs = final(self).jobsv();
            let oldjobs = oldstate.jobsv();
            assert(newjobs =~~= oldjobs.update(
                j as int,
                JobView { assigned: allocv, pid: Some(pid), ..oldjobs[j as int] },
            ));
            if oldstate.wf() {
                let av0 = oldstate.availv();
                let av1 = final(self).availv();
                let req = oldjobs[j as int].nslots;
                assert forall|a: int, b: int| 0 <= a < b < newjobs.len() implies (
                #[trigger] newjobs[a]).id < (#[trigger] newjobs[b]).id by {
                    assert(oldjobs[a].id < oldjobs[b].id);
                }
                assert forall|i: int| 0 <= i < newjobs.len() implies (#[trigger] newjobs[i]).id
                    <= final(self).counter by {
                    assert(oldjobs[i].id <= oldstate.counter);
                }
                assert forall|i: int| 0 <= i < newjobs.len() implies rec_wf(
                    #[trigger] newjobs[i],
                    av1,
                ) && enc_wf(newjobs[i]) by {
                    assert(rec_wf(oldjobs[i], av0));
                    assert(enc_wf(oldjobs[i]));
                    if i == j {
                        assert(newjobs[i] == JobView {
                            assigned: allocv,
                            pid: Some(pid),
                            ..oldjobs[j as int]
                        });
                    }
                }
                assert forall|d: int, s: int|
                    0 <= d < av1.len() && 0 <= s < av1[d].len() implies ((#[trigger] av1[d][s])
                    <==> exists|w: int| owns(newjobs, w, d, s)) by {
                    assert(av0[d][s] <==> exists|w: int| owns(oldjobs, w, d, s));
                    if av1[d][s] {
                        if av0[d][s] {
                            let w = choose|w: int| owns(oldjobs, w, d, s);
                            assert(w != j);
                            assert(owns(newjobs, w, d, s));
                        } else {
                            assert(d < allocv.len() && mentions(allocv[d], s));
                            assert(owns(newjobs, j as int, d, s));
                        }
                    } else {
                        assert(!av0[d][s]);
                        if exists|w: int| owns(newjobs, w, d, s) {
                            let w = choose|w: int| owns(newjobs, w, d, s);
                            if w == j {
                                assert(mentions(allocv[d], s));
                            } else {
                                assert(owns(oldjobs, w, d, s));
                            }
                        }
                    }
                }
                assert forall|w1: int, w2: int, d: int, s: int|
                    #[trigger] owns(newjobs, w1, d, s) && #[trigger] owns(
                    newjobs,
                    w2,
                    d,
                    s,
                ) implies w1 == w2 by {
                    if w1 != w2 {
                        if w1 == j || w2 == j {
                            let wj = if w1 == j { w2 } else { w1 };
                            assert(owns(newjobs, j as int, d, s));
                            assert(mentions(allocv[d], s));
                            let k = choose|k: int|
                                0 <= k < allocv[d].len() && allocv[d][k] == s;
                            assert(!av0[d][allocv[d][k] as int]);
                            assert(!av0[d][s]);
                            assert(owns(oldjobs, wj, d, s));
                            assert(av0[d][s]);
                        } else {
                            assert(owns(oldjobs, w1, d, s));
                            assert(owns(oldjobs, w2, d, s));
                        }
                    }
                }
                assert(final(self).wf());
            }
        }
        true
    }
}

impl SchedulerState {
    /// Releases a finished or force-removed job's slots and deletes its
    /// record, leaving the other records in their order.  Returns false,
    /// changing nothing, when no record carries the id.
    pub fn finish_job(&mut self, id: usize) -> (r: bool)
        ensures
            r == has_id(old(self).jobsv(), id),
            !r ==> *final(self) == *old(self),
            r ==> {
                let i = idx_of_id(old(self).jobsv(), id);
                let rec = old(self).jobsv()[i];
                &&& 0 <= i < old(self).jobsv().len()
                &&& rec.id == id
                &&& forall|w: int| 0 <= w < i ==> old(self).jobsv()[w].id != id
                &&& final(self).counter == old(self).counter
                &&& final(self).jobsv() == old(self).jobsv().remove(i)
                &&& final(self).availv().len() == old(self).availv().len()
                &&& forall|d: int|
                    0 <= d < old(self).availv().len() ==> (#[trigger] final(self).availv()[d]).len()
                        == old(self).availv()[d].len()
                &&& forall|d: int, s: int|
                    0 <= d < old(self).availv().len() && 0 <= s < old(self).availv()[d].len()
                        ==> (#[trigger] final(self).availv()[d][s] <==> (old(self).availv()[d][s]
                        && !(d < rec.assigned.len() && mentions(rec.assigned[d], s))))
            },
            old(self).wf() ==> final(self).wf(),
    {
        let ghost oldstate = *self;
        let ghost jv = oldstate.jobsv();
        let i = match self.find_job(id) {
            Some(i) => i,
            None => {
                return false;
            },
        };
        proof {
            assert(has_id(jv, id)) by {
                assert(jv[i as int].id == id);
            }
        }
        let rec = self.jobs.remove(i);
        clear_slots(&mut self.avail, &rec.assigned);
        proof {
            let newjobs = final(self).jobsv();
            let oldjobs = jv;
            let recv = rec@;
            assert(recv == oldjobs[i as int]);
            assert(newjobs =~~= oldjobs.remove(i as int));
            assert(recv.assigned =~~= rec.assigned.deep_view());
            assert forall|d: int, s: int|
                0 <= d < oldstate.availv().len() && 0 <= s
                    < oldstate.availv()[d].len() implies (#[trigger] final(self).availv()[d][s]
                <==> (oldstate.availv()[d][s] && !(d < recv.assigned.len() && mentions(
                recv.assigned[d],
                s,
            )))) by {
                assert(final(self).availv()[d][s] == (oldstate.availv()[d][s] && !(d
                    < rec.assigned.deep_view().len() && mentions(rec.assigned.deep_view()[d], s))));
            }
            if oldstate.wf() {
                let av0 = oldstate.availv();
                let av1 = final(self).availv();
                // indices shift down by one past the removed record
                assert forall|w: int| 0 <= w < newjobs.len() implies #[trigger] newjobs[w] == (
                if w < i as int {
                    oldjobs[w]
                } else {
                    oldjobs[w + 1]
                }) by {}
                assert forall|a: int, b: int| 0 <= a < b < newjobs.len() implies (
                #[trigger] newjobs[a]).id < (#[trigger] newjobs[b]).id by {
                    let a0 = if a < i as int { a } else { a + 1 };
                    let b0 = if b < i as int { b } else { b + 1 };
                    assert(oldjobs[a0].id < oldjobs[b0].id);
                }
                assert forall|w: int| 0 <= w < newjobs.len() implies (#[trigger] newjobs[w]).id
                    <= final(self).counter && rec_wf(newjobs[w], av1) && enc_wf(newjobs[w]) by {
                    let w0 = if w < i as int { w } else { w + 1 };
                    assert(oldjobs[w0].id <= oldstate.counter);
                    assert(rec_wf(oldjobs[w0], av0));
                    assert(enc_wf(oldjobs[w0]));
                }
                assert forall|d: int, s: int|
                    0 <= d < av1.len() && 0 <= s < av1[d].len() implies ((#[trigger] av1[d][s])
                    <==> exists|w: int| owns(newjobs, w, d, s)) by {
                    assert(av0[d][s] <==> exists|w: int| owns(oldjobs, w, d, s));
                    if av1[d][s] {
                        assert(av0[d][s]);
                        let w0 = choose|w0: int| owns(oldjobs, w0, d, s);
                        assert(w0 != i as int) by {
                            if w0 == i as int {
                                assert(mentions(recv.assigned[d], s));
                            }
                        }
                        let w1 = if w0 < i as int {
                            w0
                        } else {
                            w0 - 1
                        };
                        assert(owns(newjobs, w1, d, s));
                    } else {
                        if exists|w: int| owns(newjobs, w, d, s) {
                            let w = choose|w: int| owns(newjobs, w, d, s);
                            let w0 = if w < i as int {
                                w
                            } else {
                                w + 1
                            };
                            assert(owns(oldjobs, w0, d, s));
                            assert(av0[d][s]);
                            // the slot went free, so the removed record held it
                            assert(d < recv.assigned.len() && mentions(recv.assigned[d], s));
                            assert(recv.is_running()) by {
                                if recv.pid is None {
                                    assert(recv.assigned.len() == 0);
                                }
                            }
                            assert(owns(oldjobs, i as int, d, s));
                            assert(w0 == i as int);
                        }
                    }
                }
                assert forall|w1: int, w2: int, d: int, s: int|
                    #[trigger] owns(newjobs, w1, d, s) && #[trigger] owns(
                    newjobs,
                    w2,
                    d,
                    s,
                ) implies w1 == w2 by {
                    let a0 = if w1 < i as int { w1 } else { w1 + 1 };
                    let b0 = if w2 < i as int { w2 } else { w2 + 1 };
                    assert(owns(oldjobs, a0, d, s));
                    assert(owns(oldjobs, b0, d, s));
                }
                assert(final(self).wf());
            }
        }
        true
    }

    /// The position of the record with this id, if any.
    pub fn find_job(&self, id: usize) -> (r: Option<usize>)
        ensures
            match r {
                Some(i) => {
                    &&& (i as int) < self.jobsv().len()
                    &&& self.jobsv()[i as int].id == id
                    &&& forall|w: int| 0 <= w < i ==> self.jobsv()[w].id != id
                    &&& (i as int) == idx_of_id(self.jobsv(), id)
                },
                None => !has_id(self.jobsv(), id),
            },
    {
        let ghost jv = self.jobsv();
        let mut i: usize = 0;
        let n = self.jobs.len();
        while i < n
            invariant
                jv == self.jobsv(),
                n == jv.len(),
                i <= n,
                forall|w: int| 0 <= w < i ==> (#[trigger] jv[w]).id != id,
            decreases n - i,
        {
            if self.jobs[i].id == id {
                proof {
                    let ci = idx_of_id(jv, id);
                    assert(0 <= ci < jv.len() && jv[ci].id == id && forall|w: int|
                        0 <= w < ci ==> jv[w].id != id) by {
                        assert(0 <= i as int && (i as int) < jv.len() && jv[i as int].id == id
                            && forall|w: int| 0 <= w < i as int ==> jv[w].id != id);
                    }
                    assert(ci == i as int) by {
                        if ci < i as int {
                            assert(jv[ci].id != id);
                        } else if ci > i as int {
                            assert(jv[i as int].id != id);
                        }
                    }
                }
                return Some(i);
            }
            i = i + 1;
        }
        proof {
            if has_id(jv, id) {
                let w = choose|w: int| 0 <= w < jv.len() && (#[trigger] jv[w]).id == id;
            }
        }
        None
    }
}

/// Whether one record holds slot `s` of dimension `d`.
fn rec_owns(rec: &JobRecord, d: usize, s: usize) -> (r: bool)
    ensures
        r == (rec@.is_running() && (d as int) < rec@.assigned.len() && mentions(
            rec@.assigned[d as int],
            s as int,
        )),
{
    if rec.pid.is_none() {
        return false;
    }
    if d >= rec.assigned.len() {
        proof {
            assert(rec@.assigned.len() == rec.assigned@.len());
        }
        return false;
    }
    proof {
        assert(rec@.assigned[d as int] == rec.assigned@[d as int]@);
    }
    vec_contains(&rec.assigned[d], s)
}

impl SchedulerState {
    /// Whether the queued ids are strictly increasing and within the counter.
    fn check_ids(&self) -> (r: bool)
        ensures
            r == (ids_increasing(self.jobsv()) && forall|i: int|
                0 <= i < self.jobsv().len() ==> (#[trigger] self.jobsv()[i]).id <= self.counter),
    {
        let ghost jv = self.jobsv();
        let mut i: usize = 0;
        let n = self.jobs.len();
        while i < n
            invariant
                jv == self.jobsv(),
                n == jv.len(),
                i <= n,
                forall|a: int, b: int| 0 <= a < b < i ==> (#[trigger] jv[a]).id < (#[trigger] jv[b]).id,
                forall|a: int| 0 <= a < i ==> (#[trigger] jv[a]).id <= self.counter,
            decreases n - i,
        {
            if self.jobs[i].id > self.counter {
                return false;
            }
            if i > 0 && self.jobs[i - 1].id >= self.jobs[i].id {
                assert(!ids_increasing(jv)) by {
                    assert(!((jv[i - 1]).id < (jv[i as int]).id));
                }
                return false;
            }
            proof {
                if i > 0 {
                    assert forall|a: int| 0 <= a < i implies (#[trigger] jv[a]).id
                        < jv[i as int].id by {
                        if a < i - 1 {
                            assert(jv[a].id < jv[i - 1].id);
                        }
                    }
                }
            }
            i = i + 1;
        }
        true
    }

    /// Whether one record is shaped to this instance and encodable.
    fn check_one_rec(rec: &JobRecord, avail: &Vec<Vec<bool>>) -> (r: bool)
        ensures
            r == (rec_wf(rec@, avail.deep_view()) && enc_wf(rec@)),
    {
        let ghost rv = rec@;
        let ghost av = avail.deep_view();
        let ndims = avail.len();
        proof {
            assert(av.len() == avail@.len());
        }
        if rec.nslots.len() != ndims {
            assert(!rec_wf(rv, av));
            return false;
        }
        if !text_line_ok(&rec.command) || !text_line_ok(&rec.out) || !text_line_ok(&rec.err) {
            assert(!enc_wf(rv));
            return false;
        }
        let mut e: usize = 0;
        while e < rec.env.len()
            invariant
                rv == rec@,
                e <= rv.env.len(),
                rv.env.len() == rec.env@.len(),
                forall|k: int| 0 <= k < e ==> env_pair_wf(#[trigger] rv.env[k]),
            decreases rv.env.len() - e,
        {
            if !env_pair_ok(&rec.env[e]) {
                assert(!env_pair_wf(rv.env[e as int]));
                assert(!enc_wf(rv));
                return false;
            }
            e = e + 1;
        }
        assert(forall|k: int| 0 <= k < rv.env.len() ==> env_pair_wf(#[trigger] rv.env[k]));
        if rec.pid.is_none() {
            if rec.assigned.len() != 0 {
                assert(rv.assigned.len() == rec.assigned@.len());
                assert(!rec_wf(rv, av));
                return false;
            }
            assert(rv.assigned.len() == rec.assigned@.len());
            assert(rec_wf(rv, av) && enc_wf(rv));
            return true;
        }
        assert(rv.assigned.len() == rec.assigned@.len());
        if rec.assigned.len() != ndims {
            assert(!rec_wf(rv, av));
            return false;
        }
        if ndims == 0 {
            // a running record always has at least one dimension recorded
            assert(!enc_wf(rv));
            return false;
        }
        let mut d: usize = 0;
        while d < ndims
            invariant
                rv == rec@,
                av == avail.deep_view(),
                ndims == av.len(),
                rv.pid is Some,
                rv.assigned.len() == ndims,
                rv.assigned.len() == rec.assigned@.len(),
                rv.nslots.len() == ndims,
                rv.nslots.len() == rec.nslots@.len(),
                d <= ndims,
                forall|dd: int| 0 <= dd < d ==> (#[trigger] rv.assigned[dd]).len() == rv.nslots[dd],
                forall|dd: int, k: int|
                    0 <= dd < d && 0 <= k < rv.assigned[dd].len() ==> (
                    #[trigger] rv.assigned[dd][k]) < av[dd].len(),
                forall|dd: int, k1: int, k2: int|
                    0 <= dd < d && 0 <= k1 < k2 < rv.assigned[dd].len() ==> (
                    #[trigger] rv.assigned[dd][k1]) < (#[trigger] rv.assigned[dd][k2]),
            decreases ndims - d,
        {
            assert(rv.assigned[d as int] == rec.assigned@[d as int]@);
            if rec.assigned[d].len() != rec.nslots[d] {
                assert(!rec_wf(rv, av));
                return false;
            }
            let m = rec.assigned[d].len();
            let mut k: usize = 0;
            while k < m
                invariant
                    rv == rec@,
                    av == avail.deep_view(),
                    ndims == av.len(),
                    rv.pid is Some,
                    rv.assigned.len() == ndims,
                    rv.assigned.len() == rec.assigned@.len(),
                    rv.nslots.len() == ndims,
                    rv.nslots.len() == rec.nslots@.len(),
                    d < ndims,
                    rv.assigned[d as int] == rec.assigned@[d as int]@,
                    m == rv.assigned[d as int].len(),
                    m == rv.nslots[d as int],
                    k <= m,
                    forall|dd: int|
                        0 <= dd < d ==> (#[trigger] rv.assigned[dd]).len() == rv.nslots[dd],
                    forall|dd: int, kk: int|
                        0 <= dd < d && 0 <= kk < rv.assigned[dd].len() ==> (
                        #[trigger] rv.assigned[dd][kk]) < av[dd].len(),
                    forall|dd: int, k1: int, k2: int|
                        0 <= dd < d && 0 <= k1 < k2 < rv.assigned[dd].len() ==> (
                        #[trigger] rv.assigned[dd][k1]) < (#[trigger] rv.assigned[dd][k2]),
                    forall|kk: int|
                        0 <= kk < k ==> (#[trigger] rv.assigned[d as int][kk]) < av[d as int].len(),
                    forall|k1: int, k2: int|
                        0 <= k1 < k2 < k ==> (#[trigger] rv.assigned[d as int][k1]) < (
                        #[trigger] rv.assigned[d as int][k2]),
                decreases m - k,
            {
                let slot = rec.assigned[d][k];
                assert(av[d as int].len() == avail@[d as int]@.len());
                if slot >= avail[d].len() {
                    assert(!rec_wf(rv, av)) by {
                        assert(rv.assigned[d as int][k as int] >= av[d as int].len());
                    }
                    return false;
                }
                if k > 0 && rec.assigned[d][k - 1] >= slot {
                    assert(!rec_wf(rv, av)) by {
                        assert(!(rv.assigned[d as int][k - 1] < rv.assigned[d as int][k as int]));
                    }
                    return false;
                }
                proof {
                    if k > 0 {
                        assert forall|k1: int| 0 <= k1 < k implies (#[trigger] rv.assigned[
                            d as int
                        ][k1]) < rv.assigned[d as int][k as int] by {
                            if k1 < k - 1 {
                                assert(rv.assigned[d as int][k1] < rv.assigned[d as int][k - 1]);
                            }
                        }
                    }
                }
                k = k + 1;
            }
            d = d + 1;
        }
        assert(rec_wf(rv, av));
        assert(enc_wf(rv));
        true
    }

    /// Whether every record is shaped to this instance and encodable.
    fn check_recs(&self) -> (r: bool)
        ensures
            r == (forall|i: int|
                0 <= i < self.jobsv().len() ==> rec_wf(#[trigger] self.jobsv()[i], self.availv())
                    && enc_wf(self.jobsv()[i])),
    {
        let ghost jv = self.jobsv();
        let ghost av = self.availv();
        let mut i: usize = 0;
        let n = self.jobs.len();
        while i < n
            invariant
                jv == self.jobsv(),
                av == self.availv(),
                n == jv.len(),
                i <= n,
                forall|a: int| 0 <= a < i ==> rec_wf(#[trigger] jv[a], av) && enc_wf(jv[a]),
            decreases n - i,
        {
            if !Self::check_one_rec(&self.jobs[i], &self.avail) {
                assert(!(rec_wf(jv[i as int], av) && enc_wf(jv[i as int])));
                return false;
            }
            i = i + 1;
        }
        true
    }

    /// Whether no slot is held by two running records.
    fn check_no_shared(&self) -> (r: bool)
        ensures
            r == no_shared_slots(self.jobsv()),
    {
        let ghost jv = self.jobsv();
        let n = self.jobs.len();
        let mut w1: usize = 0;
        while w1 < n
            invariant
                jv == self.jobsv(),
                n == jv.len(),
                w1 <= n,
                forall|a: int, b: int, d: int, s: int|
                    0 <= a < w1 && a < b < jv.len() ==> !(#[trigger] owns(jv, a, d, s)
                        && #[trigger] owns(jv, b, d, s)),
            decreases n - w1,
        {
            let mut w2: usize = w1 + 1;
            while w2 < n
                invariant
                    jv == self.jobsv(),
                    n == jv.len(),
                    w1 < n,
                    w1 < w2,
                    w2 <= n,
                    forall|b: int, d: int, s: int|
                        (w1 as int) < b < w2 ==> !(#[trigger] owns(jv, w1 as int, d, s)
                            && #[trigger] owns(jv, b, d, s)),
                decreases n - w2,
            {
                let ra = &self.jobs[w1];
                let rb = &self.jobs[w2];
                if ra.pid.is_some() && rb.pid.is_some() {
                    let dims = if ra.assigned.len() < rb.assigned.len() {
                        ra.assigned.len()
                    } else {
                        rb.assigned.len()
                    };
                    let mut d: usize = 0;
                    while d < dims
                        invariant
                            jv == self.jobsv(),
                            n == jv.len(),
                            w1 < n,
                            w1 < w2 < n,
                            ra@ == jv[w1 as int],
                            rb@ == jv[w2 as int],
                            ra@.is_running(),
                            rb@.is_running(),
                            dims <= ra.assigned@.len(),
                            dims <= rb.assigned@.len(),
                            ra@.assigned.len() == ra.assigned@.len(),
                            rb@.assigned.len() == rb.assigned@.len(),
                            d <= dims,
                            forall|dd: int, s: int|
                                0 <= dd < d ==> !(#[trigger] owns(jv, w1 as int, dd, s)
                                    && #[trigger] owns(jv, w2 as int, dd, s)),
                        decreases dims - d,
                    {
                        let m = ra.assigned[d].len();
                        let mut k: usize = 0;
                        while k < m
                            invariant
                                jv == self.jobsv(),
                                w1 < jv.len(),
                                w2 < jv.len(),
                                w1 < w2,
                                ra@ == jv[w1 as int],
                                rb@ == jv[w2 as int],
                                ra@.is_running(),
                                rb@.is_running(),
                                ra@.assigned.len() == ra.assigned@.len(),
                                rb@.assigned.len() == rb.assigned@.len(),
                                d < ra.assigned@.len(),
                                d < rb.assigned@.len(),
                                ra@.assigned[d as int] == ra.assigned@[d as int]@,
                                rb@.assigned[d as int] == rb.assigned@[d as int]@,
                                m == ra@.assigned[d as int].len(),
                                k <= m,
                                forall|kk: int|
                                    0 <= kk < k ==> !mentions(
                                        rb@.assigned[d as int],
                                        #[trigger] ra@.assigned[d as int][kk] as int,
                                    ),
                            decreases m - k,
                        {
                            let s = ra.assigned[d][k];
                            if vec_contains(&rb.assigned[d], s) {
                                assert(!no_shared_slots(jv)) by {
                                    assert(mentions(ra@.assigned[d as int], s as int)) by {
                                        assert(ra@.assigned[d as int][k as int] == s);
                                    }
                                    assert(owns(jv, w1 as int, d as int, s as int));
                                    assert(owns(jv, w2 as int, d as int, s as int));
                                }
                                return false;
                            }
                            k = k + 1;
                        }
                        proof {
                            assert forall|s: int|
                                !(#[trigger] owns(jv, w1 as int, d as int, s) && #[trigger] owns(
                                    jv,
                                    w2 as int,
                                    d as int,
                                    s,
                                )) by {
                                if owns(jv, w1 as int, d as int, s) && owns(
                                    jv,
                                    w2 as int,
                                    d as int,
                                    s,
                                ) {
                                    let kk = choose|kk: int|
                                        0 <= kk < ra@.assigned[d as int].len()
                                            && ra@.assigned[d as int][kk] == s;
                                    assert(!mentions(rb@.assigned[d as int], ra@.assigned[
                                        d as int
                                    ][kk] as int));
                                }
                            }
                        }
                        d = d + 1;
                    }
                    proof {
                        assert forall|dd: int, s: int|
                            !(#[trigger] owns(jv, w1 as int, dd, s) && #[trigger] owns(
                                jv,
                                w2 as int,
                                dd,
                                s,
                            )) by {
                            if owns(jv, w1 as int, dd, s) && owns(jv, w2 as int, dd, s) {
                                assert(dd < ra@.assigned.len() && dd < rb@.assigned.len());
                                assert(0 <= dd < dims);
                            }
                        }
                    }
                } else {
                    proof {
                        assert forall|dd: int, s: int|
                            !(#[trigger] owns(jv, w1 as int, dd, s) && #[trigger] owns(
                                jv,
                                w2 as int,
                                dd,
                                s,
                            )) by {
                            if owns(jv, w1 as int, dd, s) && owns(jv, w2 as int, dd, s) {
                                assert(jv[w1 as int].is_running() && jv[w2 as int].is_running());
                            }
                        }
                    }
                }
                w2 = w2 + 1;
            }
            w1 = w1 + 1;
        }
        proof {
            assert forall|a: int, b: int, d: int, s: int|
                #[trigger] owns(jv, a, d, s) && #[trigger] owns(jv, b, d, s) implies a == b by {
                if a < b {
                    assert(!(owns(jv, a, d, s) && owns(jv, b, d, s)));
                } else if b < a {
                    assert(!(owns(jv, b, d, s) && owns(jv, a, d, s)));
                }
            }
        }
        true
    }

    /// Whether every busy bit has an owner and every owned slot is busy.
    fn check_consistent(&self) -> (r: bool)
        ensures
            r == slots_consistent(self.availv(), self.jobsv()),
    {
        let ghost jv = self.jobsv();
        let ghost av = self.availv();
        let mut d: usize = 0;
        let ndims = self.avail.len();
        proof {
            assert(av.len() == self.avail@.len());
        }
        while d < ndims
            invariant
                jv == self.jobsv(),
                av == self.availv(),
                ndims == av.len(),
                d <= ndims,
                forall|dd: int, s: int|
                    0 <= dd < d && 0 <= s < av[dd].len() ==> ((#[trigger] av[dd][s]) <==> exists|
                        w: int,
                    | owns(jv, w, dd, s)),
            decreases ndims - d,
        {
            let rowlen = self.avail[d].len();
            proof {
                assert(av[d as int].len() == self.avail@[d as int]@.len());
            }
            let mut s: usize = 0;
            while s < rowlen
                invariant
                    jv == self.jobsv(),
                    av == self.availv(),
                    d < av.len(),
                    rowlen == av[d as int].len(),
                    s <= rowlen,
                    forall|ss: int|
                        0 <= ss < s ==> ((#[trigger] av[d as int][ss]) <==> exists|w: int|
                            owns(jv, w, d as int, ss)),
                decreases rowlen - s,
            {
                let mut any_owner = false;
                let mut w: usize = 0;
                let n = self.jobs.len();
                while w < n
                    invariant
                        jv == self.jobsv(),
                        n == jv.len(),
                        w <= n,
                        any_owner ==> exists|ww: int| owns(jv, ww, d as int, s as int),
                        !any_owner ==> forall|ww: int|
                            0 <= ww < w ==> !(#[trigger] owns(jv, ww, d as int, s as int)),
                        d < av.len(),
                        s < av[d as int].len(),
                    decreases n - w,
                {
                    if !any_owner && rec_owns(&self.jobs[w], d, s) {
                        assert(owns(jv, w as int, d as int, s as int));
                        any_owner = true;
                    }
                    w = w + 1;
                }
                proof {
                    if !any_owner {
                        if exists|ww: int| owns(jv, ww, d as int, s as int) {
                            let ww = choose|ww: int| owns(jv, ww, d as int, s as int);
                        }
                    }
                }
                let busy = self.avail[d][s];
                assert(busy == av[d as int][s as int]);
                if busy != any_owner {
                    assert(!slots_consistent(av, jv));
                    return false;
                }
                s = s + 1;
            }
            d = d + 1;
        }
        true
    }

    /// Whether the state satisfies every system invariant: the exact,
    /// executable form of `wf`.  A state parsed from files that fails this
    /// check is corrupt.
    pub fn is_wf(&self) -> (r: bool)
        ensures
            r == self.wf(),
    {
        if self.avail.len() == 0 {
            proof {
                assert(self.availv().len() == self.avail@.len());
            }
            return false;
        }
        proof {
            assert(self.availv().len() == self.avail@.len());
        }
        self.check_ids() && self.check_recs() && self.check_no_shared() && self.check_consistent()
    }
}

/// How many of the records are running.
pub open spec fn count_running(jobs: Seq<JobView>) -> int
    decreases jobs.len(),
{
    if jobs.len() == 0 {
        0
    } else {
        count_running(jobs.drop_last()) + if jobs.last().is_running() {
            1int
        } else {
            0int
        }
    }
}

/// The pids of the running records, in queue order.
pub open spec fn running_pids_of(jobs: Seq<JobView>) -> Seq<usize>
    decreases jobs.len(),
{
    if jobs.len() == 0 {
        Seq::<usize>::empty()
    } else {
        running_pids_of(jobs.drop_last()) + if jobs.last().is_running() {
            seq![jobs.last().pid.unwrap()]
        } else {
            Seq::<usize>::empty()
        }
    }
}

proof fn lemma_count_running_le(jobs: Seq<JobView>)
    ensures
        0 <= count_running(jobs) <= jobs.len(),
    decreases jobs.len(),
{
    if jobs.len() > 0 {
        lemma_count_running_le(jobs.drop_last());
    }
}

impl SchedulerState {
    /// Total, running and pending job counts, in that order.
    pub fn count_jobs(&self) -> (r: (usize, usize, usize))
        ensures
            r.0 == self.jobsv().len(),
            r.1 == count_running(self.jobsv()),
            r.2 == self.jobsv().len() - count_running(self.jobsv()),
    {
        let ghost jv = self.jobsv();
        let mut running: usize = 0;
        let mut i: usize = 0;
        let n = self.jobs.len();
        while i < n
            invariant
                jv == self.jobsv(),
                n == jv.len(),
                i <= n,
                running == count_running(jv.take(i as int)),
                running <= i,
            decreases n - i,
        {
            assert(jv.take(i + 1).drop_last() =~= jv.take(i as int));
            if self.jobs[i].pid.is_some() {
                running = running + 1;
            }
            i = i + 1;
        }
        assert(jv.take(n as int) =~= jv);
        proof {
            lemma_count_running_le(jv);
        }
        (n, running, n - running)
    }

    /// The pids of all running jobs, in queue order: what a forced stop must
    /// signal.
    pub fn running_pids(&self) -> (r: Vec<usize>)
        ensures
            r@ == running_pids_of(self.jobsv()),
    {
        let ghost jv = self.jobsv();
        let mut r: Vec<usize> = Vec::new();
        let mut i: usize = 0;
        let n = self.jobs.len();
        while i < n
            invariant
                jv == self.jobsv(),
                n == jv.len(),
                i <= n,
                r@ == running_pids_of(jv.take(i as int)),
            decreases n - i,
        {
            assert(jv.take(i + 1).drop_last() =~= jv.take(i as int));
            match self.jobs[i].pid {
                Some(p) => {
                    r.push(p);
                    assert(r@ =~= running_pids_of(jv.take(i + 1)));
                },
                None => {},
            }
            i = i + 1;
        }
        assert(jv.take(n as int) =~= jv);
        r
    }
}

/// The command, paths and overrides a record may carry: they must survive
/// the line-oriented encoding.
pub open spec fn fields_encodable(
    command: Seq<char>,
    env: Seq<crate::job::EnvPairView>,
    out: Seq<char>,
    err: Seq<char>,
) -> bool {
    &&& line_ok(command)
    &&& line_ok(out)
    &&& line_ok(err)
    &&& forall|i: int| 0 <= i < env.len() ==> env_pair_wf(#[trigger] env[i])
}

/// Whether `s` can stand as one line of a record.
pub fn text_line_ok(s: &String) -> (r: bool)
    ensures
        r == line_ok(s@),
{
    let cs = str_to_chars(s.as_str());
    let mut i: usize = 0;
    while i < cs.len()
        invariant
            cs@ == s@,
            i <= s@.len(),
            forall|k: int| 0 <= k < i ==> s@[k] != '\n',
        decreases s@.len() - i,
    {
        if cs[i] == '\n' {
            assert(s@.contains('\n')) by {
                assert(s@[i as int] == '\n');
            }
            return false;
        }
        i = i + 1;
    }
    proof {
        if s@.contains('\n') {
            let w = choose|w: int| 0 <= w < s@.len() && s@[w] == '\n';
        }
    }
    true
}

/// Whether one override survives the space-and-equals encoding.
pub fn env_pair_ok(p: &EnvPair) -> (r: bool)
    ensures
        r == env_pair_wf(p@),
{
    let name = str_to_chars(p.name.as_str());
    if name.len() == 0 {
        return false;
    }
    let mut i: usize = 0;
    while i < name.len()
        invariant
            name@ == p.name@,
            i <= name@.len(),
            forall|k: int|
                0 <= k < i ==> p.name@[k] != '=' && p.name@[k] != ' ' && p.name@[k] != '\n',
        decreases name@.len() - i,
    {
        let c = name[i];
        if c == '=' || c == ' ' || c == '\n' {
            assert(p.name@.contains(c)) by {
                assert(p.name@[i as int] == c);
            }
            return false;
        }
        i = i + 1;
    }
    let value = str_to_chars(p.value.as_str());
    let mut i: usize = 0;
    while i < value.len()
        invariant
            value@ == p.value@,
            i <= value@.len(),
            forall|k: int| 0 <= k < i ==> p.value@[k] != ' ' && p.value@[k] != '\n',
        decreases value@.len() - i,
    {
        let c = value[i];
        if c == ' ' || c == '\n' {
            assert(p.value@.contains(c)) by {
                assert(p.value@[i as int] == c);
            }
            return false;
        }
        i = i + 1;
    }
    proof {
        if p.name@.contains('=') {
            let w = choose|w: int| 0 <= w < p.name@.len() && p.name@[w] == '=';
        }
        if p.name@.contains(' ') {
            let w = choose|w: int| 0 <= w < p.name@.len() && p.name@[w] == ' ';
        }
        if p.name@.contains('\n') {
            let w = choose|w: int| 0 <= w < p.name@.len() && p.name@[w] == '\n';
        }
        if p.value@.contains(' ') {
            let w = choose|w: int| 0 <= w < p.value@.len() && p.value@[w] == ' ';
        }
        if p.value@.contains('\n') {
            let w = choose|w: int| 0 <= w < p.value@.len() && p.value@[w] == '\n';
        }
    }
    true
}

impl SchedulerState {
    /// Appends a new pending job and hands out the next id.  Fails exactly
    /// when the request does not match the instance's dimensions, a field
    /// cannot be encoded, or the id counter is exhausted.
    pub fn submit(
        &mut self,
        nslots: Vec<usize>,
        command: String,
        env: Vec<EnvPair>,
        out: String,
        err: String,
        append: bool,
        deps: Vec<usize>,
    ) -> (r: Option<usize>)
        ensures
            r is Some <==> (old(self).counter < usize::MAX && nslots@.len() == old(self).ndims()
                && fields_encodable(command@, env_views(env@), out@, err@)),
            r is Some ==> {
                &&& r.unwrap() == old(self).counter + 1
                &&& final(self).counter == old(self).counter + 1
                &&& final(self).availv() == old(self).availv()
                &&& final(self).jobsv() == old(self).jobsv().push(
                    JobView {
                        id: (old(self).counter + 1) as usize,
                        nslots: nslots@,
                        command: command@,
                        env: env_views(env@),
                        out: out@,
                        err: err@,
                        append,
                        deps: deps@,
                        assigned: Seq::<Seq<usize>>::empty(),
                        pid: None,
                    },
                )
            },
            r is None ==> *final(self) == *old(self),
            old(self).wf() && r is Some ==> final(self).wf(),
            old(self).wf() && r is Some ==> forall|k: int|
                0 <= k < old(self).jobsv().len() ==> (#[trigger] old(self).jobsv()[k]).id
                    < r.unwrap(),
    {
        if self.counter == usize::MAX {
            return None;
        }
        if nslots.len() != self.avail.len() {
            proof {
                assert(self.availv().len() == self.avail@.len());
            }
            return None;
        }
        if !text_line_ok(&command) || !text_line_ok(&out) || !text_line_ok(&err) {
            return None;
        }
        let mut i: usize = 0;
        while i < env.len()
            invariant
                i <= env@.len(),
                forall|k: int| 0 <= k < i ==> env_pair_wf(#[trigger] env_views(env@)[k]),
            decreases env@.len() - i,
        {
            if !env_pair_ok(&env[i]) {
                assert(!env_pair_wf(env_views(env@)[i as int]));
                return None;
            }
            i = i + 1;
        }
        assert(fields_encodable(command@, env_views(env@), out@, err@));
        let id = self.counter + 1;
        let rec = JobRecord {
            id,
            nslots,
            command,
            env,
            out,
            err,
            append,
            deps,
            assigned: Vec::new(),
            pid: None,
        };
        let ghost recv = rec@;
        let ghost oldstate = *self;
        self.jobs.push(rec);
        self.counter = id;
        proof {
            assert(recv.assigned =~= Seq::<Seq<usize>>::empty());
            assert(recv.env == env_views(env@));
            assert(final(self).jobsv() =~= oldstate.jobsv().push(recv));
            assert(final(self).availv() =~= oldstate.availv());
            if oldstate.wf() {
                let newjobs = final(self).jobsv();
                let n = oldstate.jobsv().len() as int;
                assert forall|a: int, b: int| 0 <= a < b < newjobs.len() implies (
                #[trigger] newjobs[a]).id < (#[trigger] newjobs[b]).id by {
                    if b < n {
                        assert(oldstate.jobsv()[a].id < oldstate.jobsv()[b].id);
                    } else {
                        assert(oldstate.jobsv()[a].id <= oldstate.counter);
                    }
                }
                assert forall|w: int, d: int, s: int| true implies (owns(newjobs, w, d, s) <==> owns(
                    oldstate.jobsv(),
                    w,
                    d,
                    s,
                )) by {
                    if 0 <= w < n {
                        assert(newjobs[w] == oldstate.jobsv()[w]);
                    } else if w == n {
                        assert(newjobs[n] == recv);
                        assert(!recv.is_running());
                    }
                }
                assert forall|d: int, s: int|
                    0 <= d < final(self).availv().len() && 0 <= s
                        < final(self).availv()[d].len() implies ((
                #[trigger] final(self).availv()[d][s]) <==> exists|w: int|
                    owns(newjobs, w, d, s)) by {
                    assert(oldstate.availv()[d][s] <==> exists|w: int|
                        owns(oldstate.jobsv(), w, d, s));
                    if exists|w: int| owns(newjobs, w, d, s) {
                        let w = choose|w: int| owns(newjobs, w, d, s);
                        assert(owns(oldstate.jobsv(), w, d, s));
                    }
                    if exists|w: int| owns(oldstate.jobsv(), w, d, s) {
                        let w = choose|w: int| owns(oldstate.jobsv(), w, d, s);
                        assert(owns(newjobs, w, d, s));
                    }
                }
                assert(slots_consistent(final(self).availv(), newjobs));
                assert(no_shared_slots(newjobs)) by {
                    assert forall|w1: int, w2: int, d: int, s: int|
                        #[trigger] owns(newjobs, w1, d, s) && #[trigger] owns(
                        newjobs,
                        w2,
                        d,
                        s,
                    ) implies w1 == w2 by {
                        assert(owns(oldstate.jobsv(), w1, d, s));
                        assert(owns(oldstate.jobsv(), w2, d, s));
                    }
                }
                assert(final(self).wf());
            }
        }
        Some(id)
    }
}

} // verus!
