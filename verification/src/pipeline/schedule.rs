//! Admission and write order for encoding 7z members on worker threads:
//! members start in selection order while the in-flight size budget allows,
//! and finished packs are written strictly in selection order.

use crate::util::size_parse::{can_admit, sat_add};
use vstd::prelude::*;

verus! {

/// The scheduler's state: members `[next_write, next_admit)` are in flight or
/// finished, the finished ones not yet written are flagged in `done`, and
/// `running_sum`/`running_count` are the size and number of jobs running.
pub struct EncodeSchedule {
    next_admit: usize,
    next_write: usize,
    running_sum: u64,
    running_count: usize,
    done: Vec<bool>,
}

/// The scheduler's state as plain values.
pub struct ScheduleModel {
    pub next_admit: nat,
    pub next_write: nat,
    pub running_sum: u64,
    pub running_count: nat,
    pub done: Seq<bool>,
}

/// What happens to a schedule: the next member is offered to start (with
/// its size, the size budget and the worker cap), member `idx` of size `size`
/// finishes, or the next member is taken for writing when it is ready.
pub enum SchedEvent {
    Start { size: u64, budget: u64, max_workers: usize },
    Complete { idx: nat, size: u64 },
    Take,
}

/// Writing never passes admission, and only members in flight are finished.
pub open spec fn model_wf(m: ScheduleModel) -> bool {
    &&& m.next_write <= m.next_admit <= m.done.len()
    &&& forall|i: int| 0 <= i < m.done.len() && #[trigger] m.done[i] ==> m.next_write <= i < m.next_admit
}

/// Whether event `e` may happen in state `m`: a member can only finish
/// while it is in flight and not yet finished.
pub open spec fn event_ok(m: ScheduleModel, e: SchedEvent) -> bool {
    match e {
        SchedEvent::Complete { idx, size } => m.next_write <= idx < m.next_admit && !m.done[idx as int],
        _ => true,
    }
}

/// One step of the schedule: the new state, and the member written, if any.
pub open spec fn sched_step(m: ScheduleModel, e: SchedEvent) -> (ScheduleModel, Option<nat>) {
    match e {
        SchedEvent::Start { size, budget, max_workers } => {
            if m.next_admit < m.done.len() && max_workers != 0 && m.running_count < max_workers && (m.running_count
                == 0 || budget == 0 || sat_add(m.running_sum, size) <= budget) {
                (
                    ScheduleModel {
                        next_admit: m.next_admit + 1,
                        running_sum: sat_add(m.running_sum, size) as u64,
                        running_count: m.running_count + 1,
                        ..m
                    },
                    None,
                )
            } else {
                (m, None)
            }
        },
        SchedEvent::Complete { idx, size } => (
            ScheduleModel {
                done: m.done.update(idx as int, true),
                running_sum: if m.running_sum >= size { (m.running_sum - size) as u64 } else { 0 },
                running_count: if m.running_count > 0 { (m.running_count - 1) as nat } else { 0 },
                ..m
            },
            None,
        ),
        SchedEvent::Take => {
            if m.next_write < m.done.len() && m.done[m.next_write as int] {
                (
                    ScheduleModel {
                        next_write: m.next_write + 1,
                        done: m.done.update(m.next_write as int, false),
                        ..m
                    },
                    Some(m.next_write),
                )
            } else {
                (m, None)
            }
        },
    }
}

/// A whole run: the final state and the members written, in order.
pub open spec fn sched_run(m: ScheduleModel, evs: Seq<SchedEvent>) -> (ScheduleModel, Seq<nat>)
    decreases evs.len(),
{
    if evs.len() == 0 {
        (m, Seq::empty())
    } else {
        let (m1, w) = sched_step(m, evs[0]);
        let (mf, ws) = sched_run(m1, evs.drop_first());
        (
            mf,
            match w {
                Some(i) => seq![i] + ws,
                None => ws,
            },
        )
    }
}

/// Every event of the run may happen in the state it meets.
pub open spec fn run_ok(m: ScheduleModel, evs: Seq<SchedEvent>) -> bool
    decreases evs.len(),
{
    evs.len() == 0 || (event_ok(m, evs[0]) && run_ok(sched_step(m, evs[0]).0, evs.drop_first()))
}

proof fn lemma_step_wf(m: ScheduleModel, e: SchedEvent)
    requires
        model_wf(m),
        event_ok(m, e),
    ensures
        model_wf(sched_step(m, e).0),
        sched_step(m, e).0.done.len() == m.done.len(),
        sched_step(m, e).1 matches Some(i) ==> i == m.next_write && sched_step(m, e).0.next_write == m.next_write + 1,
        sched_step(m, e).1 is None ==> sched_step(m, e).0.next_write == m.next_write,
{
    let m1 = sched_step(m, e).0;
    assert forall|i: int| 0 <= i < m1.done.len() && #[trigger] m1.done[i] implies m1.next_write <= i < m1.next_admit by {
        match e {
            SchedEvent::Take => {
                if m.next_write < m.done.len() && m.done[m.next_write as int] {
                    assert(i != m.next_write);
                    assert(m.done[i]);
                }
            },
            SchedEvent::Complete { idx, size } => {
                if i != idx {
                    assert(m.done[i]);
                }
            },
            _ => {},
        }
    }
}

/// Law: whatever order the members finish in, a run of the schedule writes
/// the members one after another in selection order: the members written
/// are exactly those from where writing stood to where it ends, ascending.
/// From a fresh schedule, once every member is written, that is each member
/// once, in input order.
pub proof fn lemma_writes_in_order(m: ScheduleModel, evs: Seq<SchedEvent>)
    requires
        model_wf(m),
        run_ok(m, evs),
    ensures
        model_wf(sched_run(m, evs).0),
        sched_run(m, evs).0.done.len() == m.done.len(),
        sched_run(m, evs).0.next_write >= m.next_write,
        sched_run(m, evs).1 == Seq::new(
            (sched_run(m, evs).0.next_write - m.next_write) as nat,
            |k: int| (m.next_write + k) as nat,
        ),
    decreases evs.len(),
{
    if evs.len() > 0 {
        let (m1, w) = sched_step(m, evs[0]);
        lemma_step_wf(m, evs[0]);
        lemma_writes_in_order(m1, evs.drop_first());
        let (mf, ws) = sched_run(m1, evs.drop_first());
        match w {
            Some(i) => {
                assert(seq![i] + ws =~= Seq::new((mf.next_write - m.next_write) as nat, |k: int| (m.next_write + k) as nat));
            },
            None => {
                assert(ws =~= Seq::new((mf.next_write - m.next_write) as nat, |k: int| (m.next_write + k) as nat));
            },
        }
    }
}

impl View for EncodeSchedule {
    type V = ScheduleModel;

    closed spec fn view(&self) -> ScheduleModel {
        ScheduleModel {
            next_admit: self.next_admit as nat,
            next_write: self.next_write as nat,
            running_sum: self.running_sum,
            running_count: self.running_count as nat,
            done: self.done@,
        }
    }
}

impl EncodeSchedule {
    /// Writing never passes admission, and only members in flight are finished.
    pub open spec fn wf(&self) -> bool {
        &&& self@.next_write <= self@.next_admit <= self@.done.len()
        &&& forall|i: int| 0 <= i < self@.done.len() && #[trigger] self@.done[i] ==> self@.next_write <= i < self@.next_admit
    }

    /// A schedule for `n` members: nothing admitted, running or written.
    pub fn new(n: usize) -> (s: Self)
        ensures
            s.wf(),
            s@.next_admit == 0,
            s@.next_write == 0,
            s@.running_sum == 0,
            s@.running_count == 0,
            s@.done == Seq::new(n as nat, |i: int| false),
    {
        let mut done: Vec<bool> = Vec::new();
        let mut i: usize = 0;
        while i < n
            invariant
                i <= n,
                done@ == Seq::new(i as nat, |k: int| false),
            decreases n - i,
        {
            done.push(false);
            i = i + 1;
            assert(done@ =~= Seq::new(i as nat, |k: int| false));
        }
        EncodeSchedule { next_admit: 0, next_write: 0, running_sum: 0, running_count: 0, done }
    }

    /// Start the next member (its size `size`) when one is left and the
    /// running jobs leave room for it ([`can_admit`]); its index is returned.
    /// Otherwise nothing changes.
    pub fn start_next(&mut self, size: u64, budget: u64, max_workers: usize) -> (r: Option<usize>)
        requires
            old(self).wf(),
        ensures
            final(self).wf(),
            final(self)@ == sched_step(old(self)@, SchedEvent::Start { size, budget, max_workers }).0,
            final(self)@.done == old(self)@.done,
            final(self)@.next_write == old(self)@.next_write,
            ({
                let o = old(self)@;
                let ok = o.next_admit < o.done.len() && max_workers != 0 && o.running_count < max_workers && (
                o.running_count == 0 || budget == 0 || sat_add(o.running_sum, size) <= budget);
                &&& ok ==> r == Some(o.next_admit as usize) && final(self)@.next_admit == o.next_admit + 1
                    && final(self)@.running_sum == sat_add(o.running_sum, size) && final(self)@.running_count
                    == o.running_count + 1
                &&& !ok ==> r is None && final(self)@ == o
            }),
    {
        if self.next_admit >= self.done.len() {
            return None;
        }
        if !can_admit(self.running_sum, self.running_count, size, budget, max_workers) {
            return None;
        }
        let idx = self.next_admit;
        self.running_sum = self.running_sum.saturating_add(size);
        self.running_count = self.running_count + 1;
        self.next_admit = self.next_admit + 1;
        Some(idx)
    }

    /// Record that member `idx`, of size `size`, has finished encoding: it
    /// stops running and waits to be written.
    pub fn complete(&mut self, idx: usize, size: u64)
        requires
            old(self).wf(),
            old(self)@.next_write <= idx < old(self)@.next_admit,
            !old(self)@.done[idx as int],
        ensures
            final(self).wf(),
            final(self)@ == sched_step(old(self)@, SchedEvent::Complete { idx: idx as nat, size }).0,
            final(self)@.done == old(self)@.done.update(idx as int, true),
            final(self)@.next_admit == old(self)@.next_admit,
            final(self)@.next_write == old(self)@.next_write,
            final(self)@.running_sum == (if old(self)@.running_sum >= size { old(self)@.running_sum - size } else { 0 }),
            final(self)@.running_count == (if old(self)@.running_count > 0 { old(self)@.running_count - 1 } else { 0 }),
    {
        self.running_sum = self.running_sum.saturating_sub(size);
        if self.running_count > 0 {
            self.running_count = self.running_count - 1;
        }
        self.done.set(idx, true);
    }

    /// The next member to write, when it has finished: members are written
    /// strictly in selection order.
    pub fn take_writable(&mut self) -> (r: Option<usize>)
        requires
            old(self).wf(),
        ensures
            final(self).wf(),
            final(self)@ == sched_step(old(self)@, SchedEvent::Take).0,
            match r {
                Some(i) => sched_step(old(self)@, SchedEvent::Take).1 == Some(i as nat),
                None => sched_step(old(self)@, SchedEvent::Take).1 is None,
            },
            ({
                let o = old(self)@;
                let ready = o.next_write < o.done.len() && o.done[o.next_write as int];
                &&& ready ==> r == Some(o.next_write as usize) && final(self)@ == (ScheduleModel {
                    next_write: o.next_write + 1,
                    done: o.done.update(o.next_write as int, false),
                    ..o
                })
                &&& !ready ==> r is None && final(self)@ == o
            }),
    {
        let w = self.next_write;
        if w >= self.done.len() || !self.done[w] {
            return None;
        }
        self.done.set(w, false);
        self.next_write = w + 1;
        proof {
            assert forall|i: int| 0 <= i < self@.done.len() && #[trigger] self@.done[i] implies self@.next_write <= i
                < self@.next_admit by {
                assert(i != w);
            }
        }
        Some(w)
    }

    /// Nothing is running and a member is left that cannot be admitted.
    pub fn stuck(&self) -> (b: bool)
        ensures
            b == (self@.running_count == 0 && self@.next_admit < self@.done.len()),
    {
        self.running_count == 0 && self.next_admit < self.done.len()
    }

    /// Every member has been written.
    pub fn all_written(&self) -> (b: bool)
        ensures
            b == (self@.next_write == self@.done.len()),
    {
        self.next_write == self.done.len()
    }

    /// Members admitted so far.
    pub fn admitted(&self) -> (k: usize)
        ensures
            k == self@.next_admit,
    {
        self.next_admit
    }

    /// Jobs running now.
    pub fn running(&self) -> (k: usize)
        ensures
            k == self@.running_count,
    {
        self.running_count
    }
}

} // verus!
