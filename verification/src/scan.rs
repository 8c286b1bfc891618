//! The bounded scan orchestrator.
//!
//! The orchestrator owns the descriptor list for the duration of a scan and
//! tracks, for every descriptor, whether its probe is still pending, in
//! flight, or finished. A driver loop (outside this library, where the
//! network lives) repeatedly asks it which descriptor to probe next and hands
//! back each probe's result; the orchestrator guarantees that
//!
//! * at most `limit` probes are ever in flight at once,
//! * every descriptor is dispatched exactly once, in input order,
//! * one failed probe never removes or corrupts another's slot, and
//! * the finished scan holds exactly one outcome per input descriptor, in
//!   input order.

use vstd::prelude::*;

use crate::model::EndpointDescriptor;
use crate::model::MetadataRecord;
use crate::model::OutcomeView;
use crate::model::ProbeError;
use crate::model::ProbeOutcome;
use crate::model::ScanResult;

verus! {

/// What one finished probe reported: the decoded metadata, or the error that
/// stood in its place.
pub type ProbeReport = Result<MetadataRecord, ProbeError>;

/// How many of the slots already hold a report.
pub open spec fn count_done(s: Seq<Option<ProbeReport>>) -> int
    decreases s.len(),
{
    if s.len() == 0 {
        0
    } else {
        count_done(s.drop_last()) + if s.last() is Some {
            1int
        } else {
            0int
        }
    }
}

pub proof fn lemma_count_done_bounds(s: Seq<Option<ProbeReport>>)
    ensures
        0 <= count_done(s) <= s.len(),
    decreases s.len(),
{
    if s.len() > 0 {
        lemma_count_done_bounds(s.drop_last());
    }
}

/// A sequence that is empty from position `k` on holds at most `k` reports.
pub proof fn lemma_count_done_below(s: Seq<Option<ProbeReport>>, k: int)
    requires
        0 <= k <= s.len(),
        forall|j: int| k <= j < s.len() ==> s[j] is None,
    ensures
        count_done(s) <= k,
    decreases s.len(),
{
    if s.len() == 0 {
    } else if s.len() <= k {
        lemma_count_done_bounds(s);
    } else {
        assert(s.last() is None);
        assert forall|j: int| k <= j < s.len() - 1 implies s.drop_last()[j] is None by {
            assert(s.drop_last()[j] == s[j]);
        }
        lemma_count_done_below(s.drop_last(), k);
    }
}

/// Writing a report into a slot that held none raises the count by one.
pub proof fn lemma_count_done_update(s: Seq<Option<ProbeReport>>, i: int, v: ProbeReport)
    requires
        0 <= i < s.len(),
        s[i] is None,
    ensures
        count_done(s.update(i, Option::Some(v))) == count_done(s) + 1,
    decreases s.len(),
{
    let t = s.update(i, Option::Some(v));
    if i == s.len() - 1 {
        assert(t.drop_last() =~= s.drop_last());
    } else {
        assert(t.drop_last() =~= s.drop_last().update(i, Option::Some(v)));
        assert(t.last() == s.last());
        lemma_count_done_update(s.drop_last(), i, v);
    }
}

/// A full count means every slot holds a report.
pub proof fn lemma_count_done_full(s: Seq<Option<ProbeReport>>)
    requires
        count_done(s) == s.len(),
    ensures
        forall|i: int| 0 <= i < s.len() ==> s[i] is Some,
    decreases s.len(),
{
    if s.len() > 0 {
        lemma_count_done_bounds(s.drop_last());
        assert(s.last() is Some);
        lemma_count_done_full(s.drop_last());
        assert forall|i: int| 0 <= i < s.len() implies s[i] is Some by {
            if i < s.len() - 1 {
                assert(s[i] == s.drop_last()[i]);
            }
        }
    }
}

/// The outcome a finished slot stands for, once paired with its descriptor.
pub open spec fn report_outcome(d: EndpointDescriptor, r: ProbeReport) -> OutcomeView {
    match r {
        Result::Ok(m) => OutcomeView::Success { descriptor: d@, metadata: m@ },
        Result::Err(e) => OutcomeView::Failure { descriptor: d@, error: e },
    }
}

/// The bounded scan orchestrator: dispatches each descriptor once, admits at
/// most `limit` probes at a time, and collects exactly one report per
/// descriptor.
pub struct Orchestrator {
    /// The scan's input, in directory order; read-only for the whole scan.
    pub descriptors: Vec<EndpointDescriptor>,
    /// The concurrency ceiling; at least one.
    pub limit: usize,
    /// How many descriptors have been dispatched: exactly those with index
    /// below `next`, in input order.
    pub next: usize,
    /// One slot per descriptor; `Some` once that descriptor's probe has
    /// reported back.
    pub slots: Vec<Option<ProbeReport>>,
    /// How many slots hold a report.
    pub completed: usize,
}

impl Orchestrator {
    /// Number of descriptors in the scan.
    pub open spec fn total_spec(self) -> int {
        self.descriptors@.len() as int
    }

    /// Probes dispatched but not yet reported back.
    pub open spec fn in_flight_spec(self) -> int {
        self.next - self.completed
    }

    /// The orchestrator's invariant. It holds after construction and is
    /// preserved by every operation; the concurrency ceiling is the clause
    /// `in_flight_spec() <= limit`.
    pub open spec fn wf(self) -> bool {
        &&& 1 <= self.limit
        &&& self.slots@.len() == self.descriptors@.len()
        &&& self.next <= self.descriptors@.len()
        &&& (forall|i: int| self.next <= i < self.slots@.len() ==> self.slots@[i] is None)
        &&& self.completed == count_done(self.slots@)
        &&& self.completed <= self.next
        &&& self.in_flight_spec() <= self.limit
    }

    /// Starts a scan over `descriptors` with concurrency ceiling `limit`:
    /// nothing dispatched, nothing in flight, every slot empty.
    pub fn new(descriptors: Vec<EndpointDescriptor>, limit: usize) -> (r: Self)
        requires
            1 <= limit,
        ensures
            r.wf(),
            r.descriptors == descriptors,
            r.limit == limit,
            r.next == 0,
            r.completed == 0,
    {
        let n = descriptors.len();
        let mut slots: Vec<Option<ProbeReport>> = Vec::new();
        let mut i: usize = 0;
        while i < n
            invariant
                i <= n,
                slots@.len() == i,
                forall|j: int| 0 <= j < i ==> slots@[j] is None,
                count_done(slots@) == 0,
            decreases n - i,
        {
            proof {
                assert(slots@.push(Option::<ProbeReport>::None).drop_last() =~= slots@);
            }
            slots.push(Option::None);
            i = i + 1;
        }
        Orchestrator { descriptors, limit, next: 0, slots, completed: 0 }
    }

    /// Number of descriptors in the scan.
    pub fn total(&self) -> (r: usize)
        ensures
            r == self.total_spec(),
    {
        self.descriptors.len()
    }

    /// Probes currently in flight.
    pub fn in_flight(&self) -> (r: usize)
        requires
            self.wf(),
        ensures
            r == self.in_flight_spec(),
    {
        self.next - self.completed
    }

    /// Reports collected so far.
    pub fn completed_count(&self) -> (r: usize)
        ensures
            r == self.completed,
    {
        self.completed
    }

    /// Whether another probe may start now: some descriptor is still
    /// undispatched and the concurrency ceiling leaves room.
    pub fn can_dispatch(&self) -> (r: bool)
        requires
            self.wf(),
        ensures
            r == (self.next < self.total_spec() && self.in_flight_spec() < self.limit),
    {
        self.next < self.descriptors.len() && self.next - self.completed < self.limit
    }

    /// The descriptor at a given scan position, for the driver to probe.
    pub fn descriptor_at(&self, i: usize) -> (r: &EndpointDescriptor)
        requires
            i < self.total_spec(),
        ensures
            r == self.descriptors@[i as int],
    {
        &self.descriptors[i]
    }

    /// Admits the next probe: returns the position whose descriptor must now
    /// be probed. Dispatch order is input order, and dispatching occupies one
    /// unit of the concurrency ceiling until `complete` hands the report
    /// back.
    pub fn dispatch(&mut self) -> (idx: usize)
        requires
            old(self).wf(),
            old(self).next < old(self).total_spec(),
            old(self).in_flight_spec() < old(self).limit,
        ensures
            final(self).wf(),
            idx == old(self).next,
            final(self).next == old(self).next + 1,
            final(self).descriptors == old(self).descriptors,
            final(self).slots == old(self).slots,
            final(self).completed == old(self).completed,
            final(self).limit == old(self).limit,
            final(self).in_flight_spec() == old(self).in_flight_spec() + 1,
    {
        let n = self.descriptors.len();
        let idx = self.next;
        assert(idx < n);
        self.next = idx + 1;
        idx
    }

    /// Whether position `i` was dispatched and its report is still owed.
    pub fn is_pending(&self, i: usize) -> (r: bool)
        requires
            self.wf(),
            i < self.total_spec(),
        ensures
            r == (i < self.next && self.slots@[i as int] is None),
    {
        i < self.next && self.slots[i].is_none()
    }

    /// Records the report of the probe at position `i` — success and failure
    /// travel the same road, so a failing probe fills its slot like any
    /// other and the scan goes on. Exactly this one slot changes, and the
    /// unit of concurrency the probe held is released.
    pub fn complete(&mut self, i: usize, report: ProbeReport)
        requires
            old(self).wf(),
            i < old(self).next,
            old(self).slots@[i as int] is None,
        ensures
            final(self).wf(),
            final(self).slots@ == old(self).slots@.update(i as int, Option::Some(report)),
            final(self).completed == old(self).completed + 1,
            final(self).next == old(self).next,
            final(self).descriptors == old(self).descriptors,
            final(self).limit == old(self).limit,
            final(self).in_flight_spec() == old(self).in_flight_spec() - 1,
    {
        let n = self.slots.len();
        proof {
            lemma_count_done_update(self.slots@, i as int, report);
            let t = self.slots@.update(i as int, Option::Some(report));
            assert forall|j: int| self.next <= j < t.len() implies t[j] is None by {
                assert(t[j] == self.slots@[j]);
            }
            lemma_count_done_below(t, self.next as int);
        }
        assert(self.completed < n);
        self.slots.set(i, Option::Some(report));
        self.completed = self.completed + 1;
    }

    /// Whether every descriptor's report has been collected. The scan ends
    /// exactly when the number of collected reports reaches the number of
    /// descriptors — not earlier, not later.
    pub fn is_done(&self) -> (r: bool)
        requires
            self.wf(),
        ensures
            r == (self.completed == self.total_spec()),
    {
        self.completed == self.descriptors.len()
    }

    /// Closes the scan: pairs every descriptor with its report, in input
    /// order. The result has exactly one outcome per input descriptor — the
    /// outcome at position `i` speaks of descriptor `i` and carries the very
    /// report that `complete` recorded for it.
    pub fn finish(self) -> (r: ScanResult)
        requires
            self.wf(),
            self.completed == self.total_spec(),
        ensures
            r@.len() == self.descriptors@.len(),
            forall|i: int|
                0 <= i < r@.len() ==> r@[i] == report_outcome(
                    self.descriptors@[i],
                    self.slots@[i]->0,
                ),
    {
        proof {
            lemma_count_done_bounds(self.slots@);
            lemma_count_done_full(self.slots@);
        }
        let Orchestrator { mut descriptors, mut slots, .. } = self;
        let ghost ds = descriptors@;
        let ghost ss = slots@;
        let n = descriptors.len();
        let mut rev: Vec<ProbeOutcome> = Vec::new();
        while descriptors.len() > 0
            invariant
                slots@.len() == descriptors@.len(),
                descriptors@ =~= ds.take(descriptors@.len() as int),
                slots@ =~= ss.take(slots@.len() as int),
                forall|i: int| 0 <= i < ss.len() ==> ss[i] is Some,
                ds.len() == ss.len() == n,
                rev@.len() == n - descriptors@.len(),
                forall|j: int|
                    0 <= j < rev@.len() ==> rev@[j]@ == report_outcome(
                        ds[n - 1 - j],
                        ss[n - 1 - j]->0,
                    ),
            decreases descriptors@.len(),
        {
            let d = descriptors.pop().unwrap();
            let s = slots.pop().unwrap();
            let report = s.unwrap();
            let outcome = match report {
                Result::Ok(m) => ProbeOutcome::Success { descriptor: d, metadata: m },
                Result::Err(e) => ProbeOutcome::Failure { descriptor: d, error: e },
            };
            rev.push(outcome);
        }
        let mut outcomes: Vec<ProbeOutcome> = Vec::new();
        while rev.len() > 0
            invariant
                rev@.len() + outcomes@.len() == n,
                forall|j: int|
                    0 <= j < rev@.len() ==> rev@[j]@ == report_outcome(
                        ds[n - 1 - j],
                        ss[n - 1 - j]->0,
                    ),
                forall|i: int|
                    0 <= i < outcomes@.len() ==> outcomes@[i]@ == report_outcome(
                        ds[i],
                        ss[i]->0,
                    ),
            decreases rev@.len(),
        {
            let o = rev.pop().unwrap();
            outcomes.push(o);
        }
        ScanResult { outcomes }
    }
}

/// Ceiling of `n / limit`: the number of full-ceiling waves a scan of `n`
/// descriptors needs when every wave runs `limit` probes to completion, and
/// so the factor on the per-probe timeout that bounds a scan's worst-case
/// duration.
pub open spec fn waves_spec(n: int, limit: int) -> int {
    (n + limit - 1) / limit
}

/// Worst-case number of probe waves for `n` descriptors under ceiling
/// `limit`.
pub fn waves(n: usize, limit: usize) -> (r: usize)
    requires
        1 <= limit,
        n <= usize::MAX - limit,
    ensures
        r == waves_spec(n as int, limit as int),
{
    (n + limit - 1) / limit
}

} // verus!
