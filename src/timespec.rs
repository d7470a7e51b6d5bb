//! Absolute-deadline pacing of sweeps on the monotonic clock.
use vstd::prelude::*;

verus! {

pub const NANOS_PER_SEC: i64 = 1_000_000_000;

/// A monotonic instant: seconds and nanoseconds.
#[derive(Clone, Copy, Debug, PartialEq, Eq, Structural)]
pub struct Timespec {
    pub tv_sec: i64,
    pub tv_nsec: i64,
}

/// The instant in nanoseconds.
pub open spec fn total_ns(t: Timespec) -> int {
    t.tv_sec * 1_000_000_000 + t.tv_nsec
}

/// An instant whose nanoseconds lie within one second.
pub open spec fn ts_wf(t: Timespec) -> bool {
    0 <= t.tv_nsec < 1_000_000_000
}

/// Adds nanoseconds below one second to a nanosecond field, wrapping past a second;
/// says whether it wrapped.
pub fn add_nanos(v: &mut i64, nanos: u32) -> (carry: bool)
    requires
        0 <= *old(v) < NANOS_PER_SEC,
        nanos < 1_000_000_000,
    ensures
        0 <= *final(v) < NANOS_PER_SEC,
        *final(v) + (if carry { NANOS_PER_SEC as int } else { 0 }) == *old(v) + nanos,
{
    *v = *v + nanos as i64;
    if *v >= NANOS_PER_SEC {
        *v = *v - NANOS_PER_SEC;
        true
    } else {
        false
    }
}

impl Timespec {
    /// Moves the instant later by `secs` seconds and `nanos` nanoseconds.
    pub fn add_assign(&mut self, secs: u64, nanos: u32)
        requires
            ts_wf(*old(self)),
            nanos < 1_000_000_000,
            secs <= i64::MAX,
            old(self).tv_sec + secs + 1 <= i64::MAX,
        ensures
            ts_wf(*final(self)),
            total_ns(*final(self)) == total_ns(*old(self)) + secs * 1_000_000_000 + nanos,
    {
        let ghost s0 = self.tv_sec as int;
        let ghost n0 = self.tv_nsec as int;
        let carry = add_nanos(&mut self.tv_nsec, nanos);
        self.tv_sec = self.tv_sec + secs as i64 + if carry { 1 } else { 0 };
        let ghost s1 = self.tv_sec as int;
        let ghost n1 = self.tv_nsec as int;
        let ghost c: int = if carry { 1 } else { 0 };
        assert(s1 * 1_000_000_000 + n1 == s0 * 1_000_000_000 + n0 + secs * 1_000_000_000 + nanos)
            by (nonlinear_arith)
            requires
                s1 == s0 + secs + c,
                n1 + c * 1_000_000_000 == n0 + nanos,
        ;
    }
}

/// The pacing of a run of sweeps: the next deadline and the sweeps still to run.
pub struct Pacer {
    pub deadline: Timespec,
    /// Sweeps left to run; zero when unbounded.
    pub remaining: u32,
    /// The period in whole seconds and nanoseconds; one sweep only when absent.
    pub period: Option<(u64, u32)>,
}

/// What to do after a sweep.
#[derive(Clone, Copy, Debug, PartialEq, Eq, Structural)]
pub enum PaceAction {
    /// Sleep until the instant, then run the next sweep.
    SleepUntil(Timespec),
    /// No sweep is left.
    Stop,
}

impl Pacer {
    /// Pacing that starts at `now`.
    pub fn new(now: Timespec, count: Option<u32>, period: Option<(u64, u32)>) -> (r: Self)
        ensures
            r.deadline == now,
            r.remaining == match count {
                Some(c) => c,
                None => 0u32,
            },
            r.period == period,
    {
        Pacer {
            deadline: now,
            remaining: match count {
                Some(c) => c,
                None => 0,
            },
            period,
        }
    }

    /// Decides what follows a sweep. A bounded run stops after its last sweep; without a
    /// period the run stops after one sweep; otherwise the deadline moves one period
    /// later, however long the sweep took.
    pub fn after_sweep(&mut self) -> (r: PaceAction)
        requires
            ts_wf(old(self).deadline),
            old(self).period matches Some((s, n)) ==> n < 1_000_000_000 && s <= i64::MAX
                && old(self).deadline.tv_sec + s + 1 <= i64::MAX,
        ensures
            final(self).period == old(self).period,
            ts_wf(final(self).deadline),
            final(self).remaining == if old(self).remaining == 0 {
                0
            } else {
                (old(self).remaining - 1) as u32
            },
            (old(self).remaining == 1 || old(self).period is None) ==> r == PaceAction::Stop
                && final(self).deadline == old(self).deadline,
            (old(self).remaining != 1 && old(self).period is Some) ==> r == PaceAction::SleepUntil(
                final(self).deadline,
            ) && total_ns(final(self).deadline) == total_ns(old(self).deadline)
                + old(self).period.unwrap().0 * 1_000_000_000 + old(self).period.unwrap().1,
    {
        if self.remaining != 0 {
            self.remaining = self.remaining - 1;
            if self.remaining == 0 {
                return PaceAction::Stop;
            }
        }
        match self.period {
            Some((s, n)) => {
                self.deadline.add_assign(s, n);
                PaceAction::SleepUntil(self.deadline)
            },
            None => PaceAction::Stop,
        }
    }
}

/// Deadlines that each lie one period after the one before lie on a grid: the `k`-th
/// is the first plus `k` periods, whatever happened between them, so overrunning
/// sweeps cause no drift.
pub proof fn lemma_pacing_no_drift(d: Seq<int>, p: int, k: nat)
    requires
        k < d.len(),
        forall|i: int| 0 <= i < k ==> #[trigger] d[i + 1] == d[i] + p,
    ensures
        d[k as int] == d[0] + k * p,
    decreases k,
{
    if k > 0 {
        lemma_pacing_no_drift(d, p, (k - 1) as nat);
        let j = k - 1;
        assert(d[j + 1] == d[j] + p);
        assert(d[0] + (k - 1) * p + p == d[0] + k * p) by (nonlinear_arith);
    }
}

} // verus!
