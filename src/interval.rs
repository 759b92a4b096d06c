//! The sampling period and the steps by which the user adjusts it.
use vstd::prelude::*;

verus! {

/// The period below which a decrease no longer steps down.
pub const FLOOR_MS: u64 = 100;

/// The period after one increase: half a second more from one second up,
/// a tenth of a second more below that, saturating at the largest period.
pub open spec fn increased(p: u64) -> u64 {
    if p >= 1000 {
        if p as int + 500 > u64::MAX {
            u64::MAX
        } else {
            (p + 500) as u64
        }
    } else {
        (p + 100) as u64
    }
}

/// The period after one decrease: half a second less from one and a half
/// seconds up, the floor at or below the floor, a tenth of a second less in between.
pub open spec fn decreased(p: u64) -> u64 {
    if p >= 1500 {
        (p - 500) as u64
    } else if p <= 100 {
        100
    } else {
        (p - 100) as u64
    }
}

pub open spec fn increased_times(p: u64, n: nat) -> u64
    decreases n,
{
    if n == 0 {
        p
    } else {
        increased(increased_times(p, (n - 1) as nat))
    }
}

pub open spec fn decreased_times(p: u64, n: nat) -> u64
    decreases n,
{
    if n == 0 {
        p
    } else {
        decreased_times(decreased(p), (n - 1) as nat)
    }
}

/// The period, in milliseconds, at which the loop samples and redraws.
pub struct IntervalController {
    period_ms: u64,
}

impl View for IntervalController {
    type V = u64;

    closed spec fn view(&self) -> u64 {
        self.period_ms
    }
}

impl IntervalController {
    #[verifier::type_invariant]
    spec fn inv(&self) -> bool {
        self.period_ms > 0
    }

    /// A controller at the given period, which must not be zero.
    pub fn new(period_ms: u64) -> (r: IntervalController)
        requires
            period_ms > 0,
        ensures
            r@ == period_ms,
    {
        IntervalController { period_ms }
    }

    pub fn period_ms(&self) -> (r: u64)
        ensures
            r == self@,
            r > 0,
    {
        proof {
            use_type_invariant(self);
        }
        self.period_ms
    }

    /// Lengthens the period; the new period applies from the next tick.
    pub fn increase(&mut self)
        ensures
            final(self)@ == increased(old(self)@),
    {
        proof {
            use_type_invariant(&*self);
        }
        let p = self.period_ms;
        self.period_ms = if p >= 1000 {
            p.saturating_add(500)
        } else {
            p + 100
        };
    }

    /// Shortens the period; the new period applies from the next tick.
    pub fn decrease(&mut self)
        ensures
            final(self)@ == decreased(old(self)@),
    {
        proof {
            use_type_invariant(&*self);
        }
        let p = self.period_ms;
        self.period_ms = if p >= 1500 {
            p - 500
        } else if p <= FLOOR_MS {
            FLOOR_MS
        } else {
            p - 100
        };
    }
}

/// Repeated decreases from a period that is a whole number of tenths of a
/// second, or that is at most the floor, never give a period below the floor.
pub proof fn lemma_decrease_floor(p: u64, n: nat)
    requires
        p > 0,
        p % 100 == 0 || p <= 100,
        n >= 1,
    ensures
        decreased_times(p, n) >= 100,
    decreases n,
{
    let q = decreased(p);
    assert(q >= 100 && q % 100 == 0);
    if n > 1 {
        lemma_decrease_floor(q, (n - 1) as nat);
    } else {
        assert(decreased_times(q, 0) == q);
    }
}

/// Repeated increases never shorten the period: after more increases the
/// period is at least as long.
pub proof fn lemma_increase_monotone(p: u64, m: nat, n: nat)
    requires
        m <= n,
    ensures
        increased_times(p, m) <= increased_times(p, n),
    decreases n,
{
    if m < n {
        lemma_increase_monotone(p, m, (n - 1) as nat);
    }
}

} // verus!
