//! Simulation time, kept as a resource of the world.
use vstd::prelude::*;
use std::time::Duration;

verus! {

/// Nanoseconds in a second.
pub const NANOS_PER_SEC: u128 = 1_000_000_000;

/// The length of one simulation step: ten milliseconds, in nanoseconds.
pub const TIME_STEP_NANOS: u128 = 10_000_000;

/// The longest span a `Duration` can hold, in nanoseconds.
pub const MAX_DURATION_NANOS: u128 = 18_446_744_073_709_551_615 * 1_000_000_000 + 999_999_999;

/// What `Duration::new` returns for `secs` seconds and `nanos` nanoseconds.
pub uninterp spec fn duration_from_parts(secs: u64, nanos: u32) -> Duration;

/// Calls `Duration::new`, which is trusted to return `duration_from_parts(secs, nanos)`; with
/// fewer than a second of nanoseconds it cannot overflow and so does not panic.
#[verifier::external_body]
fn new_duration(secs: u64, nanos: u32) -> (d: Duration)
    requires
        nanos < NANOS_PER_SEC,
    ensures
        d == duration_from_parts(secs, nanos),
{
    Duration::new(secs, nanos)
}

/// The `Duration` of `nanos` nanoseconds, as whole seconds and the nanoseconds left over.
pub open spec fn duration_of_nanos(nanos: u128) -> Duration {
    duration_from_parts((nanos / NANOS_PER_SEC) as u64, (nanos % NANOS_PER_SEC) as u32)
}

/// A span of nanoseconds reads as the `Duration` that `Duration::new` builds from any pair of
/// whole seconds and leftover nanoseconds (under a second) that adds up to the span: the whole
/// seconds are kept, not only the part under a second.
pub proof fn lemma_duration_of_nanos_parts(nanos: u128, secs: u64, subsec: u32)
    requires
        secs * NANOS_PER_SEC + subsec == nanos,
        subsec < NANOS_PER_SEC,
    ensures
        duration_of_nanos(nanos) == duration_from_parts(secs, subsec),
{
    vstd::arithmetic::div_mod::lemma_fundamental_div_mod_converse(
        nanos as int,
        NANOS_PER_SEC as int,
        secs as int,
        subsec as int,
    );
}

/// After `k` steps of ten milliseconds the simulated time reads as `k / 100` whole seconds and
/// `k % 100` hundredths of a second; a hundred steps, for instance, read as one second.
pub proof fn lemma_steps_read_as_seconds(k: nat)
    requires
        k * TIME_STEP_NANOS <= MAX_DURATION_NANOS,
    ensures
        duration_of_nanos((k * TIME_STEP_NANOS) as u128) == duration_from_parts(
            (k / 100) as u64,
            ((k % 100) * 10_000_000) as u32,
        ),
{
    let q = k / 100;
    let r = k % 100;
    vstd::arithmetic::div_mod::lemma_fundamental_div_mod(k as int, 100);
    assert(k == 100 * q + r && r < 100);
    assert(q * NANOS_PER_SEC + r * 10_000_000 == k * TIME_STEP_NANOS) by (nonlinear_arith)
        requires
            k == 100 * q + r,
    ;
    assert(q <= u64::MAX) by (nonlinear_arith)
        requires
            q * NANOS_PER_SEC + r * 10_000_000 <= MAX_DURATION_NANOS,
            r >= 0,
    ;
    lemma_duration_of_nanos_parts((k * TIME_STEP_NANOS) as u128, q as u64, (r * 10_000_000) as u32);
}

/// The time that has been simulated so far and the length of the last step, in nanoseconds.
#[derive(Debug, Clone, Copy)]
pub struct Time {
    since_startup_nanos: u128,
    dt_nanos: u128,
}

impl Time {
    /// Both spans fit in a `Duration`.
    #[verifier::type_invariant]
    spec fn fits(self) -> bool {
        self.since_startup_nanos <= MAX_DURATION_NANOS && self.dt_nanos <= MAX_DURATION_NANOS
    }

    /// The time simulated since the start, in nanoseconds.
    pub closed spec fn spec_since_startup(self) -> nat {
        self.since_startup_nanos as nat
    }

    /// The length of the last simulated step, in nanoseconds.
    pub closed spec fn spec_dt(self) -> nat {
        self.dt_nanos as nat
    }

    /// Advances the time by one step of `TIME_STEP_NANOS`, which also becomes the length of the
    /// last step. The sum must still fit in a `Duration`.
    pub fn advance(&mut self)
        requires
            old(self).spec_since_startup() + TIME_STEP_NANOS <= MAX_DURATION_NANOS,
        ensures
            final(self).spec_since_startup() == old(self).spec_since_startup() + TIME_STEP_NANOS,
            final(self).spec_dt() == TIME_STEP_NANOS,
    {
        let since = self.since_startup_nanos + TIME_STEP_NANOS;
        *self = Time { since_startup_nanos: since, dt_nanos: TIME_STEP_NANOS };
    }

    /// The time simulated since the start, in nanoseconds.
    pub fn since_startup_nanos(&self) -> (n: u128)
        ensures
            n == self.spec_since_startup(),
    {
        self.since_startup_nanos
    }

    /// The length of the last simulated step.
    pub fn dt(&self) -> (d: Duration)
        ensures
            d == duration_of_nanos(self.spec_dt() as u128),
            forall|secs: u64, subsec: u32|
                secs * NANOS_PER_SEC + subsec == self.spec_dt() && subsec < NANOS_PER_SEC ==> d
                    == #[trigger] duration_from_parts(secs, subsec),
    {
        proof {
            use_type_invariant(self);
            assert(self.dt_nanos / NANOS_PER_SEC <= u64::MAX);
            assert forall|secs: u64, subsec: u32|
                secs * NANOS_PER_SEC + subsec == self.spec_dt() && subsec < NANOS_PER_SEC implies duration_of_nanos(
                self.dt_nanos,
            ) == #[trigger] duration_from_parts(secs, subsec) by {
                lemma_duration_of_nanos_parts(self.dt_nanos, secs, subsec);
            }
        }
        new_duration((self.dt_nanos / NANOS_PER_SEC) as u64, (self.dt_nanos % NANOS_PER_SEC) as u32)
    }

    /// The time simulated since the start.
    pub fn time_since_startup(&self) -> (d: Duration)
        ensures
            d == duration_of_nanos(self.spec_since_startup() as u128),
            forall|secs: u64, subsec: u32|
                secs * NANOS_PER_SEC + subsec == self.spec_since_startup() && subsec < NANOS_PER_SEC ==> d
                    == #[trigger] duration_from_parts(secs, subsec),
    {
        proof {
            use_type_invariant(self);
            assert(self.since_startup_nanos / NANOS_PER_SEC <= u64::MAX);
            assert forall|secs: u64, subsec: u32|
                secs * NANOS_PER_SEC + subsec == self.spec_since_startup() && subsec < NANOS_PER_SEC implies duration_of_nanos(
                self.since_startup_nanos,
            ) == #[trigger] duration_from_parts(secs, subsec) by {
                lemma_duration_of_nanos_parts(self.since_startup_nanos, secs, subsec);
            }
        }
        new_duration(
            (self.since_startup_nanos / NANOS_PER_SEC) as u64,
            (self.since_startup_nanos % NANOS_PER_SEC) as u32,
        )
    }
}

impl Default for Time {
    /// No time simulated yet and no step taken.
    fn default() -> (t: Self)
        ensures
            t.spec_since_startup() == 0,
            t.spec_dt() == 0,
    {
        Time { since_startup_nanos: 0, dt_nanos: 0 }
    }
}

} // verus!
