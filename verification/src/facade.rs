//! How long to hold off between the attempts to take a lock that is in use.
use vstd::arithmetic::power2::pow2;
use vstd::prelude::*;

verus! {

/// The attempts that are made between two sleeps.
pub const ATTEMPTS: u32 = 10;

/// The first sleep takes two to this power of nanoseconds.
pub const FIRST_EXPONENT: u32 = 4;

/// No sleep takes two to this power of nanoseconds: it would not fit the word.
pub const EXPONENT_LIMIT: u32 = 64;

/// What to do before the next attempt to take the lock.
#[derive(Copy, Clone, Debug, Eq, PartialEq)]
pub enum Pause {
    /// Let other threads run.
    Yield,
    /// Let other threads run, then sleep for this many nanoseconds.
    YieldThenSleep(u64),
}

/// Whether this is what to do after the lock was found in use for the
/// `failures`-th time: every tenth time a sleep, each twice as long as the one
/// before.
pub open spec fn is_pause_after(pause: Pause, failures: nat) -> bool {
    match pause {
        Pause::Yield => failures % (ATTEMPTS as nat) != 0,
        Pause::YieldThenSleep(nanos) => {
            &&& failures % (ATTEMPTS as nat) == 0
            &&& nanos == pow2((FIRST_EXPONENT + failures / (ATTEMPTS as nat) - 1) as nat)
        },
    }
}

/// How often a lock was found in use.
pub struct Backoff {
    attempts: u32,
    exponent: u32,
}

impl View for Backoff {
    type V = nat;

    /// The failed attempts so far.
    closed spec fn view(&self) -> nat {
        ((self.exponent - FIRST_EXPONENT) * ATTEMPTS + self.attempts) as nat
    }
}

impl Backoff {
    /// What every operation keeps.
    pub closed spec fn wf(&self) -> bool {
        &&& self.attempts < ATTEMPTS
        &&& FIRST_EXPONENT <= self.exponent <= EXPONENT_LIMIT
    }

    /// The failed attempts after which the next sleep would be too long for the word.
    pub open spec fn limit() -> nat {
        ((EXPONENT_LIMIT - FIRST_EXPONENT + 1) * ATTEMPTS - 1) as nat
    }

    /// No attempt so far.
    pub fn new() -> (backoff: Backoff)
        ensures
            backoff.wf(),
            backoff@ == 0,
    {
        Backoff { attempts: 0, exponent: FIRST_EXPONENT }
    }

    /// Whether the next sleep would be too long for the word.
    pub fn is_exhausted(&self) -> (exhausted: bool)
        requires
            self.wf(),
        ensures
            exhausted == (self@ >= Backoff::limit()),
    {
        self.exponent == EXPONENT_LIMIT && self.attempts == ATTEMPTS - 1
    }
}

/// Decides what to do before the next attempt, after one that found the lock in use.
pub fn wait_lock(backoff: &mut Backoff) -> (pause: Pause)
    requires
        old(backoff).wf(),
        old(backoff)@ < Backoff::limit(),
    ensures
        final(backoff).wf(),
        final(backoff)@ == old(backoff)@ + 1,
        is_pause_after(pause, final(backoff)@),
{
    backoff.attempts = backoff.attempts + 1;
    if backoff.attempts < ATTEMPTS {
        return Pause::Yield;
    }
    let exponent = backoff.exponent;
    backoff.attempts = 0;
    backoff.exponent = exponent + 1;
    proof {
        vstd::arithmetic::power2::lemma2_to64();
        vstd::arithmetic::power2::lemma2_to64_rest();
        if exponent < 63 {
            vstd::arithmetic::power2::lemma_pow2_strictly_increases(exponent as nat, 63);
        }
        vstd::bits::lemma_u64_shl_is_mul(1, exponent as u64);
    }
    Pause::YieldThenSleep(1u64 << exponent)
}

/// A lock is tried ten times before each sleep, the first of which takes 16
/// nanoseconds; the sleeps up to the limit are those that a 64-bit word can hold.
pub proof fn law_when_to_sleep(failures: nat, nanos: u64)
    requires
        failures > 0,
    ensures
        is_pause_after(Pause::Yield, failures) <==> failures % 10 != 0,
        is_pause_after(Pause::YieldThenSleep(nanos), failures) <==> failures % 10 == 0 && nanos
            == 8 * pow2(failures / 10),
        Backoff::limit() == 609,
{
    if failures % 10 == 0 {
        vstd::arithmetic::power2::lemma_pow2_adds(3, failures / 10);
        vstd::arithmetic::power2::lemma2_to64();
    }
}

/// Each sleep takes twice as long as the one before.
pub proof fn law_sleeps_double(failures: nat, nanos: u64, next_nanos: u64)
    requires
        failures > 0,
        is_pause_after(Pause::YieldThenSleep(nanos), failures),
        is_pause_after(Pause::YieldThenSleep(next_nanos), failures + ATTEMPTS as nat),
    ensures
        next_nanos == 2 * nanos,
{
    let exponent = (FIRST_EXPONENT + failures / (ATTEMPTS as nat) - 1) as nat;
    vstd::arithmetic::power2::lemma_pow2_unfold(exponent + 1);
}

} // verus!
