//! Randomised pauses and exponential backoff.
use vstd::arithmetic::power2::pow2;
use vstd::prelude::*;

use rand::Rng;

verus! {

/// A pause between `min_ms` and `max_ms` milliseconds, both included.
#[derive(Clone, Copy, Debug, PartialEq, Eq, Structural)]
pub struct Pause {
    pub min_ms: u64,
    pub max_ms: u64,
}

/// Draws a number from `low..=high` with `rand::Rng::gen_range` on `rand::thread_rng()`.
///
/// `gen_range` panics on an empty range, so `low <= high` is asked for. Of the number drawn, only
/// that it lies in the range is claimed. The generator itself panics where the operating system
/// gives it no seed, which no argument decides.
#[verifier::external_body]
fn random_in(low: u64, high: u64) -> (drawn: u64)
    requires
        low <= high,
    ensures
        low <= drawn <= high,
{
    rand::thread_rng().gen_range(low..=high)
}

impl Pause {
    /// The pause names at least one duration.
    pub open spec fn wf(self) -> bool {
        self.min_ms <= self.max_ms
    }

    /// Draws the duration of the pause, in milliseconds.
    pub fn draw_ms(&self) -> (ms: u64)
        requires
            self.wf(),
        ensures
            self.min_ms <= ms <= self.max_ms,
    {
        random_in(self.min_ms, self.max_ms)
    }
}

/// Number of doublings after which a backoff no longer grows.
pub const MAX_BACKOFF_DOUBLINGS: u64 = 6;

/// Milliseconds that the shortest backoff lasts at least.
pub const BACKOFF_UNIT_MS: u64 = 200;

/// What the unit of a backoff is multiplied with after `failures` earlier failures: it doubles with
/// each of them, up to a cap.
pub open spec fn backoff_factor(failures: nat) -> nat {
    pow2(if failures <= MAX_BACKOFF_DOUBLINGS as nat { failures } else { MAX_BACKOFF_DOUBLINGS as nat })
}

/// The backoff after `failures` earlier failures: the unit times its factor, and less than one unit
/// of jitter on top.
pub open spec fn backoff(failures: nat) -> Pause {
    Pause {
        min_ms: (backoff_factor(failures) * BACKOFF_UNIT_MS) as u64,
        max_ms: (backoff_factor(failures) * BACKOFF_UNIT_MS + BACKOFF_UNIT_MS - 1) as u64,
    }
}

/// The backoff after `failures` earlier failures.
pub fn backoff_pause(failures: u64) -> (pause: Pause)
    ensures
        pause == backoff(failures as nat),
        pause.wf(),
{
    let doublings: u64 = if failures < MAX_BACKOFF_DOUBLINGS { failures } else { MAX_BACKOFF_DOUBLINGS };
    let factor: u64 = 1u64 << doublings;
    assert(1 <= factor <= 64) by (bit_vector)
        requires
            doublings <= 6,
            factor == 1u64 << doublings,
    ;
    proof {
        vstd::bits::lemma_u64_pow2_no_overflow(doublings as nat);
        vstd::bits::lemma_u64_shl_is_mul(1u64, doublings);
    }
    Pause { min_ms: factor * BACKOFF_UNIT_MS, max_ms: factor * BACKOFF_UNIT_MS + (BACKOFF_UNIT_MS - 1) }
}

proof fn lemma_factor_bounds(failures: nat)
    ensures
        1 <= backoff_factor(failures) <= 64,
        backoff(failures).min_ms == backoff_factor(failures) * BACKOFF_UNIT_MS,
        backoff(failures).max_ms == backoff_factor(failures) * BACKOFF_UNIT_MS + BACKOFF_UNIT_MS - 1,
{
    vstd::arithmetic::power2::lemma2_to64();
    if failures <= 6 {
        assert(failures == 0 || failures == 1 || failures == 2 || failures == 3 || failures == 4
            || failures == 5 || failures == 6);
    }
}

/// A backoff lasts at least one unit; with every failure it lasts twice as long, until it has reached its
/// cap, and then as long as before.
pub proof fn law_backoff_doubles(failures: nat)
    ensures
        backoff(0).min_ms == BACKOFF_UNIT_MS,
        failures < MAX_BACKOFF_DOUBLINGS ==> backoff(failures + 1).min_ms == 2 * backoff(failures).min_ms,
        failures >= MAX_BACKOFF_DOUBLINGS ==> backoff(failures) == backoff(
            MAX_BACKOFF_DOUBLINGS as nat,
        ),
        backoff(MAX_BACKOFF_DOUBLINGS as nat).min_ms == 12_800,
        backoff(failures).max_ms == backoff(failures).min_ms + (BACKOFF_UNIT_MS - 1),
{
    lemma_factor_bounds(failures);
    lemma_factor_bounds(failures + 1);
    lemma_factor_bounds(0);
    lemma_factor_bounds(6);
    vstd::arithmetic::power2::lemma2_to64();
    if failures < MAX_BACKOFF_DOUBLINGS {
        vstd::arithmetic::power2::lemma_pow2_unfold(failures + 1);
    }
}

/// A backoff lasts 200 ms at first, and twice as long after each failure, but no longer than 12.8 s; and up to
/// 199 ms are added at random.
pub proof fn law_backoff_in_milliseconds(failures: nat)
    ensures
        backoff(0).min_ms == 200,
        backoff(failures + 1).min_ms == if backoff(failures).min_ms < 12_800 {
            2 * backoff(failures).min_ms
        } else {
            12_800
        },
        backoff(failures).min_ms <= 12_800,
        backoff(failures).max_ms == backoff(failures).min_ms + 199,
{
    lemma_factor_bounds(failures);
    lemma_factor_bounds(failures + 1);
    lemma_factor_bounds(0);
    vstd::arithmetic::power2::lemma2_to64();
    if failures < 6 {
        assert(failures == 0 || failures == 1 || failures == 2 || failures == 3 || failures == 4
            || failures == 5);
    }
}

} // verus!
