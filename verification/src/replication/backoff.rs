//! Exponential backoff with jitter, in milliseconds.
//!
//! Starts at one second and multiplies by the factor on every retry, up to
//! the ceiling of one minute; each delay is drawn with ±25% jitter.

use vstd::prelude::*;

verus! {

/// Relies on `fastrand::u64` over `lo..=hi`: a value within the bounds.
#[verifier::external_body]
fn random_in_range(lo: u64, hi: u64) -> (r: u64)
    requires
        lo <= hi,
    ensures
        lo <= r <= hi,
{
    fastrand::u64(lo..=hi)
}

/// Exponential backoff calculator with jitter.
#[derive(Debug)]
pub struct ExponentialBackoff {
    /// The next undithered delay, in milliseconds.
    pub current_ms: u64,
    /// The starting delay.
    pub min_ms: u64,
    /// The ceiling.
    pub max_ms: u64,
    /// Multiplier applied after every draw.
    pub factor: u32,
    /// Draws since the last reset.
    pub attempts: u64,
}

impl ExponentialBackoff {
    /// The default policy: 1 s doubling up to 60 s.
    pub fn new() -> (b: ExponentialBackoff)
        ensures
            b.current_ms == 1000,
            b.min_ms == 1000,
            b.max_ms == 60000,
            b.factor == 2,
            b.attempts == 0,
    {
        ExponentialBackoff::with_params(1000, 60000, 2)
    }

    /// A custom policy, delays in milliseconds.
    pub fn with_params(min_ms: u64, max_ms: u64, factor: u32) -> (b: ExponentialBackoff)
        ensures
            b.current_ms == min_ms,
            b.min_ms == min_ms,
            b.max_ms == max_ms,
            b.factor == factor,
            b.attempts == 0,
    {
        ExponentialBackoff { current_ms: min_ms, min_ms, max_ms, factor, attempts: 0 }
    }

    /// Draw the next delay: the current value with ±25% jitter.  The
    /// undithered value then advances by the factor, capped at the ceiling,
    /// and the attempt count grows by one.
    pub fn next(&mut self) -> (r: u64)
        ensures
            old(self).current_ms - old(self).current_ms / 4 <= r <= old(self).current_ms + old(
                self,
            ).current_ms / 4,
            final(self).current_ms == if old(self).current_ms * old(self).factor <= old(
                self,
            ).max_ms {
                old(self).current_ms * old(self).factor
            } else {
                old(self).max_ms as int
            },
            final(self).attempts == if old(self).attempts < u64::MAX {
                old(self).attempts + 1
            } else {
                u64::MAX as int
            },
            final(self).min_ms == old(self).min_ms,
            final(self).max_ms == old(self).max_ms,
            final(self).factor == old(self).factor,
    {
        if self.attempts < u64::MAX {
            self.attempts = self.attempts + 1;
        }
        let base = self.current_ms;
        let hi = if base > u64::MAX - base / 4 {
            u64::MAX
        } else {
            base + base / 4
        };
        let jittered = random_in_range(base - base / 4, hi);
        proof {
            assert((base as u128) * (self.factor as u128) <= 0xFFFF_FFFF_FFFF_FFFFu128
                * 0xFFFF_FFFFu128) by (nonlinear_arith)
                requires
                    base <= 0xFFFF_FFFF_FFFF_FFFFu128 && self.factor <= 0xFFFF_FFFFu128,
            ;
        }
        let advanced = (base as u128) * (self.factor as u128);
        self.current_ms = if advanced > self.max_ms as u128 {
            self.max_ms
        } else {
            advanced as u64
        };
        jittered
    }

    /// Back to the starting delay.
    pub fn reset(&mut self)
        ensures
            final(self).current_ms == old(self).min_ms,
            final(self).attempts == 0,
            final(self).min_ms == old(self).min_ms,
            final(self).max_ms == old(self).max_ms,
            final(self).factor == old(self).factor,
    {
        self.current_ms = self.min_ms;
        self.attempts = 0;
    }

    /// The next undithered delay.
    pub fn current(&self) -> (r: u64)
        ensures
            r == self.current_ms,
    {
        self.current_ms
    }

    /// Draws since the last reset.
    pub fn attempts(&self) -> (r: u64)
        ensures
            r == self.attempts,
    {
        self.attempts
    }

    /// Whether the delay has reached the ceiling.
    pub fn is_maxed(&self) -> (r: bool)
        ensures
            r == (self.current_ms >= self.max_ms),
    {
        self.current_ms >= self.max_ms
    }
}

} // verus!
