use vstd::prelude::*;
use vstd::arithmetic::power2::{pow2, lemma2_to64, lemma_pow2_strictly_increases};
use vstd::bits::{lemma_u32_pow2_no_overflow, lemma_u32_shl_is_mul};

verus! {

/// Default starting spin count.
pub const DEFAULT_INITIAL: u32 = 1;

/// Default exponent of the spin cap (the cap is `2^7`).
pub const DEFAULT_THRESHOLD_EXPONENT: u32 = 7;

/// Exponential spin controller: each `spin` busy-waits `current` pause hints,
/// then doubles `current` until it reaches `threshold`.
pub struct Backoff {
    initial: u32,
    threshold: u32,
    current: u32,
}

/// Relies on `std::hint::spin_loop`: a processor hint with no observable effect.
#[verifier::external_body]
pub(crate) fn cpu_relax() {
    std::hint::spin_loop()
}

impl Backoff {
    pub closed spec fn initial_spec(&self) -> u32 {
        self.initial
    }

    pub closed spec fn threshold_spec(&self) -> u32 {
        self.threshold
    }

    pub closed spec fn current_spec(&self) -> u32 {
        self.current
    }

    /// `current` stays between `initial` and `threshold`, and `initial` lies below the cap.
    pub open spec fn wf(&self) -> bool {
        &&& 0 < self.initial_spec() < self.threshold_spec() <= pow2(31)
        &&& self.initial_spec() <= self.current_spec() <= self.threshold_spec()
    }

    /// Backoff with the default parameters: initial 1, threshold 2^7.
    pub fn new() -> (r: Self)
        ensures
            r.wf(),
            r.initial_spec() == 1,
            r.threshold_spec() == 128,
            r.current_spec() == 1,
    {
        proof { lemma2_to64(); }
        Self::with_params(DEFAULT_INITIAL, DEFAULT_THRESHOLD_EXPONENT)
    }

    /// Backoff starting at `initial` spins and capped at `2^threshold_exponent`.
    pub fn with_params(initial: u32, threshold_exponent: u32) -> (r: Self)
        requires
            initial > 0,
            0 < threshold_exponent < 32,
            initial < pow2(threshold_exponent as nat),
        ensures
            r.wf(),
            r.initial_spec() == initial,
            r.threshold_spec() == pow2(threshold_exponent as nat),
            r.current_spec() == initial,
    {
        let threshold = shift_one(threshold_exponent);
        proof {
            lemma2_to64();
            if threshold_exponent < 31 {
                lemma_pow2_strictly_increases(threshold_exponent as nat, 31);
            }
        }
        Backoff { initial, threshold, current: initial }
    }

    /// Busy-waits `current` times, then doubles `current` while it is below the cap.
    pub fn spin(&mut self)
        requires
            old(self).wf(),
        ensures
            final(self).wf(),
            final(self).initial_spec() == old(self).initial_spec(),
            final(self).threshold_spec() == old(self).threshold_spec(),
            final(self).current_spec() == if 2 * old(self).current_spec() < old(self).threshold_spec() {
                2 * old(self).current_spec()
            } else {
                old(self).threshold_spec() as int
            },
    {
        let mut i: u32 = 0;
        while i < self.current
            invariant
                i <= self.current,
            decreases self.current - i,
        {
            cpu_relax();
            i = i + 1;
        }
        if self.current < self.threshold - self.current {
            self.current = self.current * 2;
        } else {
            self.current = self.threshold;
        }
    }

    /// The number of pause hints the next `spin` issues.
    pub fn current(&self) -> (r: u32)
        ensures
            r == self.current_spec(),
    {
        self.current
    }

    /// Restores `current` to `initial`.
    pub fn reset(&mut self)
        requires
            old(self).wf(),
        ensures
            final(self).wf(),
            final(self).initial_spec() == old(self).initial_spec(),
            final(self).threshold_spec() == old(self).threshold_spec(),
            final(self).current_spec() == old(self).initial_spec(),
    {
        self.current = self.initial;
    }
}

/// `1 << e`, as `2^e`.
fn shift_one(e: u32) -> (r: u32)
    requires
        e < 32,
    ensures
        r == pow2(e as nat),
{
    proof {
        lemma_u32_pow2_no_overflow(e as nat);
        lemma_u32_shl_is_mul(1, e);
    }
    1u32 << e
}

} // verus!
