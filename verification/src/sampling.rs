//! Sampling-frequency bookkeeping: turning time spans into sample counts.

use vstd::prelude::*;

verus! {

/// Highest sampling rate the detector accepts, in samples per second.
pub const MAX_SAMPLING_FREQUENCY: u32 = 1_000_000;

/// A sampling frequency in whole samples per second.
///
/// The detector derives every window length and countdown from one of these,
/// so a value is kept in the range `1 ..= MAX_SAMPLING_FREQUENCY`; see
/// [`SamplingFrequency::valid`].
#[derive(Clone, Copy, Debug, PartialEq, Eq, Structural)]
pub struct SamplingFrequency(u32);

impl View for SamplingFrequency {
    type V = nat;

    closed spec fn view(&self) -> nat {
        self.0 as nat
    }
}

/// The number of samples spanned by `ms` milliseconds at `fs` samples per
/// second, rounded down.
pub open spec fn spec_ms_to_samples(fs: nat, ms: nat) -> nat {
    fs * ms / 1000
}

impl SamplingFrequency {
    /// A frequency the detector accepts: at least one sample per second and
    /// at most `MAX_SAMPLING_FREQUENCY`.
    pub open spec fn valid(self) -> bool {
        1 <= self@ <= MAX_SAMPLING_FREQUENCY
    }

    /// The frequency in units of samples per second.
    pub fn raw(self) -> (r: u32)
        ensures
            r == self@,
    {
        self.0
    }

    /// Converts `ms` milliseconds to a number of samples, rounding down.
    pub fn ms_to_samples(self, ms: u32) -> (n: usize)
        requires
            self.valid(),
            ms <= 1_000_000,
        ensures
            n == spec_ms_to_samples(self@, ms as nat),
            n <= 1_000_000_000,
    {
        proof {
            assert((self.0 as nat) * (ms as nat) <= 1_000_000_000_000) by (nonlinear_arith)
                requires
                    self.0 as nat <= 1_000_000,
                    ms as nat <= 1_000_000,
            ;
        }
        let product: u64 = (self.0 as u64) * (ms as u64);
        (product / 1000) as usize
    }

    /// Converts `s` whole seconds to a number of samples; exact, since the
    /// frequency is itself a whole number of samples per second.
    pub fn s_to_samples(self, s: u32) -> (n: usize)
        requires
            self.valid(),
            s <= 1000,
        ensures
            n == self@ * s,
            n == spec_ms_to_samples(self@, 1000 * s as nat),
            n <= 1_000_000_000,
    {
        proof {
            assert(self@ * (1000 * s as nat) / 1000 == self@ * s as nat) by (nonlinear_arith);
            assert(self@ * s as nat <= 1_000_000_000) by (nonlinear_arith)
                requires
                    self@ <= 1_000_000,
                    s as nat <= 1000,
            ;
        }
        ((self.0 as u64) * (s as u64)) as usize
    }

    /// Converts a sample count to whole milliseconds, rounding down.
    pub fn samples_to_ms(self, samples: usize) -> (r: u64)
        requires
            self.valid(),
            samples <= 0x4000_0000_0000,
        ensures
            r == (samples as nat) * 1000 / self@,
    {
        ((samples as u64) * 1000) / (self.0 as u64)
    }

    /// Converts a sample count to whole seconds, rounding down.
    pub fn samples_to_s(self, samples: usize) -> (r: u64)
        requires
            self.valid(),
        ensures
            r == samples as nat / self@,
    {
        (samples as u64) / (self.0 as u64)
    }
}

/// Builders that read a plain number as a sampling frequency, so that a rate
/// can be written `720.sps()` or `1.ksps()`.
pub trait SamplingFrequencyExt: Sized {
    /// The value being read, in hertz.
    spec fn as_hertz(self) -> nat;

    /// Reads `self` as a rate in samples per second.
    fn sps(self) -> (r: SamplingFrequency)
        requires
            1 <= self.as_hertz() <= MAX_SAMPLING_FREQUENCY,
        ensures
            r.valid(),
            r@ == self.as_hertz(),
    ;

    /// Reads `self` as a rate in kilosamples per second.
    fn ksps(self) -> (r: SamplingFrequency)
        requires
            1 <= self.as_hertz() * 1000 <= MAX_SAMPLING_FREQUENCY,
        ensures
            r.valid(),
            r@ == self.as_hertz() * 1000,
    ;
}

impl SamplingFrequencyExt for usize {
    open spec fn as_hertz(self) -> nat {
        self as nat
    }

    fn sps(self) -> (r: SamplingFrequency) {
        SamplingFrequency(self as u32)
    }

    fn ksps(self) -> (r: SamplingFrequency) {
        SamplingFrequency((self * 1000) as u32)
    }
}

} // verus!
