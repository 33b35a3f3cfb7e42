//! The encoding-rate policy: how much a transmission is oversampled and how
//! much its leading silence is shortened.

use crate::text::same_text;
use vstd::prelude::*;

verus! {

/// How fast the payload is sent. A slower rate oversamples the waveform and
/// shortens the leading silence by the same factor.
#[derive(Clone, Copy, Debug, PartialEq, Eq, Structural)]
pub enum EncodingRate {
    Low,
    Mid,
    High,
}

impl EncodingRate {
    /// The divisor of the silence duration, as a mathematical function.
    pub open spec fn divisor(self) -> nat {
        match self {
            EncodingRate::Low => 4,
            EncodingRate::Mid => 2,
            EncodingRate::High => 1,
        }
    }

    /// The rate's name, as a mathematical function.
    pub open spec fn label(self) -> Seq<char> {
        match self {
            EncodingRate::Low => "Low"@,
            EncodingRate::Mid => "Mid"@,
            EncodingRate::High => "High"@,
        }
    }

    /// The rate that a token of the configuration names, in lower case.
    pub open spec fn named(token: Seq<char>) -> Option<EncodingRate> {
        if token == "low"@ {
            Some(EncodingRate::Low)
        } else if token == "mid"@ {
            Some(EncodingRate::Mid)
        } else if token == "high"@ {
            Some(EncodingRate::High)
        } else {
            None
        }
    }

    /// Reads a rate from its token: `low`, `mid` or `high`.
    pub fn from_token(token: &str) -> (rate: Option<EncodingRate>)
        ensures
            rate == Self::named(token@),
    {
        if same_text(token, "low") {
            Some(EncodingRate::Low)
        } else if same_text(token, "mid") {
            Some(EncodingRate::Mid)
        } else if same_text(token, "high") {
            Some(EncodingRate::High)
        } else {
            None
        }
    }

    /// The number by which a requested silence duration is divided.
    pub fn silence_divisor(&self) -> (d: u32)
        ensures
            d == self.divisor(),
    {
        match *self {
            EncodingRate::Low => 4,
            EncodingRate::Mid => 2,
            EncodingRate::High => 1,
        }
    }

    /// The number by which the nominal sample rate is multiplied for the
    /// payload; it equals the silence divisor.
    pub fn oversampling(&self) -> (m: u32)
        ensures
            m == self.divisor(),
    {
        match *self {
            EncodingRate::Low => 4,
            EncodingRate::Mid => 2,
            EncodingRate::High => 1,
        }
    }

    /// The rate's name: `Low`, `Mid` or `High`.
    pub fn name(&self) -> (s: &'static str)
        ensures
            s@ == self.label(),
    {
        match *self {
            EncodingRate::Low => "Low",
            EncodingRate::Mid => "Mid",
            EncodingRate::High => "High",
        }
    }
}

/// The number of zero samples that make up a leading silence: the whole
/// samples that fit, at `sample_rate` samples a second, into `duration_ms`
/// milliseconds divided by the rate's silence divisor.
pub open spec fn silence_len(sample_rate: u32, duration_ms: u32, rate: EncodingRate) -> nat {
    ((sample_rate as nat * duration_ms as nat) / (1000 * rate.divisor())) as nat
}

/// Counts the samples of a leading silence.
pub fn silence_samples(sample_rate: u32, duration_ms: u32, rate: EncodingRate) -> (n: u64)
    ensures
        n == silence_len(sample_rate, duration_ms, rate),
{
    assert(0 <= sample_rate as int * duration_ms as int <= 0xffff_ffff * 0xffff_ffff)
        by (nonlinear_arith)
        requires
            0 <= sample_rate <= 0xffff_ffff,
            0 <= duration_ms <= 0xffff_ffff,
    ;
    let total: u64 = sample_rate as u64 * duration_ms as u64;
    total / (1000 * rate.silence_divisor() as u64)
}

/// The silence under a slower rate is the silence under `High` divided by
/// the slower rate's divisor, rounded down: a quarter under `Low`, a half
/// under `Mid`, whatever the sample rate and the duration.
pub proof fn lemma_silence_scaling(sample_rate: u32, duration_ms: u32, rate: EncodingRate)
    ensures
        silence_len(sample_rate, duration_ms, rate) == silence_len(
            sample_rate,
            duration_ms,
            EncodingRate::High,
        ) / rate.divisor(),
        silence_len(sample_rate, duration_ms, EncodingRate::High) % rate.divisor() == 0
            ==> rate.divisor() * silence_len(sample_rate, duration_ms, rate) == silence_len(
            sample_rate,
            duration_ms,
            EncodingRate::High,
        ),
{
    let total = sample_rate as int * duration_ms as int;
    let d = rate.divisor() as int;
    assert(total >= 0) by (nonlinear_arith)
        requires
            total == sample_rate as int * duration_ms as int,
            sample_rate >= 0,
            duration_ms >= 0,
    ;
    vstd::arithmetic::div_mod::lemma_div_denominator(total, 1000, d);
    let high = total / 1000;
    vstd::arithmetic::div_mod::lemma_fundamental_div_mod(high, d);
}

/// The samples that one symbol lasts: the sample rate over the baud rate,
/// rounded to the nearest whole number, halves upwards.
pub open spec fn symbol_len(sample_rate: u32, baud_rate: u32) -> nat
    recommends
        baud_rate > 0,
{
    ((2 * sample_rate + baud_rate) / (2 * baud_rate)) as nat
}

/// Counts the samples of one symbol.
pub fn samples_per_symbol(sample_rate: u32, baud_rate: u32) -> (n: u32)
    requires
        baud_rate > 0,
    ensures
        n == symbol_len(sample_rate, baud_rate),
        2 * sample_rate - baud_rate < 2 * n * baud_rate <= 2 * sample_rate + baud_rate,
{
    let doubled: u64 = 2 * sample_rate as u64 + baud_rate as u64;
    let n: u64 = doubled / (2 * baud_rate as u64);
    proof {
        let d = 2 * baud_rate as int;
        vstd::arithmetic::div_mod::lemma_fundamental_div_mod(doubled as int, d);
        vstd::arithmetic::div_mod::lemma_mod_bound(doubled as int, d);
        assert(d * (doubled as int / d) == 2 * (n as int) * (baud_rate as int))
            by (nonlinear_arith)
            requires
                d == 2 * baud_rate as int,
                n as int == doubled as int / d,
        ;
        assert(n <= u32::MAX) by (nonlinear_arith)
            requires
                2 * (n as int) * (baud_rate as int) <= 2 * sample_rate + baud_rate,
                baud_rate >= 1,
                sample_rate <= u32::MAX,
                n >= 0,
        ;
    }
    n as u32
}

} // verus!
