//! The course of a transmission: an optional silence, then the payload as
//! often as it is repeated, each time followed by a pilot burst.

use vstd::prelude::*;

verus! {

/// One stretch of a transmission.
#[derive(Clone, Copy, Debug, PartialEq, Eq, Structural)]
pub enum Segment {
    /// Leading silence, requested in milliseconds, made by the payload's
    /// own encoder.
    Silence(u32),
    /// One pass over the whole payload, at the oversampled rate.
    Payload,
    /// One pilot burst from an encoder of its own, at the nominal rate.
    Pilot,
}

/// The stretches of a transmission in order: the silence, if one is asked
/// for, then for every repetition the payload followed by a pilot burst.
pub open spec fn transmission(silence_prefix: Option<u32>, repeat_count: u32) -> Seq<Segment> {
    let lead = match silence_prefix {
        Some(duration_ms) => seq![Segment::Silence(duration_ms)],
        None => Seq::<Segment>::empty(),
    };
    lead + Seq::new(
        2 * repeat_count as nat,
        |i: int|
            if i % 2 == 0 {
                Segment::Payload
            } else {
                Segment::Pilot
            },
    )
}

/// Lays out a transmission.
pub fn plan_transmission(silence_prefix: Option<u32>, repeat_count: u32) -> (plan: Vec<Segment>)
    ensures
        plan@ == transmission(silence_prefix, repeat_count),
{
    let mut plan: Vec<Segment> = Vec::new();
    if let Some(duration_ms) = silence_prefix {
        plan.push(Segment::Silence(duration_ms));
    }
    let ghost lead = plan@;
    let mut i: u32 = 0;
    while i < repeat_count
        invariant
            i <= repeat_count,
            plan@ == lead + transmission(None, i),
        decreases repeat_count - i,
    {
        plan.push(Segment::Payload);
        plan.push(Segment::Pilot);
        i += 1;
        assert(plan@ =~= lead + transmission(None, i));
    }
    assert(plan@ =~= transmission(silence_prefix, repeat_count));
    plan
}

/// The symbols of a pilot burst: as many as are sent in `duration_ms`
/// milliseconds at `baud_rate` symbols a second, rounded down, the high and
/// the low tone in turn, beginning with the high one.
pub open spec fn pilot(duration_ms: u32, baud_rate: u32) -> Seq<bool> {
    Seq::new((duration_ms as nat * baud_rate as nat) / 1000, |i: int| i % 2 == 0)
}

/// Lays out a pilot burst.
pub fn pilot_symbols(duration_ms: u32, baud_rate: u32) -> (symbols: Vec<bool>)
    ensures
        symbols@ == pilot(duration_ms, baud_rate),
{
    assert(0 <= duration_ms as int * baud_rate as int <= 0xffff_ffff * 0xffff_ffff)
        by (nonlinear_arith)
        requires
            0 <= duration_ms <= 0xffff_ffff,
            0 <= baud_rate <= 0xffff_ffff,
    ;
    let count: u64 = duration_ms as u64 * baud_rate as u64 / 1000;
    let mut symbols: Vec<bool> = Vec::new();
    let mut i: u64 = 0;
    while i < count
        invariant
            i <= count,
            symbols@ == Seq::new(i as nat, |k: int| k % 2 == 0),
        decreases count - i,
    {
        symbols.push(i % 2 == 0);
        i += 1;
        assert(symbols@ =~= Seq::new(i as nat, |k: int| k % 2 == 0));
    }
    symbols
}

} // verus!
