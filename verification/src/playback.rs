//! The course of a playback: the samples of a waveform one by one, then a
//! quarter of a second of silence, then the end.

use vstd::prelude::*;

verus! {

/// What the player puts out next.
#[derive(Clone, Copy, Debug, PartialEq, Eq, Structural)]
pub enum PlayStep {
    /// The sample at this place of the waveform.
    Sample(usize),
    /// A zero sample: the waveform is over.
    Silence,
    /// Nothing more: the trailing silence is over too.
    Finished,
}

/// Where a playback stands.
#[derive(Clone, Copy, Debug, PartialEq, Eq, Structural)]
pub struct Playback {
    /// How many samples the waveform has.
    pub len: usize,
    /// How many of them have been put out.
    pub position: usize,
    /// How many zero samples may follow the waveform.
    pub grace: u32,
    /// How many zero samples have followed it.
    pub overrun: u32,
}

impl Playback {
    /// A playback stands within its waveform, and counts no more zero
    /// samples than the trailing silence has, and none before the waveform
    /// is over.
    pub open spec fn valid(self) -> bool {
        &&& self.position <= self.len
        &&& self.overrun <= self.grace
        &&& self.overrun > 0 ==> self.position == self.len
    }

    /// One request: what is put out, and the playback as it is left.
    pub open spec fn advance(self) -> (PlayStep, Playback) {
        if self.position < self.len {
            (
                PlayStep::Sample(self.position),
                Playback { position: (self.position + 1) as usize, ..self },
            )
        } else if self.overrun < self.grace {
            (PlayStep::Silence, Playback { overrun: (self.overrun + 1) as u32, ..self })
        } else {
            (PlayStep::Finished, self)
        }
    }

    /// The playback as `k` requests leave it.
    pub open spec fn after(self, k: nat) -> Playback
        decreases k,
    {
        if k == 0 {
            self
        } else {
            self.after((k - 1) as nat).advance().1
        }
    }

    /// The playback of a waveform of `len` samples at `sample_rate` samples
    /// a second, with a quarter of a second of silence behind it.
    pub fn new(len: usize, sample_rate: u32) -> (p: Playback)
        ensures
            p == (Playback { len, position: 0, grace: sample_rate / 4, overrun: 0 }),
            p.valid(),
    {
        Playback { len, position: 0, grace: sample_rate / 4, overrun: 0 }
    }

    /// Answers one request for a sample.
    pub fn next(&mut self) -> (step: PlayStep)
        ensures
            (step, *final(self)) == old(self).advance(),
            old(self).valid() ==> final(self).valid(),
    {
        if self.position < self.len {
            let at: usize = self.position;
            self.position += 1;
            PlayStep::Sample(at)
        } else if self.overrun < self.grace {
            self.overrun += 1;
            PlayStep::Silence
        } else {
            PlayStep::Finished
        }
    }
}

/// A playback from the beginning puts out every sample of the waveform in
/// order, then exactly `grace` zero samples, and then is finished for good.
pub proof fn lemma_playback(start: Playback, k: nat)
    requires
        start.valid(),
        start.position == 0,
        start.overrun == 0,
    ensures
        start.after(k).valid(),
        k < start.len ==> start.after(k).advance().0 == PlayStep::Sample(k as usize),
        start.len <= k < start.len + start.grace ==> start.after(k).advance().0
            == PlayStep::Silence,
        k >= start.len + start.grace ==> start.after(k).advance().0 == PlayStep::Finished,
    decreases k,
{
    if k > 0 {
        lemma_playback(start, (k - 1) as nat);
        let before = start.after((k - 1) as nat);
        assert(start.after(k) == before.advance().1);
    }
    lemma_playback_place(start, k);
}

/// Where a playback from the beginning stands after `k` requests.
proof fn lemma_playback_place(start: Playback, k: nat)
    requires
        start.valid(),
        start.position == 0,
        start.overrun == 0,
    ensures
        start.after(k).len == start.len,
        start.after(k).grace == start.grace,
        k <= start.len ==> start.after(k).position == k && start.after(k).overrun == 0,
        start.len < k <= start.len + start.grace ==> start.after(k).position == start.len
            && start.after(k).overrun == k - start.len,
        k > start.len + start.grace ==> start.after(k).position == start.len && start.after(
            k,
        ).overrun == start.grace,
    decreases k,
{
    if k > 0 {
        lemma_playback_place(start, (k - 1) as nat);
        let before = start.after((k - 1) as nat);
        assert(start.after(k) == before.advance().1);
    }
}

} // verus!
