//! The pause/play envelope of the output callback, on an integer grid.
//!
//! Pausing fades the real waveform out instead of truncating it, and playing
//! fades it back in. A pause can let playback advance by at most the length of
//! the fade (10 ms) of audible tail; once silent, rendering freezes. The gain
//! of a frame is `level / full`; the caller applies it to the samples.
use vstd::prelude::*;

verus! {

/// The envelope state: the gain level for the next frame, the level of full
/// gain, and whether the zero-gain frame has been emitted while paused.
pub struct TransportFade {
    level: usize,
    full: usize,
    muted: bool,
}

pub struct FadeView {
    pub level: nat,
    pub full: nat,
    pub muted: bool,
}

impl View for TransportFade {
    type V = FadeView;

    closed spec fn view(&self) -> FadeView {
        FadeView { level: self.level as nat, full: self.full as nat, muted: self.muted }
    }
}

/// Frames of a 10 ms fade at `sample_rate`, rounded, and at least two.
pub open spec fn fade_frames(sample_rate: nat) -> nat {
    let f = (sample_rate + 50) / 100;
    if f < 2 {
        2
    } else {
        f
    }
}

/// The level of the next frame, after one frame at `level`.
pub open spec fn next_level(level: nat, full: nat, paused: bool) -> nat {
    if paused {
        if level == 0 {
            0
        } else {
            (level - 1) as nat
        }
    } else if level + 1 > full {
        full
    } else {
        level + 1
    }
}

/// How many frames a callback with room for `available` may render: none
/// once paused and silent, the rest of the fade-out while pausing, all of
/// them while playing.
pub open spec fn frames_wanted(v: FadeView, available: nat, paused: bool) -> nat {
    if paused {
        if v.muted {
            0
        } else if available < v.level + 1 {
            available
        } else {
            v.level + 1
        }
    } else {
        available
    }
}

impl TransportFade {
    /// The envelope holds a level between silence and full gain.
    pub closed spec fn wf(&self) -> bool {
        self.level <= self.full && 1 <= self.full <= 0x7fff_ffff
    }

    /// A new or reopened stream starts after silence: its first play fades
    /// in, and a stream opened paused stays frozen.
    pub fn new(sample_rate: u32) -> (r: TransportFade)
        ensures
            r.wf(),
            r@.full == fade_frames(sample_rate as nat) - 1,
            r@.level == 0,
            r@.muted,
    {
        let rounded = (sample_rate as u64 + 50) / 100;
        let frames: u64 = if rounded < 2 {
            2
        } else {
            rounded
        };
        TransportFade { level: 0, full: (frames - 1) as usize, muted: true }
    }

    /// Whether the zero-gain frame of a pause has been emitted.
    pub fn is_silent(&self) -> (r: bool)
        ensures
            r == self@.muted,
    {
        self.muted
    }

    /// The level of full gain: a frame's gain is its level over this.
    pub fn full(&self) -> (r: usize)
        requires
            self.wf(),
        ensures
            r == self@.full,
            r >= 1,
    {
        self.full
    }

    /// Drop to silence at once.
    pub fn silence(&mut self)
        requires
            old(self).wf(),
        ensures
            final(self).wf(),
            final(self)@ == (FadeView { level: 0, full: old(self)@.full, muted: true }),
    {
        self.level = 0;
        self.muted = true;
    }

    /// How many of `available` frames the next callback may render.
    pub fn wanted(&self, available: usize, paused: bool) -> (r: usize)
        requires
            self.wf(),
        ensures
            r == frames_wanted(self@, available as nat, paused),
            r <= available,
            paused ==> r <= self@.full + 1,
    {
        if paused {
            if self.muted {
                0
            } else if available < self.level + 1 {
                available
            } else {
                self.level + 1
            }
        } else {
            available
        }
    }

    /// Emit one frame: returns the level of its gain and moves one step
    /// toward silence (paused) or full gain (playing). The pause is silent
    /// once its zero-gain frame is out.
    pub fn step(&mut self, paused: bool) -> (gain: usize)
        requires
            old(self).wf(),
        ensures
            final(self).wf(),
            gain == old(self)@.level,
            final(self)@.full == old(self)@.full,
            final(self)@.level == next_level(old(self)@.level, old(self)@.full, paused),
            final(self)@.muted == (paused && old(self)@.level == 0),
            final(self)@.level <= old(self)@.level + 1,
            old(self)@.level <= final(self)@.level + 1,
    {
        let gain = self.level;
        self.muted = paused && self.level == 0;
        self.level = if paused {
            if self.level == 0 {
                0
            } else {
                self.level - 1
            }
        } else if self.level + 1 > self.full {
            self.full
        } else {
            self.level + 1
        };
        gain
    }
}

/// A pause renders at most the rest of its fade: after `level + 1` paused
/// frames the envelope is silent, and a silent paused envelope renders no
/// frame and stays as it is.
pub proof fn lemma_pause_reaches_silence(v: FadeView, k: nat)
    requires
        v.level <= v.full,
        k == v.level,
    ensures
        paused_after(v, k + 1).muted,
        paused_after(v, k + 1).level == 0,
        frames_wanted(paused_after(v, k + 1), 0, true) == 0,
    decreases k,
{
    if k > 0 {
        let w = FadeView { level: next_level(v.level, v.full, true), full: v.full, muted: false };
        lemma_pause_reaches_silence(w, (k - 1) as nat);
        lemma_paused_after_first(v, k + 1);
    } else {
        assert(paused_after(v, 0) == v);
    }
}

/// The envelope after `n` frames emitted while paused.
pub open spec fn paused_after(v: FadeView, n: nat) -> FadeView
    decreases n,
{
    if n == 0 {
        v
    } else {
        let p = paused_after(v, (n - 1) as nat);
        FadeView { level: next_level(p.level, p.full, true), full: p.full, muted: p.level == 0 }
    }
}

proof fn lemma_paused_after_first(v: FadeView, n: nat)
    requires
        n > 0,
        v.level > 0,
    ensures
        paused_after(v, n) == paused_after(
            FadeView { level: next_level(v.level, v.full, true), full: v.full, muted: false },
            (n - 1) as nat,
        ),
    decreases n,
{
    let w = FadeView { level: next_level(v.level, v.full, true), full: v.full, muted: false };
    if n > 1 {
        lemma_paused_after_first(v, (n - 1) as nat);
        assert(paused_after(v, (n - 1) as nat) == paused_after(w, (n - 2) as nat));
        assert(paused_after(w, (n - 1) as nat) == ({
            let p = paused_after(w, (n - 2) as nat);
            FadeView { level: next_level(p.level, p.full, true), full: p.full, muted: p.level == 0 }
        }));
    } else {
        assert(paused_after(v, 0) == v);
    }
}

/// A silent, paused envelope stays silent and renders nothing, however many
/// callbacks come.
pub proof fn lemma_silent_pause_is_frozen(v: FadeView, available: nat)
    requires
        v.muted,
        v.level == 0,
    ensures
        frames_wanted(v, available, true) == 0,
        next_level(v.level, v.full, true) == 0,
{
}

} // verus!
