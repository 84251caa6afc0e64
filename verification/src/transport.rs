//! Transport-state machines driven by the audio thread: the UI phase, the
//! stall and lost-callback watchdogs, and "what is playing now".
use vstd::prelude::*;

verus! {

/// How long a nav mark stays valid, in milliseconds.
pub const NAV_MARK_TTL_MS: u64 = 10_000;

/// Seconds of bit-exact silence before the output is called a stall.
pub const STALL_AFTER_SECS: u64 = 2;

/// Seconds the callback tick counter may stay unmoved before the callback is
/// declared lost.
pub const STUCK_SECS_BEFORE_LOST: u32 = 3;

/// What the transport is doing, as the audio thread sees it.
#[derive(Clone, Copy, Debug, PartialEq, Eq, Structural)]
pub enum Phase {
    Idle,
    Starting,
    Playing,
    Paused,
    Stalled,
    Failed,
    /// The audio callback has stopped running (or the stream reported an
    /// error).
    Disconnected,
}

pub open spec fn phase_code(p: Phase) -> u8 {
    match p {
        Phase::Idle => 0,
        Phase::Starting => 1,
        Phase::Playing => 2,
        Phase::Paused => 3,
        Phase::Stalled => 4,
        Phase::Failed => 5,
        Phase::Disconnected => 6,
    }
}

pub open spec fn phase_of_code(v: u8) -> Phase {
    if v == 1 {
        Phase::Starting
    } else if v == 2 {
        Phase::Playing
    } else if v == 3 {
        Phase::Paused
    } else if v == 4 {
        Phase::Stalled
    } else if v == 5 {
        Phase::Failed
    } else if v == 6 {
        Phase::Disconnected
    } else {
        Phase::Idle
    }
}

pub open spec fn phase_name(p: Phase) -> Seq<char> {
    match p {
        Phase::Idle => "idle"@,
        Phase::Starting => "starting"@,
        Phase::Playing => "playing"@,
        Phase::Paused => "paused"@,
        Phase::Stalled => "stalled"@,
        Phase::Failed => "failed"@,
        Phase::Disconnected => "disconnected"@,
    }
}

impl Phase {
    pub fn as_str(self) -> (r: &'static str)
        ensures
            r@ == phase_name(self),
    {
        match self {
            Phase::Idle => "idle",
            Phase::Starting => "starting",
            Phase::Playing => "playing",
            Phase::Paused => "paused",
            Phase::Stalled => "stalled",
            Phase::Failed => "failed",
            Phase::Disconnected => "disconnected",
        }
    }

    /// The encoding stored in the shared phase byte.
    pub fn to_u8(self) -> (r: u8)
        ensures
            r == phase_code(self),
    {
        match self {
            Phase::Idle => 0,
            Phase::Starting => 1,
            Phase::Playing => 2,
            Phase::Paused => 3,
            Phase::Stalled => 4,
            Phase::Failed => 5,
            Phase::Disconnected => 6,
        }
    }

    /// Unknown values fall back to `Idle` rather than panicking.
    pub fn from_u8(v: u8) -> (r: Phase)
        ensures
            r == phase_of_code(v),
    {
        match v {
            1 => Phase::Starting,
            2 => Phase::Playing,
            3 => Phase::Paused,
            4 => Phase::Stalled,
            5 => Phase::Failed,
            6 => Phase::Disconnected,
            _ => Phase::Idle,
        }
    }
}

/// Every phase survives the round trip through its byte encoding.
pub proof fn lemma_phase_round_trip(p: Phase)
    ensures
        phase_of_code(phase_code(p)) == p,
{
}

/// Pack paused + phase for the native control callback: bit 0 is paused,
/// the bits above it are the phase code.
pub fn pack_native_control_state(paused: bool, phase: Phase) -> (r: i32)
    ensures
        r == 2 * phase_code(phase) + (if paused {
            1int
        } else {
            0int
        }),
{
    let code = phase.to_u8() as i32;
    code * 2 + if paused {
        1
    } else {
        0
    }
}

/// Turns "was this callback's output bit-exact silence?" into a UI phase.
#[derive(Debug)]
pub struct StallWatch {
    pub silent_frames: u64,
    pub stall_after_frames: u64,
    /// Whether a non-silent buffer has ever been seen.
    pub started: bool,
}

impl StallWatch {
    pub fn new(sample_rate: u32) -> (r: StallWatch)
        ensures
            r.silent_frames == 0,
            r.stall_after_frames == STALL_AFTER_SECS * sample_rate,
            !r.started,
    {
        StallWatch {
            silent_frames: 0,
            stall_after_frames: STALL_AFTER_SECS * (sample_rate as u64),
            started: false,
        }
    }

    /// Feed one callback's frame count and whether its buffer was bit-exact
    /// silence; returns the phase the UI should show for it.
    pub fn observe(&mut self, frames: u64, silent: bool) -> (r: Phase)
        requires
            silent ==> old(self).silent_frames + frames <= u64::MAX,
        ensures
            final(self).stall_after_frames == old(self).stall_after_frames,
            !silent ==> final(self).silent_frames == 0 && final(self).started && r == Phase::Playing,
            silent ==> {
                &&& final(self).silent_frames == old(self).silent_frames + frames
                &&& final(self).started == old(self).started
                &&& r == (if !old(self).started {
                    Phase::Starting
                } else if final(self).silent_frames >= final(self).stall_after_frames {
                    Phase::Stalled
                } else {
                    Phase::Playing
                })
            },
    {
        if !silent {
            self.silent_frames = 0;
            self.started = true;
            return Phase::Playing;
        }
        self.silent_frames = self.silent_frames + frames;
        if !self.started {
            return Phase::Starting;
        }
        if self.silent_frames >= self.stall_after_frames {
            return Phase::Stalled;
        }
        Phase::Playing
    }

    /// Drop accumulated silence without touching `started` (pausing writes
    /// deliberate silence that must not count toward a stall).
    pub fn reset_silence(&mut self)
        ensures
            final(self).silent_frames == 0,
            final(self).started == old(self).started,
            final(self).stall_after_frames == old(self).stall_after_frames,
    {
        self.silent_frames = 0;
    }
}

/// Notices the audio callback no longer being invoked at all.
#[derive(Debug)]
pub struct CallbackWatch {
    pub last_ticks: u64,
    pub stuck_secs: u32,
}

impl CallbackWatch {
    pub fn new(ticks: u64) -> (r: CallbackWatch)
        ensures
            r.last_ticks == ticks,
            r.stuck_secs == 0,
    {
        CallbackWatch { last_ticks: ticks, stuck_secs: 0 }
    }

    /// Call once a second with the current tick count and whether the
    /// stream's error callback has fired; returns whether the callback
    /// should be reported lost. A moving counter is never lost; a stuck one
    /// is lost after the threshold, or at once when an error was seen.
    pub fn observe(&mut self, ticks: u64, error_seen: bool) -> (lost: bool)
        requires
            ticks == old(self).last_ticks ==> old(self).stuck_secs < u32::MAX,
        ensures
            ticks != old(self).last_ticks ==> !lost && final(self).last_ticks == ticks
                && final(self).stuck_secs == 0,
            ticks == old(self).last_ticks ==> final(self).last_ticks == ticks
                && final(self).stuck_secs == old(self).stuck_secs + 1 && lost == (error_seen
                || final(self).stuck_secs >= STUCK_SECS_BEFORE_LOST),
    {
        if ticks != self.last_ticks {
            self.last_ticks = ticks;
            self.stuck_secs = 0;
            return false;
        }
        self.stuck_secs = self.stuck_secs + 1;
        error_seen || self.stuck_secs >= STUCK_SECS_BEFORE_LOST
    }
}

/// Who started a transition.
#[derive(Clone, Copy, Debug, PartialEq, Eq, Structural)]
pub enum Origin {
    Automatic,
    Manual,
}

pub open spec fn nav_mark_fresh(marked_ms: u64, now_ms: u64) -> bool {
    marked_ms != 0 && (if now_ms >= marked_ms {
        now_ms - marked_ms
    } else {
        0
    }) <= NAV_MARK_TTL_MS
}

/// Whether a nav marked at `marked_ms` (`0` for "no mark") still explains a
/// transition that starts at `now_ms`.
pub fn nav_origin(marked_ms: u64, now_ms: u64) -> (r: Origin)
    ensures
        r == (if nav_mark_fresh(marked_ms, now_ms) {
            Origin::Manual
        } else {
            Origin::Automatic
        }),
{
    let elapsed = now_ms.saturating_sub(marked_ms);
    if marked_ms != 0 && elapsed <= NAV_MARK_TTL_MS {
        Origin::Manual
    } else {
        Origin::Automatic
    }
}


#[verifier::external_type_specification]
#[verifier::external_body]
pub struct ExInstant(std::time::Instant);

/// `std::time::Instant::now`: the monotonic clock's current reading. Nothing
/// is promised of the value.
#[verifier::external_body]
fn instant_now() -> (r: std::time::Instant) {
    std::time::Instant::now()
}

/// A transition that has finished, kept to answer what the flag work needs
/// to know about the last mix.
#[derive(Debug)]
pub struct CompletedTransition {
    pub from: String,
    pub to: String,
    pub origin: Origin,
    pub at: std::time::Instant,
}

/// Folds `TrackStarted` / `TransitionStarted` / transition-end events into
/// "what is playing now". The display switches when a transition ends, not
/// when it starts.
#[derive(Debug)]
pub struct NowTracker {
    pub now: Option<String>,
    pub previous: Option<String>,
    pub in_progress: Option<(String, String, Origin)>,
    /// The last transition worth flagging: automatic and between two
    /// different tracks.
    pub last_transition: Option<CompletedTransition>,
}

pub open spec fn opt_str(o: Option<String>) -> Option<Seq<char>> {
    match o {
        Some(s) => Some(s@),
        None => None,
    }
}

impl NowTracker {
    pub fn new() -> (r: NowTracker)
        ensures
            r.now is None,
            r.previous is None,
            r.in_progress is None,
            r.last_transition is None,
    {
        NowTracker { now: None, previous: None, in_progress: None, last_transition: None }
    }

    /// Records the transition as in progress. One already in progress was
    /// interrupted: it is folded into `now`/`previous` right here and is not
    /// recorded as a flaggable transition.
    pub fn on_transition_started(&mut self, from: String, to: String, origin: Origin)
        ensures
            final(self).in_progress matches Some(t) && t.0@ == from@ && t.1@ == to@ && t.2
                == origin,
            match old(self).in_progress {
                Some(t) => opt_str(final(self).previous) == Some(t.0@) && opt_str(final(self).now)
                    == Some(t.1@),
                None => opt_str(final(self).previous) == opt_str(old(self).previous) && opt_str(
                    final(self).now,
                ) == opt_str(old(self).now),
            },
            final(self).last_transition == old(self).last_transition,
    {
        if let Some((old_from, old_to, _)) = self.in_progress.take() {
            self.previous = Some(old_from);
            self.now = Some(old_to);
        }
        self.in_progress = Some((from, to, origin));
    }

    /// A track that starts while a transition is in progress is that
    /// transition's incoming entry announcing itself; only one that starts
    /// with nothing in progress moves `now`.
    pub fn on_track_started(&mut self, path: String)
        ensures
            old(self).in_progress is None ==> opt_str(final(self).now) == Some(path@),
            old(self).in_progress is Some ==> opt_str(final(self).now) == opt_str(old(self).now),
            opt_str(final(self).previous) == opt_str(old(self).previous),
            final(self).in_progress == old(self).in_progress,
            final(self).last_transition == old(self).last_transition,
    {
        if self.in_progress.is_none() {
            self.now = Some(path);
        }
    }

    /// Applies the completed transition and returns `(from, to, origin)`; a
    /// no-op returning `None` when nothing was in progress. Only an
    /// automatic transition between two different tracks becomes
    /// `last_transition`.
    pub fn on_transition_ended(&mut self) -> (r: Option<(String, String, Origin)>)
        ensures
            match old(self).in_progress {
                None => {
                    &&& r is None
                    &&& opt_str(final(self).now) == opt_str(old(self).now)
                    &&& opt_str(final(self).previous) == opt_str(old(self).previous)
                    &&& final(self).last_transition == old(self).last_transition
                    &&& final(self).in_progress is None
                },
                Some(t) => {
                    &&& r matches Some(x) && x.0@ == t.0@ && x.1@ == t.1@ && x.2 == t.2
                    &&& opt_str(final(self).previous) == Some(t.0@)
                    &&& opt_str(final(self).now) == Some(t.1@)
                    &&& final(self).in_progress is None
                    &&& if t.2 == Origin::Automatic && t.0@ != t.1@ {
                        final(self).last_transition matches Some(c) && c.from@ == t.0@ && c.to@
                            == t.1@ && c.origin == Origin::Automatic
                    } else {
                        final(self).last_transition == old(self).last_transition
                    }
                },
            },
    {
        let (from, to, origin) = match self.in_progress.take() {
            Some(t) => t,
            None => return None,
        };
        self.previous = Some(from.clone());
        self.now = Some(to.clone());
        let same = from == to;
        if origin == Origin::Automatic && !same {
            self.last_transition = Some(
                CompletedTransition {
                    from: from.clone(),
                    to: to.clone(),
                    origin,
                    at: instant_now(),
                },
            );
        }
        Some((from, to, origin))
    }
}

} // verus!
