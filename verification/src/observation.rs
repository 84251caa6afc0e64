//! Lock-free observations shared with the audio callback: the engine's
//! current position and the playback diagnostics counters.
//!
//! Writers bump a sequence number to odd before writing and back to even
//! after; a reader makes one attempt and gives up when the sequence was odd
//! or moved while it read. What the atomics hold at any moment depends on the
//! other threads, so the loads are unconstrained here; the decisions taken
//! from what they returned are verified.
use std::sync::atomic::{AtomicBool, AtomicU64, AtomicUsize, Ordering};
use vstd::prelude::*;

verus! {

#[derive(Clone, Copy, Debug, PartialEq, Eq)]
pub struct EngineSnapshot {
    pub current: Option<usize>,
    pub finished: bool,
}

/// The engine's position as last published by the render thread.
pub struct EngineObservation {
    pub sequence: AtomicU64,
    pub current_present: AtomicBool,
    pub current: AtomicUsize,
    pub finished: AtomicBool,
}

/// A read is coherent when the sequence was even before it and unchanged after.
pub open spec fn coherent(before: u64, after: u64) -> bool {
    before % 2 == 0 && before == after
}

/// The snapshot a read returns from what it loaded.
pub fn engine_snapshot_from(before: u64, after: u64, current_present: bool, current: usize, finished: bool) -> (r:
    Option<EngineSnapshot>)
    ensures
        r == if coherent(before, after) {
            Some(EngineSnapshot { current: if current_present { Some(current) } else { None }, finished })
        } else {
            None::<EngineSnapshot>
        },
{
    if before % 2 != 0 || before != after {
        return None;
    }
    Some(EngineSnapshot { current: if current_present { Some(current) } else { None }, finished })
}

impl EngineObservation {
    pub fn new(current: Option<usize>, finished: bool) -> (r: EngineObservation) {
        let (present, value) = match current {
            Some(c) => (true, c),
            None => (false, 0),
        };
        EngineObservation {
            sequence: AtomicU64::new(0),
            current_present: AtomicBool::new(present),
            current: AtomicUsize::new(value),
            finished: AtomicBool::new(finished),
        }
    }

    /// Publish a new position; readers that overlap this write give up.
    pub fn publish(&self, current: Option<usize>, finished: bool) {
        self.sequence.fetch_add(1, Ordering::SeqCst);
        self.current_present.store(current.is_some(), Ordering::SeqCst);
        match current {
            Some(c) => self.current.store(c, Ordering::SeqCst),
            None => {},
        }
        self.finished.store(finished, Ordering::SeqCst);
        self.sequence.fetch_add(1, Ordering::SeqCst);
    }

    pub fn read(&self) -> Option<EngineSnapshot> {
        self.read_after_before(|| {})
    }

    /// One read attempt, running `after_before` once the opening sequence
    /// number has been taken.
    pub fn read_after_before<F: FnOnce()>(&self, after_before: F) -> Option<EngineSnapshot>
        requires
            call_requires(after_before, ()),
    {
        let before = self.sequence.load(Ordering::SeqCst);
        if before % 2 != 0 {
            return None;
        }
        after_before();
        let current_present = self.current_present.load(Ordering::SeqCst);
        let current = self.current.load(Ordering::SeqCst);
        let finished = self.finished.load(Ordering::SeqCst);
        let after = self.sequence.load(Ordering::SeqCst);
        engine_snapshot_from(before, after, current_present, current, finished)
    }
}

#[derive(Clone, Copy, Debug, PartialEq, Eq)]
pub struct PreviewUpgradeSnapshot {
    pub count: u64,
    pub playlist_index: usize,
    pub playhead: u64,
    pub preview_frames: u64,
    pub main_callback_frame: u64,
}

#[derive(Clone, Copy, Debug, PartialEq, Eq)]
pub struct DiagnosticsSnapshot {
    pub render_lock_misses: u64,
    pub render_lock_missed_frames: u64,
    pub preview_wait_frames: u64,
    pub upgrade: Option<PreviewUpgradeSnapshot>,
}

/// A preview that was upgraded to the main stream, as the engine reports it.
#[derive(Clone, Copy, Debug, PartialEq, Eq)]
pub struct PreviewUpgrade {
    pub playlist_index: usize,
    pub playhead: u64,
    pub preview_frames: u64,
}

/// The engine's per-render diagnostics.
#[derive(Clone, Copy, Debug, PartialEq, Eq)]
pub struct RenderDiagnostics {
    pub preview_wait_frames: u64,
    pub preview_upgrades: u64,
    pub last_preview_upgrade: Option<PreviewUpgrade>,
}

/// Counters the audio callback bumps with fixed-size atomic operations only.
pub struct PlaybackDiagnostics {
    pub render_lock_misses: AtomicU64,
    pub render_lock_missed_frames: AtomicU64,
    pub preview_wait_frames: AtomicU64,
    pub upgrade_sequence: AtomicU64,
    pub upgrade_count: AtomicU64,
    pub upgrade_index: AtomicUsize,
    pub upgrade_playhead: AtomicU64,
    pub upgrade_preview_frames: AtomicU64,
    pub upgrade_main_callback_frame: AtomicU64,
}

/// The snapshot a diagnostics read returns from what it loaded; an upgrade
/// is reported once one was counted.
pub fn diagnostics_snapshot_from(
    before: u64,
    after: u64,
    counters: (u64, u64, u64),
    upgrade: PreviewUpgradeSnapshot,
) -> (r: Option<DiagnosticsSnapshot>)
    ensures
        r == if coherent(before, after) {
            Some(
                DiagnosticsSnapshot {
                    render_lock_misses: counters.0,
                    render_lock_missed_frames: counters.1,
                    preview_wait_frames: counters.2,
                    upgrade: if upgrade.count != 0 {
                        Some(upgrade)
                    } else {
                        None
                    },
                },
            )
        } else {
            None::<DiagnosticsSnapshot>
        },
{
    if before % 2 != 0 || before != after {
        return None;
    }
    Some(
        DiagnosticsSnapshot {
            render_lock_misses: counters.0,
            render_lock_missed_frames: counters.1,
            preview_wait_frames: counters.2,
            upgrade: if upgrade.count != 0 {
                Some(upgrade)
            } else {
                None
            },
        },
    )
}

impl PlaybackDiagnostics {
    pub fn new() -> PlaybackDiagnostics {
        PlaybackDiagnostics {
            render_lock_misses: AtomicU64::new(0),
            render_lock_missed_frames: AtomicU64::new(0),
            preview_wait_frames: AtomicU64::new(0),
            upgrade_sequence: AtomicU64::new(0),
            upgrade_count: AtomicU64::new(0),
            upgrade_index: AtomicUsize::new(0),
            upgrade_playhead: AtomicU64::new(0),
            upgrade_preview_frames: AtomicU64::new(0),
            upgrade_main_callback_frame: AtomicU64::new(0),
        }
    }

    pub fn record_render_lock_miss(&self, frames: u64) {
        self.render_lock_misses.fetch_add(1, Ordering::Relaxed);
        self.render_lock_missed_frames.fetch_add(frames, Ordering::Relaxed);
    }

    pub fn publish_preview_wait_frames(&self, frames: u64) {
        self.preview_wait_frames.store(frames, Ordering::Relaxed);
    }

    pub fn published_core_values(&self) -> (u64, u64) {
        (self.preview_wait_frames.load(Ordering::Relaxed), self.upgrade_count.load(Ordering::SeqCst))
    }

    pub fn publish_upgrade(&self, count: u64, upgrade: PreviewUpgrade, main_callback_frame: u64) {
        self.upgrade_sequence.fetch_add(1, Ordering::SeqCst);
        self.upgrade_count.store(count, Ordering::SeqCst);
        self.upgrade_index.store(upgrade.playlist_index, Ordering::SeqCst);
        self.upgrade_playhead.store(upgrade.playhead, Ordering::SeqCst);
        self.upgrade_preview_frames.store(upgrade.preview_frames, Ordering::SeqCst);
        self.upgrade_main_callback_frame.store(main_callback_frame, Ordering::SeqCst);
        self.upgrade_sequence.fetch_add(1, Ordering::SeqCst);
    }

    pub fn read(&self) -> Option<DiagnosticsSnapshot> {
        self.read_after_before(|| {})
    }

    /// One read attempt, running `after_before` once the opening sequence
    /// number has been taken.
    pub fn read_after_before<F: FnOnce()>(&self, after_before: F) -> Option<DiagnosticsSnapshot>
        requires
            call_requires(after_before, ()),
    {
        let before = self.upgrade_sequence.load(Ordering::SeqCst);
        if before % 2 != 0 {
            return None;
        }
        after_before();
        let misses = self.render_lock_misses.load(Ordering::Relaxed);
        let missed_frames = self.render_lock_missed_frames.load(Ordering::Relaxed);
        let wait = self.preview_wait_frames.load(Ordering::Relaxed);
        let upgrade = PreviewUpgradeSnapshot {
            count: self.upgrade_count.load(Ordering::SeqCst),
            playlist_index: self.upgrade_index.load(Ordering::SeqCst),
            playhead: self.upgrade_playhead.load(Ordering::SeqCst),
            preview_frames: self.upgrade_preview_frames.load(Ordering::SeqCst),
            main_callback_frame: self.upgrade_main_callback_frame.load(Ordering::SeqCst),
        };
        let after = self.upgrade_sequence.load(Ordering::SeqCst);
        diagnostics_snapshot_from(before, after, (misses, missed_frames, wait), upgrade)
    }
}

/// What a publisher does with one render's diagnostics.
#[derive(Clone, Copy, Debug, PartialEq, Eq)]
pub struct PublishPlan {
    /// A new preview-wait figure to store.
    pub wait_frames: Option<u64>,
    /// A new upgrade to record, with the count it brings.
    pub upgrade: Option<(u64, PreviewUpgrade)>,
}

/// Remembers what was last published, so that only changes are written.
pub struct CoreDiagnosticsPublisher {
    pub preview_wait_frames: u64,
    pub preview_upgrades: u64,
}

impl CoreDiagnosticsPublisher {
    pub fn new(target: &PlaybackDiagnostics) -> CoreDiagnosticsPublisher {
        let (preview_wait_frames, preview_upgrades) = target.published_core_values();
        CoreDiagnosticsPublisher { preview_wait_frames, preview_upgrades }
    }

    /// Which writes one render's diagnostics call for, and the publisher's
    /// memory after them: the wait figure when it changed, and the last
    /// upgrade when the upgrade count changed and the engine names one.
    pub fn plan(&mut self, diagnostics: RenderDiagnostics) -> (p: PublishPlan)
        ensures
            p.wait_frames == if diagnostics.preview_wait_frames != old(self).preview_wait_frames {
                Some(diagnostics.preview_wait_frames)
            } else {
                None
            },
            p.upgrade == if diagnostics.preview_upgrades != old(self).preview_upgrades {
                match diagnostics.last_preview_upgrade {
                    Some(u) => Some((diagnostics.preview_upgrades, u)),
                    None => None,
                }
            } else {
                None
            },
            final(self).preview_wait_frames == diagnostics.preview_wait_frames,
            final(self).preview_upgrades == diagnostics.preview_upgrades,
    {
        let mut plan = PublishPlan { wait_frames: None, upgrade: None };
        if diagnostics.preview_wait_frames != self.preview_wait_frames {
            self.preview_wait_frames = diagnostics.preview_wait_frames;
            plan.wait_frames = Some(diagnostics.preview_wait_frames);
        }
        if diagnostics.preview_upgrades != self.preview_upgrades {
            self.preview_upgrades = diagnostics.preview_upgrades;
            match diagnostics.last_preview_upgrade {
                Some(u) => {
                    plan.upgrade = Some((diagnostics.preview_upgrades, u));
                },
                None => {},
            }
        }
        plan
    }

    /// Publish one render's diagnostics to `target`, sampling the main
    /// callback frame only when an upgrade is recorded.
    pub fn observe<F: FnOnce() -> u64>(
        &mut self,
        diagnostics: RenderDiagnostics,
        main_callback_frame: F,
        target: &PlaybackDiagnostics,
    )
        requires
            call_requires(main_callback_frame, ()),
        ensures
            final(self).preview_wait_frames == diagnostics.preview_wait_frames,
            final(self).preview_upgrades == diagnostics.preview_upgrades,
    {
        let plan = self.plan(diagnostics);
        match plan.wait_frames {
            Some(w) => target.publish_preview_wait_frames(w),
            None => {},
        }
        match plan.upgrade {
            Some((count, u)) => {
                let frame = main_callback_frame();
                target.publish_upgrade(count, u, frame);
            },
            None => {},
        }
    }
}

} // verus!
