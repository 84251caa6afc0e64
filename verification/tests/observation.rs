use std::sync::atomic::Ordering;

use funkot_player::observation::{
    CoreDiagnosticsPublisher, EngineObservation, EngineSnapshot, PlaybackDiagnostics, PreviewUpgrade,
    RenderDiagnostics,
};

#[test]
fn preserves_none_and_usize_max() {
    let observation = EngineObservation::new(None, false);
    assert_eq!(observation.read(), Some(EngineSnapshot { current: None, finished: false }));
    observation.publish(Some(usize::MAX), true);
    assert_eq!(observation.read(), Some(EngineSnapshot { current: Some(usize::MAX), finished: true }));
}

#[test]
fn rejects_an_in_progress_or_intervening_write() {
    let observation = EngineObservation::new(Some(3), false);
    observation.sequence.fetch_add(1, Ordering::SeqCst);
    assert_eq!(observation.read(), None);
    observation.sequence.fetch_add(1, Ordering::SeqCst);
    assert_eq!(observation.read(), Some(EngineSnapshot { current: Some(3), finished: false }));
    assert_eq!(observation.read_after_before(|| observation.publish(Some(4), true)), None);
    assert_eq!(observation.read(), Some(EngineSnapshot { current: Some(4), finished: true }));
}

#[test]
fn accounts_for_exact_render_lock_miss_frames() {
    let target = PlaybackDiagnostics::new();
    target.record_render_lock_miss(512);
    target.record_render_lock_miss(7);
    let snapshot = target.read().unwrap();
    assert_eq!(snapshot.render_lock_misses, 2);
    assert_eq!(snapshot.render_lock_missed_frames, 519);
}

fn upgrade(index: usize) -> PreviewUpgrade {
    PreviewUpgrade { playlist_index: index, playhead: 12, preview_frames: 34 }
}

#[test]
fn publishes_upgrade_only_when_count_changes() {
    let target = PlaybackDiagnostics::new();
    let mut publisher = CoreDiagnosticsPublisher::new(&target);
    publisher.observe(
        RenderDiagnostics { preview_wait_frames: 4, preview_upgrades: 1, last_preview_upgrade: Some(upgrade(usize::MAX)) },
        || 50,
        &target,
    );
    let first = target.read().unwrap();
    assert_eq!(first.preview_wait_frames, 4);
    assert_eq!(first.upgrade.unwrap().main_callback_frame, 50);
    publisher.observe(
        RenderDiagnostics { preview_wait_frames: 9, preview_upgrades: 1, last_preview_upgrade: Some(upgrade(3)) },
        || panic!("unchanged upgrade must not sample main frame"),
        &target,
    );
    let second = target.read().unwrap();
    assert_eq!(second.preview_wait_frames, 9);
    assert_eq!(second.upgrade.unwrap().main_callback_frame, 50);
    assert_eq!(second.upgrade.unwrap().playlist_index, usize::MAX);
    let mut reopened = CoreDiagnosticsPublisher::new(&target);
    reopened.observe(
        RenderDiagnostics { preview_wait_frames: 9, preview_upgrades: 1, last_preview_upgrade: Some(upgrade(usize::MAX)) },
        || panic!("reopen must not republish an old upgrade"),
        &target,
    );
    assert_eq!(target.read(), Some(second));
}

#[test]
fn read_rejects_in_progress_and_intervening_upgrade_writes() {
    let target = PlaybackDiagnostics::new();
    target.upgrade_sequence.fetch_add(1, Ordering::SeqCst);
    assert_eq!(target.read(), None);
    target.upgrade_sequence.fetch_add(1, Ordering::SeqCst);
    target.publish_upgrade(1, upgrade(usize::MAX), 9);
    assert_eq!(target.read().unwrap().upgrade.unwrap().playlist_index, usize::MAX);
    assert_eq!(target.read_after_before(|| target.publish_upgrade(2, upgrade(7), 10)), None);
    assert_eq!(target.read().unwrap().upgrade.unwrap().count, 2);
}
