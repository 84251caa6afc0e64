use funkot_player::transport::{
    nav_origin, pack_native_control_state, CallbackWatch, NowTracker, Origin, Phase, StallWatch,
    NAV_MARK_TTL_MS,
};

#[test]
fn moving_ticks_never_report_lost() {
    let mut w = CallbackWatch::new(0);
    for t in 1..=10 {
        assert!(!w.observe(t, false));
    }
}

#[test]
fn stuck_under_the_threshold_is_not_lost() {
    let mut w = CallbackWatch::new(5);
    assert!(!w.observe(5, false));
    assert!(!w.observe(5, false));
}

#[test]
fn stuck_for_the_full_threshold_is_lost() {
    let mut w = CallbackWatch::new(5);
    assert!(!w.observe(5, false));
    assert!(!w.observe(5, false));
    assert!(w.observe(5, false));
}

#[test]
fn recovering_after_stuck_resets_and_reports_alive() {
    let mut w = CallbackWatch::new(5);
    assert!(!w.observe(5, false));
    assert!(!w.observe(5, false));
    assert!(w.observe(5, false));
    assert!(!w.observe(6, false));
    assert!(!w.observe(6, false));
    assert!(!w.observe(6, false));
}

#[test]
fn error_seen_with_stuck_ticks_reports_lost_on_the_first_observation() {
    let mut w = CallbackWatch::new(5);
    assert!(w.observe(5, true));
}

#[test]
fn error_seen_with_moving_ticks_is_not_lost() {
    let mut w = CallbackWatch::new(5);
    assert!(!w.observe(6, true));
}

fn watch() -> StallWatch {
    let w = StallWatch::new(2);
    assert_eq!(w.stall_after_frames, 4, "tests below assume a 4-frame threshold");
    w
}

#[test]
fn starting_until_the_first_sound() {
    let mut w = watch();
    assert!(w.observe(4, true) == Phase::Starting);
    assert!(w.observe(4, true) == Phase::Starting);
}

#[test]
fn playing_once_sound_arrives() {
    let mut w = watch();
    w.observe(4, true);
    assert!(w.observe(4, false) == Phase::Playing);
}

#[test]
fn stalls_after_enough_silence_once_started() {
    let mut w = watch();
    w.observe(4, false);
    assert!(w.observe(3, true) == Phase::Playing);
    assert!(w.observe(1, true) == Phase::Stalled);
    assert!(w.observe(100, true) == Phase::Stalled);
}

#[test]
fn recovers_to_playing_once_sound_returns() {
    let mut w = watch();
    w.observe(4, false);
    w.observe(4, true);
    assert!(w.observe(1, true) == Phase::Stalled);
    assert!(w.observe(4, false) == Phase::Playing);
}

#[test]
fn pausing_does_not_bank_silence_toward_a_stall() {
    let mut w = watch();
    w.observe(4, false);
    for _ in 0..10 {
        w.reset_silence();
    }
    assert!(w.observe(3, true) == Phase::Playing);
}

#[test]
fn phase_survives_the_round_trip_through_the_atomic() {
    for p in [
        Phase::Idle,
        Phase::Starting,
        Phase::Playing,
        Phase::Paused,
        Phase::Stalled,
        Phase::Failed,
        Phase::Disconnected,
    ] {
        assert!(Phase::from_u8(p.to_u8()) == p, "{} did not round-trip", p.as_str());
    }
}

#[test]
fn unknown_phase_bytes_decode_as_idle() {
    assert_eq!(Phase::from_u8(7), Phase::Idle);
    assert_eq!(Phase::from_u8(255), Phase::Idle);
    assert_eq!(Phase::Disconnected.as_str(), "disconnected");
}

#[test]
fn pack_native_control_state_encodes_paused_and_phase() {
    assert!(
        pack_native_control_state(true, Phase::Disconnected)
            == ((Phase::Disconnected.to_u8() as i32) << 1) | 1
    );
    assert!(pack_native_control_state(false, Phase::Playing) == (Phase::Playing.to_u8() as i32) << 1);
    assert_eq!(pack_native_control_state(true, Phase::Paused), 7);
}

#[test]
fn no_mark_is_automatic() {
    assert_eq!(nav_origin(0, 1_000), Origin::Automatic);
}

#[test]
fn a_mark_within_the_ttl_is_manual() {
    assert_eq!(nav_origin(1_000, 6_000), Origin::Manual);
}

#[test]
fn a_mark_past_the_ttl_is_automatic() {
    assert_eq!(nav_origin(1_000, 1_000 + NAV_MARK_TTL_MS + 1), Origin::Automatic);
}

#[test]
fn a_mark_exactly_at_the_ttl_boundary_is_still_manual() {
    assert_eq!(nav_origin(1_000, 1_000 + NAV_MARK_TTL_MS), Origin::Manual);
}

fn p(name: &str) -> String {
    name.to_string()
}

#[test]
fn first_track_started_sets_now_and_leaves_previous_none() {
    let mut t = NowTracker::new();
    t.on_track_started(p("a.wav"));
    assert_eq!(t.now, Some(p("a.wav")));
    assert_eq!(t.previous, None);
}

#[test]
fn transition_started_alone_does_not_move_now_until_it_ends() {
    let mut t = NowTracker::new();
    t.on_track_started(p("a.wav"));
    t.on_transition_started(p("a.wav"), p("b.wav"), Origin::Automatic);
    assert_eq!(t.now, Some(p("a.wav")), "TransitionStarted alone must not switch now");
    t.on_transition_ended();
    assert_eq!(t.now, Some(p("b.wav")));
    assert_eq!(t.previous, Some(p("a.wav")));
}

#[test]
fn track_started_mid_transition_does_not_jump_ahead_of_transition_ended() {
    let mut t = NowTracker::new();
    t.on_track_started(p("a.wav"));
    t.on_transition_started(p("a.wav"), p("b.wav"), Origin::Automatic);
    t.on_track_started(p("b.wav"));
    assert_eq!(t.now, Some(p("a.wav")));
}

#[test]
fn a_transition_started_while_one_is_in_progress_folds_the_interrupted_one_in() {
    let mut t = NowTracker::new();
    t.on_track_started(p("a.wav"));
    t.on_transition_started(p("a.wav"), p("b.wav"), Origin::Automatic);
    t.on_transition_started(p("b.wav"), p("c.wav"), Origin::Automatic);
    assert_eq!(t.now, Some(p("b.wav")), "the interrupted transition's destination is what is actually playing");
    assert_eq!(t.previous, Some(p("a.wav")));
    assert!(t.last_transition.is_none());
}

#[test]
fn the_transition_that_did_the_interrupting_is_recorded_normally_once_it_ends() {
    let mut t = NowTracker::new();
    t.on_track_started(p("a.wav"));
    t.on_transition_started(p("a.wav"), p("b.wav"), Origin::Automatic);
    t.on_transition_started(p("b.wav"), p("c.wav"), Origin::Automatic);
    t.on_transition_ended();
    assert_eq!(t.now, Some(p("c.wav")));
    assert_eq!(t.previous, Some(p("b.wav")));
    let last = t.last_transition.as_ref().expect("B->C should be recorded");
    assert_eq!(last.from, p("b.wav"));
    assert_eq!(last.to, p("c.wav"));
}

#[test]
fn automatic_transition_is_recorded_as_the_last_completed_transition() {
    let mut t = NowTracker::new();
    t.on_track_started(p("a.wav"));
    t.on_transition_started(p("a.wav"), p("b.wav"), Origin::Automatic);
    t.on_transition_ended();
    let last = t.last_transition.as_ref().expect("automatic transition should be recorded");
    assert_eq!(last.from, p("a.wav"));
    assert_eq!(last.to, p("b.wav"));
    assert_eq!(last.origin, Origin::Automatic);
}

#[test]
fn manual_transition_is_not_recorded_as_the_last_automatic_transition() {
    let mut t = NowTracker::new();
    t.on_track_started(p("a.wav"));
    t.on_transition_started(p("a.wav"), p("b.wav"), Origin::Manual);
    t.on_transition_ended();
    assert!(t.last_transition.is_none());
    assert_eq!(t.now, Some(p("b.wav")));
}

#[test]
fn restart_current_is_not_recorded_as_the_last_automatic_transition() {
    let mut t = NowTracker::new();
    t.on_track_started(p("a.wav"));
    t.on_transition_started(p("a.wav"), p("a.wav"), Origin::Automatic);
    t.on_transition_ended();
    assert!(t.last_transition.is_none());
    assert_eq!(t.now, Some(p("a.wav")));
}

#[test]
fn transition_ended_without_one_in_progress_is_a_no_op() {
    let mut t = NowTracker::new();
    t.on_track_started(p("a.wav"));
    let before_now = t.now.clone();
    let before_previous = t.previous.clone();
    assert!(t.on_transition_ended().is_none());
    assert_eq!(t.now, before_now);
    assert_eq!(t.previous, before_previous);
    assert!(t.last_transition.is_none());
}
