use funkot_player::playlists::{Catalog, LoadState, PlaylistError, TrackRef};
use funkot_player::queue::{QueueItem, QueueOrigin};
use funkot_player::service::{
    append_to_normal, claims_hold, entry_status, error, items_hold, move_in_remaining, preserve_claims,
    queue_move, queue_remove, store_status, summaries, CommandError,
};

fn track(name: &str) -> TrackRef {
    TrackRef { content_hash: name.into(), preferred_path: format!("/{name}"), title: name.into(), artist: "artist".into() }
}

fn ids(v: &[&str]) -> Vec<String> {
    v.iter().map(|s| s.to_string()).collect()
}

#[test]
fn playlist_errors_report_code_and_message() {
    let e = CommandError::from_playlist(PlaylistError::InvalidInput { message: "playlist name already exists".into() });
    assert_eq!((e.code.as_str(), e.message.as_str()), ("invalid_input", "playlist name already exists"));
    assert_eq!(CommandError::from_playlist(PlaylistError::NotFound).code, "not_found");
    assert_eq!(CommandError::from_playlist(PlaylistError::DuplicateUndo).code, "duplicate_undo");
    let ro = CommandError::from_playlist(PlaylistError::StoreReadOnly { state: LoadState::Corrupt });
    assert_eq!((ro.code.as_str(), ro.message.as_str()), ("store_read_only", ""));
    assert_eq!(error("busy"), CommandError { code: "busy".into(), message: "busy".into() });
}

#[test]
fn store_status_prefers_a_failed_progress_save() {
    assert_eq!(store_status(true, &LoadState::Ready), "persist_failed");
    assert_eq!(store_status(false, &LoadState::UnsupportedSchema), "unsupported_schema");
    assert_eq!(store_status(false, &LoadState::IoError), "io_error");
}

#[test]
fn summaries_count_total_and_remaining() {
    let mut c = Catalog::default();
    let id = c.create("Set", vec![track("A"), track("B")]).unwrap();
    let entry = c.definition(&id).unwrap().entries[0].entry_id.clone();
    assert!(c.unavailable(&id, 0, &entry, "missing"));
    let s = summaries(&c);
    assert_eq!(s.len(), 1);
    assert_eq!((s[0].id.as_str(), s[0].name.as_str(), s[0].total, s[0].remaining), (id.as_str(), "Set", 2, 1));
}

#[test]
fn row_status_follows_failure_current_played_claimed_then_availability() {
    let missing = "missing".to_string();
    let other = "decode".to_string();
    assert_eq!(entry_status(Some(&missing), None, true, true, true, true), ("missing".into(), Some("missing".into())));
    assert_eq!(entry_status(Some(&other), None, false, true, false, false), ("unplayable".into(), Some("decode".into())));
    assert_eq!(entry_status(None, None, true, true, true, false).0, "current");
    assert_eq!(entry_status(None, None, false, true, true, false).0, "played");
    assert_eq!(entry_status(None, None, false, false, true, true).0, "prepared");
    assert_eq!(entry_status(None, None, false, false, true, false).0, "preparing");
    let avail = ("missing".to_string(), "missing".to_string());
    assert_eq!(entry_status(None, Some(&avail), false, false, false, false), ("missing".into(), Some("missing".into())));
    assert_eq!(entry_status(None, None, false, false, false, false), ("pending".into(), None));
}

#[test]
fn moving_within_the_remaining_order() {
    let order = ids(&["e1", "e2", "e3"]);
    assert_eq!(move_in_remaining(order.clone(), "e3", 0).unwrap(), ids(&["e3", "e1", "e2"]));
    assert_eq!(move_in_remaining(order.clone(), "e9", 0).unwrap_err().code, "stale");
    assert_eq!(move_in_remaining(order, "e1", 3).unwrap_err().code, "invalid_input");
}

#[test]
fn claims_hold_only_for_a_prefix() {
    assert!(claims_hold(&ids(&["a", "b", "c"]), &ids(&["a", "b"])));
    assert!(!claims_hold(&ids(&["a", "c"]), &ids(&["a", "b"])));
    assert!(!claims_hold(&ids(&["a"]), &ids(&["a", "b"])));
    let a = QueueItem::manual("/a".into());
    let b = QueueItem::automatic("/b".into());
    assert!(items_hold(&[a.clone(), b.clone()], &[a.clone()]));
    assert!(!items_hold(&[b.clone(), a.clone()], &[a]));
}

#[test]
fn preserved_claims_go_first_once() {
    let a = QueueItem::manual("/a".into());
    let b = QueueItem::manual("/b".into());
    let c = QueueItem::automatic("/c".into());
    let b_auto = QueueItem::automatic("/b".into());
    let mut normal = vec![a.clone(), b.clone(), c.clone()];
    preserve_claims(&mut normal, &[c.clone(), b_auto.clone()]);
    assert_eq!(normal, vec![c, b_auto, a, b]);
}

#[test]
fn appended_tracks_go_before_the_first_automatic_item() {
    let mut normal = vec![QueueItem::manual("/a".into()), QueueItem::automatic("/b".into())];
    let tracks = vec![
        ("/c".to_string(), false),
        ("/gated".to_string(), true),
        ("/a".to_string(), false),
        ("/now".to_string(), false),
        ("/d".to_string(), false),
    ];
    let now = "/now".to_string();
    assert_eq!(append_to_normal(&mut normal, &tracks, false, Some(&now)), (2, 1, 2));
    assert_eq!(
        normal,
        vec![QueueItem::manual("/a".into()), QueueItem::manual("/c".into()), QueueItem::manual("/d".into()), QueueItem::automatic("/b".into())]
    );
    let mut single = vec![QueueItem::manual("/a".into())];
    assert_eq!(append_to_normal(&mut single, &[("/a".to_string(), false)], true, None), (1, 0, 0));
    assert_eq!(single.len(), 2);
}

#[test]
fn queue_edits_check_staleness_and_priority_class() {
    let a = QueueItem::manual("/a".into());
    let b = QueueItem::manual("/b".into());
    let c = QueueItem::automatic("/c".into());
    let mut normal = vec![a.clone(), b.clone(), c.clone()];
    assert_eq!(queue_move(&mut normal, true, 0, 1, &a).unwrap_err().code, "stale");
    assert_eq!(queue_move(&mut normal, false, 0, 1, &b).unwrap_err().code, "stale");
    assert_eq!(queue_move(&mut normal, false, 0, 2, &a).unwrap_err().code, "invalid_input");
    queue_move(&mut normal, false, 0, 1, &a).unwrap();
    assert_eq!(normal, vec![b.clone(), a.clone(), c.clone()]);
    assert_eq!(queue_remove(&mut normal, false, 5, &a).unwrap_err().code, "stale");
    queue_remove(&mut normal, false, 1, &a).unwrap();
    assert_eq!(normal, vec![b, c]);
}

#[test]
fn queue_origin_is_part_of_the_item() {
    assert_ne!(QueueItem::manual("/x".into()), QueueItem { path: "/x".into(), origin: QueueOrigin::Automatic });
}

use funkot_player::service::{details, ClaimState};

fn claim(index: usize, source: &str, entry: &str, path: &str) -> ClaimState {
    ClaimState {
        index,
        source: Some(source.into()),
        run: 0,
        entry: Some(entry.into()),
        path: path.into(),
        live: true,
        cancelled: false,
    }
}

#[test]
fn details_show_each_occurrence_with_its_status() {
    let mut c = Catalog::default();
    let id = c.create("Set", vec![track("A"), track("B"), track("C"), track("D")]).unwrap();
    let ids: Vec<String> = c.definition(&id).unwrap().entries.iter().map(|e| e.entry_id.clone()).collect();
    assert!(c.unavailable(&id, 0, &ids[0], "missing"));
    let claims = vec![claim(4, &id, &ids[1], "/moved/B"), claim(5, &id, &ids[2], "/C")];
    let availability = vec![(ids[3].clone(), ("missing".to_string(), "missing".to_string()))];
    let d = details(&c, &id, true, &claims, Some(4), true, &availability, false).unwrap();
    assert_eq!((d.total, d.skipped, d.run_id, d.ended), (4, 1, 0, false));
    let statuses: Vec<_> = d.rows.iter().map(|r| r.status.as_str()).collect();
    assert_eq!(statuses, vec!["missing", "current", "prepared", "missing"]);
    assert_eq!(d.rows[1].path, "/moved/B");
    assert_eq!(d.rows[0].reason.as_deref(), Some("missing"));
    let remaining = details(&c, &id, false, &[], None, false, &[], false).unwrap();
    assert_eq!(remaining.rows.len(), 3);
    assert_eq!(remaining.rows[0].status, "pending");
    assert_eq!(details(&c, "playlist-99", true, &[], None, false, &[], false).unwrap_err().code, "not_found");
}

use funkot_player::playlists::{CurrentOccurrence, PlaybackOrigin};
use funkot_player::service::{capture_current, PlayingClaim};

#[test]
fn the_audible_occurrence_is_saved_only_while_it_still_exists() {
    let mut c = Catalog::default();
    let id = c.create("Set", vec![track("A"), track("B")]).unwrap();
    let ids: Vec<String> = c.definition(&id).unwrap().entries.iter().map(|e| e.entry_id.clone()).collect();
    let playing = PlayingClaim { source: Some(id.clone()), run: 0, entry: Some(ids[0].clone()), track: track("A"), origin: QueueOrigin::Manual };
    capture_current(&mut c, Some(&playing), true, None);
    let current = c.current.as_ref().unwrap();
    assert_eq!((current.origin, current.queue_origin, current.entry_id.as_deref()), (PlaybackOrigin::Playlist, None, Some(ids[0].as_str())));

    let mut fresh = Catalog::default();
    let normal = PlayingClaim { source: None, run: 0, entry: None, track: track("N"), origin: QueueOrigin::Automatic };
    capture_current(&mut fresh, Some(&normal), true, None);
    assert_eq!(fresh.current.as_ref().unwrap().queue_origin, Some(QueueOrigin::Automatic));

    let mut stale = Catalog::default();
    let sid = stale.create("Set", vec![track("A")]).unwrap();
    let sentry = stale.definition(&sid).unwrap().entries[0].entry_id.clone();
    let old_run = PlayingClaim { source: Some(sid.clone()), run: 7, entry: Some(sentry.clone()), track: track("A"), origin: QueueOrigin::Manual };
    capture_current(&mut stale, Some(&old_run), true, None);
    assert!(stale.current.is_none());

    let removed = CurrentOccurrence {
        playlist_id: Some(sid.clone()),
        run_id: 0,
        entry_id: Some("entry-99".into()),
        track_ref: track("A"),
        origin: PlaybackOrigin::Playlist,
        queue_origin: None,
    };
    capture_current(&mut stale, None, false, Some(&removed));
    assert!(stale.current.is_none());
    let kept = CurrentOccurrence { entry_id: Some(sentry), ..removed };
    capture_current(&mut stale, None, true, Some(&kept));
    assert!(stale.current.is_none());
    capture_current(&mut stale, None, false, Some(&kept));
    assert_eq!(stale.current, Some(kept));
}

use funkot_player::service::first_unclaimed;

#[test]
fn the_next_occurrence_is_the_first_remaining_one_not_yet_claimed() {
    let mut c = Catalog::default();
    let id = c.create("Set", vec![track("A"), track("B"), track("C")]).unwrap();
    let ids: Vec<String> = c.definition(&id).unwrap().entries.iter().map(|e| e.entry_id.clone()).collect();
    let (run, first) = first_unclaimed(&c, &id, &[]).unwrap();
    assert_eq!((run, first.entry_id.as_str()), (0, ids[0].as_str()));
    let claims = vec![claim(0, &id, &ids[0], "/A")];
    assert_eq!(first_unclaimed(&c, &id, &claims).unwrap().1.entry_id, ids[1]);
    assert!(c.unavailable(&id, 0, &ids[1], "missing"));
    assert_eq!(first_unclaimed(&c, &id, &claims).unwrap().1.entry_id, ids[2]);
    let mut cancelled = claim(1, &id, &ids[2], "/C");
    cancelled.cancelled = true;
    assert_eq!(first_unclaimed(&c, &id, &[claim(0, &id, &ids[0], "/A"), cancelled]).unwrap().1.entry_id, ids[2]);
    let all = vec![claim(0, &id, &ids[0], "/A"), claim(2, &id, &ids[2], "/C")];
    assert!(first_unclaimed(&c, &id, &all).is_none());
    assert!(first_unclaimed(&c, "playlist-99", &[]).is_none());
}

use funkot_player::service::{claim_failed, claim_started};

fn engine_claim(index: usize, source: Option<&str>) -> ClaimState {
    ClaimState {
        index,
        source: source.map(|s| s.to_string()),
        run: 1,
        entry: source.map(|_| format!("e{index}")),
        path: format!("/{index}"),
        live: true,
        cancelled: false,
    }
}

#[test]
fn a_started_claim_becomes_current_and_the_old_one_stops_being_live() {
    let mut claims = vec![engine_claim(1, Some("p")), engine_claim(2, None), engine_claim(3, Some("p"))];
    claims[2].live = false;
    let mut current = Some(1);
    assert_eq!(claim_started(&mut claims, &mut current, 1), None);
    assert_eq!(claim_started(&mut claims, &mut current, 9), None);
    assert_eq!(current, Some(1));
    assert_eq!(claim_started(&mut claims, &mut current, 3), Some(2));
    assert_eq!(current, Some(3));
    assert!(!claims[0].live && claims[1].live && claims[2].live);
    claims[1].cancelled = true;
    assert_eq!(claim_started(&mut claims, &mut current, 2), None);
}

#[test]
fn a_failed_claim_stops_being_live_once() {
    let mut claims = vec![engine_claim(1, Some("p")), engine_claim(2, Some("p"))];
    assert_eq!(claim_failed(&mut claims, 2), Some(1));
    assert!(claims[0].live && !claims[1].live);
    assert_eq!(claim_failed(&mut claims, 2), None);
}
