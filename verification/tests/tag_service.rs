use funkot_player::metadata::{Metadata, YearCandidate, YearSemantic};
use funkot_player::tag_service::{
    auto_tags, normalize_patch, snapshot_revision, store_error, track_state, LibraryEntry, Patch,
    METADATA_VERSION,
};
use funkot_player::tags::{StoreError, Tag, TagKind, TrackManualState, YearState};

fn entry() -> LibraryEntry {
    let mut m = Metadata::new();
    m.genres = vec!["Funkot".into(), "  ".into()];
    m.year_candidates = vec![YearCandidate::new("TDRC".into(), "2024".into(), YearSemantic::Recording)];
    LibraryEntry { hash: "h1".into(), metadata_version: METADATA_VERSION, metadata_error: None, embedded_metadata: Some(m) }
}

fn auto_manual() -> TrackManualState {
    TrackManualState { year: YearState::Auto, manual_additions: vec![], suppressed_auto_tags: vec![] }
}

#[test]
fn ready_metadata_shows_the_resolved_year_first_then_embedded_genres() {
    let s = track_state(Some(&entry()), &auto_manual(), 2026);
    assert_eq!(s.content_hash.as_deref(), Some("h1"));
    assert_eq!(s.metadata_status, "ready");
    assert_eq!(s.year_status, "resolved");
    assert_eq!(s.auto_year, Some(2024));
    let keys: Vec<_> = s.effective.iter().map(|t| (t.key.as_str(), t.kind.as_str(), t.value.as_str(), t.origin.as_str())).collect();
    assert_eq!(keys, vec![("year:2024", "year", "2024", "embedded"), ("genre:funkot", "genre", "Funkot", "embedded")]);
    assert!(s.diagnostics.is_empty());
}

#[test]
fn a_manual_year_and_a_suppressed_genre_leave_only_the_manual_year() {
    let manual = TrackManualState {
        year: YearState::SetTo { value: 2022 },
        manual_additions: vec![],
        suppressed_auto_tags: vec![Tag::new(TagKind::Genre, "funkot").unwrap()],
    };
    let s = track_state(Some(&entry()), &manual, 2026);
    assert_eq!(s.effective.len(), 1);
    assert_eq!(s.effective[0].key, "year:2022");
    assert_eq!(s.effective[0].origin, "manual");
    assert_eq!(s.manual.year, YearState::SetTo { value: 2022 });
}

#[test]
fn a_probe_error_is_diagnosed_and_gives_no_automatic_data() {
    let mut e = entry();
    e.metadata_error = Some("decode failed".into());
    let s = track_state(Some(&e), &auto_manual(), 2026);
    assert_eq!(s.metadata_status, "error");
    assert_eq!(s.auto_year, None);
    assert_eq!(s.diagnostics, vec!["decode failed".to_string()]);
    assert!(s.effective.is_empty());
    assert!(auto_tags(&e).is_empty());
}

#[test]
fn outdated_or_absent_metadata_is_pending() {
    let mut e = entry();
    e.metadata_version = METADATA_VERSION + 1;
    let s = track_state(Some(&e), &auto_manual(), 2026);
    assert_eq!(s.metadata_status, "pending");
    assert_eq!(s.auto_year, None);
    assert_eq!(s.year_status, "resolved");
    assert!(s.effective.is_empty());
    let none = track_state(None, &auto_manual(), 2026);
    assert_eq!(none.content_hash, None);
    assert_eq!(none.metadata_status, "pending");
    assert_eq!(none.year_status, "missing");
}

#[test]
fn a_future_year_is_not_automatic() {
    let s = track_state(Some(&entry()), &auto_manual(), 2023);
    assert_eq!(s.year_status, "future");
    assert_eq!(s.auto_year, None);
    assert_eq!(s.effective.len(), 1);
}

#[test]
fn auto_tags_keep_only_usable_genres() {
    let tags = auto_tags(&entry());
    assert_eq!(tags.len(), 1);
    assert_eq!(tags[0].value, "Funkot");
    assert_eq!(tags[0].kind, TagKind::Genre);
}

#[test]
fn store_errors_have_stable_codes() {
    assert_eq!(store_error(&StoreError::Conflict).code, "stale_revision");
    assert_eq!(store_error(&StoreError::Busy).code, "busy");
    assert_eq!(store_error(&StoreError::InvalidPatch).code, "invalid_input");
    assert_eq!(store_error(&StoreError::Io("disk".into())).code, "persist_failed");
}

#[test]
fn the_snapshot_revision_names_session_epoch_year_and_store() {
    assert_eq!(snapshot_revision("s", 3, 2026, "track-tags-v1:7"), "s/3/2026/track-tags-v1:7");
}

#[test]
fn a_patch_is_normalized_or_refused_whole() {
    let p = Patch {
        year_change: None,
        add: vec![Tag { kind: TagKind::Custom, value: "  candidate ".into() }],
        remove: vec![],
    };
    let n = normalize_patch(p).unwrap();
    assert_eq!(n.add[0].value, "candidate");
    let bad = Patch { year_change: None, add: vec![], remove: vec![Tag { kind: TagKind::Genre, value: " ".into() }] };
    assert_eq!(normalize_patch(bad).unwrap_err().code, "invalid_input");
}

use funkot_player::tag_service::{target_hashes, Target, UpdateRequest};

fn request(targets: &[(&str, &str)], revision: &str) -> UpdateRequest {
    UpdateRequest {
        targets: targets.iter().map(|(p, h)| Target { path: p.to_string(), expected_hash: h.to_string() }).collect(),
        expected_revision: revision.into(),
        patch: Patch { year_change: None, add: vec![], remove: vec![] },
    }
}

fn plain_entry(hash: &str) -> LibraryEntry {
    LibraryEntry { hash: hash.into(), metadata_version: METADATA_VERSION, metadata_error: None, embedded_metadata: None }
}

#[test]
fn an_edit_names_its_tracks_by_hash_and_refuses_the_first_changed_one() {
    let library = vec![("/a".to_string(), Some(plain_entry("ha"))), ("/b".to_string(), Some(plain_entry("hb"))), ("/c".to_string(), None)];
    let ok = target_hashes(true, "r1", &request(&[("/b", "hb"), ("/a", "ha")], "r1"), &library, &[true, true]).unwrap();
    assert_eq!(ok, vec!["hb".to_string(), "ha".to_string()]);
    let code = |r: Result<Vec<String>, funkot_player::tag_service::CommandError>| r.err().unwrap().code;
    assert_eq!(code(target_hashes(false, "r1", &request(&[("/a", "ha")], "r1"), &library, &[true])), "identity_unavailable");
    assert_eq!(code(target_hashes(true, "r2", &request(&[("/a", "ha")], "r1"), &library, &[true])), "stale_revision");
    assert_eq!(code(target_hashes(true, "r1", &request(&[], "r1"), &library, &[])), "invalid_input");
    assert_eq!(code(target_hashes(true, "r1", &request(&[("/c", "hc"), ("/a", "x")], "r1"), &library, &[true, true])), "identity_unavailable");
    assert_eq!(code(target_hashes(true, "r1", &request(&[("/a", "x"), ("/c", "hc")], "r1"), &library, &[true, true])), "identity_changed");
    assert_eq!(code(target_hashes(true, "r1", &request(&[("/a", "ha")], "r1"), &library, &[false])), "identity_changed");
}
