use funkot_player::playlists::{
    Catalog, CurrentOccurrence, PlaybackOrigin, PlaylistError, RemovedEntry, TrackRef,
};
use funkot_player::progress::{Claim, Observation, Occurrence};
use funkot_player::queue::QueueOrigin;

fn track(name: &str) -> TrackRef {
    TrackRef {
        content_hash: name.into(),
        preferred_path: format!("/{name}"),
        title: name.into(),
        artist: "artist".into(),
    }
}

fn entries(c: &Catalog, id: &str) -> Vec<String> {
    c.definition(id).unwrap().entries.iter().map(|e| e.track.title.clone()).collect()
}

fn ids(c: &Catalog, id: &str) -> Vec<String> {
    c.definition(id).unwrap().entries.iter().map(|e| e.entry_id.clone()).collect()
}

/// Starts one occurrence of the playlist's current run, as the engine reports it.
fn mark_started(c: &mut Catalog, id: &str, entry: &str) {
    let run = c.run(id).unwrap().run_id;
    let claim = Claim {
        occurrence: Occurrence { playlist: id.to_string(), run, entry: entry.to_string() },
        index: 7,
        live: true,
        cancelled: false,
    };
    assert!(c.observe_progress(Some(&claim), Observation::Started(7), None));
}

/// Reports one occurrence of run `run` unavailable, for `reason`.
fn mark_failed(c: &mut Catalog, id: &str, run: u64, entry: &str, reason: &str) -> Result<(), PlaylistError> {
    if c.unavailable(id, run, entry, reason) { Ok(()) } else { Err(PlaylistError::Stale) }
}

#[test]
fn reorder_remaining_preserves_consumed_slots() {
    let mut c = Catalog::default();
    let id = c.create("Set", ["A", "B", "C", "D"].into_iter().map(track).collect()).unwrap();
    let ids = ids(&c, &id);
    mark_started(&mut c, &id, &ids[0]);
    c.reorder_remaining(&id, &[ids[3].clone(), ids[1].clone(), ids[2].clone()]).unwrap();
    assert_eq!(entries(&c, &id), vec!["A", "D", "B", "C"]);
}

#[test]
fn reorder_remaining_rejects_anything_but_the_remaining_occurrences() {
    let mut c = Catalog::default();
    let id = c.create("Set", ["A", "B", "C"].into_iter().map(track).collect()).unwrap();
    let ids = ids(&c, &id);
    mark_started(&mut c, &id, &ids[0]);
    let before = c.revision;
    for ordered in [
        vec![ids[1].clone()],
        vec![ids[0].clone(), ids[1].clone(), ids[2].clone()],
        vec![ids[1].clone(), ids[1].clone()],
        vec![ids[2].clone(), "entry-99".to_string()],
    ] {
        assert!(matches!(c.reorder_remaining(&id, &ordered), Err(PlaylistError::InvalidInput { .. })));
    }
    assert_eq!(entries(&c, &id), vec!["A", "B", "C"]);
    assert_eq!(c.revision, before);
    assert_eq!(c.reorder_remaining("playlist-99", &[]), Err(PlaylistError::NotFound));
}

#[test]
fn duplicate_tracks_get_distinct_occurrences_and_non_destructive_progress() {
    let mut c = Catalog::default();
    let id = c.create("Set", vec![track("A"), track("B"), track("A")]).unwrap();
    let ids = ids(&c, &id);
    assert_eq!(ids, vec!["entry-2", "entry-3", "entry-4"]);
    mark_started(&mut c, &id, &ids[0]);
    assert_eq!(c.remaining(&id).unwrap().len(), 2);
    assert_eq!(entries(&c, &id), vec!["A", "B", "A"]);
}

#[test]
fn create_names_are_clean_and_unique() {
    let mut c = Catalog::default();
    let id = c.create("  Set  ", vec![]).unwrap();
    assert_eq!(id, "playlist-1");
    assert_eq!(c.definition(&id).unwrap().name, "Set");
    assert!(matches!(c.create("SET", vec![]), Err(PlaylistError::InvalidInput { .. })));
    assert!(matches!(c.create("   ", vec![]), Err(PlaylistError::InvalidInput { .. })));
    assert!(matches!(c.create("a\u{7}b", vec![]), Err(PlaylistError::InvalidInput { .. })));
    assert_eq!(c.definitions.len(), 1);
    assert_eq!(c.revision, 1);
}

#[test]
fn undo_is_anchored_without_undoing_later_edits() {
    let mut c = Catalog::default();
    let id = c.create("Set", vec![track("A"), track("B"), track("C")]).unwrap();
    let b = c.definition(&id).unwrap().entries[1].entry_id.clone();
    let removed = c.remove(&id, &b).unwrap();
    c.append(&id, vec![track("D")]).unwrap();
    let a = c.definition(&id).unwrap().entries[0].entry_id.clone();
    c.move_entry(&id, &a, 1).unwrap();
    c.undo_remove(&id, removed).unwrap();
    assert_eq!(entries(&c, &id), vec!["B", "C", "A", "D"]);
}

#[test]
fn undo_refuses_an_occurrence_that_is_still_present() {
    let mut c = Catalog::default();
    let id = c.create("Set", vec![track("A"), track("B")]).unwrap();
    let b = c.definition(&id).unwrap().entries[1].entry_id.clone();
    assert_eq!(c.remove(&id, "entry-none"), Err(PlaylistError::NotFound));
    let removed = c.remove(&id, &b).unwrap();
    assert_eq!(removed.previous_id.as_deref(), Some("entry-2"));
    assert_eq!(removed.following_id, None);
    let present = RemovedEntry {
        entry: c.definition(&id).unwrap().entries[0].duplicate(),
        previous_id: None,
        following_id: None,
        consumed: false,
        failure: None,
        run_id: 0,
    };
    assert_eq!(c.undo_remove(&id, present), Err(PlaylistError::DuplicateUndo));
    c.undo_remove(&id, removed).unwrap();
    assert_eq!(entries(&c, &id), vec!["A", "B"]);
}

#[test]
fn moved_consumed_occurrence_does_not_replay_and_restart_keeps_definition() {
    let mut c = Catalog::default();
    let id = c.create("Set", vec![track("A"), track("B")]).unwrap();
    let a = c.definition(&id).unwrap().entries[0].entry_id.clone();
    mark_started(&mut c, &id, &a);
    c.move_entry(&id, &a, 1).unwrap();
    assert_eq!(c.remaining(&id).unwrap()[0].track.title, "B");
    c.restart(&id).unwrap();
    assert_eq!(entries(&c, &id), vec!["B", "A"]);
    assert_eq!(c.remaining(&id).unwrap().len(), 2);
}

#[test]
fn restart_resume_never_resurrects_deleted_occurrence() {
    let mut c = Catalog::default();
    let id = c.create("Set", vec![track("A")]).unwrap();
    let e = c.definition(&id).unwrap().entries[0].duplicate();
    mark_started(&mut c, &id, &e.entry_id);
    c.current = Some(CurrentOccurrence {
        playlist_id: Some(id.clone()),
        run_id: 0,
        entry_id: Some(e.entry_id.clone()),
        track_ref: e.track,
        origin: PlaybackOrigin::Playlist,
        queue_origin: None,
    });
    c.remove(&id, &e.entry_id).unwrap();
    assert!(c.resume_after_restart().is_none());
}

#[test]
fn resume_after_restart_unconsumes_a_still_valid_occurrence() {
    let mut c = Catalog::default();
    let id = c.create("Set", vec![track("A"), track("B")]).unwrap();
    let e = c.definition(&id).unwrap().entries[0].duplicate();
    mark_started(&mut c, &id, &e.entry_id);
    assert_eq!(c.remaining(&id).unwrap().len(), 1);
    c.current = Some(CurrentOccurrence {
        playlist_id: Some(id.clone()),
        run_id: 0,
        entry_id: Some(e.entry_id.clone()),
        track_ref: e.track,
        origin: PlaybackOrigin::Playlist,
        queue_origin: None,
    });
    assert!(c.resume_after_restart().is_some());
    assert!(c.current.is_none());
    assert_eq!(c.remaining(&id).unwrap().len(), 2);
}

#[test]
fn normal_current_resume_retains_queue_origin() {
    let mut catalog = Catalog::default();
    let current = CurrentOccurrence {
        playlist_id: None,
        run_id: 0,
        entry_id: None,
        track_ref: track("normal"),
        origin: PlaybackOrigin::Normal,
        queue_origin: Some(QueueOrigin::Automatic),
    };
    catalog.current = Some(CurrentOccurrence {
        playlist_id: None,
        run_id: 0,
        entry_id: None,
        track_ref: track("normal"),
        origin: PlaybackOrigin::Normal,
        queue_origin: Some(QueueOrigin::Automatic),
    });
    assert_eq!(catalog.resume_after_restart(), Some(current));
    assert!(catalog.current.is_none());
}

#[test]
fn only_select_and_restart_advance_source_generation() {
    let mut catalog = Catalog::default();
    let id = catalog.create("Set", vec![track("A")]).unwrap();
    assert_eq!(catalog.generation, 0);
    catalog.append(&id, vec![track("B")]).unwrap();
    assert_eq!(catalog.generation, 0);
    catalog.select(Some(id.clone())).unwrap();
    assert_eq!(catalog.generation, 1);
    catalog.restart(&id).unwrap();
    assert_eq!(catalog.generation, 2);
}

#[test]
fn the_active_playlist_cannot_be_deleted() {
    let mut c = Catalog::default();
    let id = c.create("Set", vec![track("A")]).unwrap();
    c.select(Some(id.clone())).unwrap();
    assert_eq!(c.delete(&id), Err(PlaylistError::ActiveList));
    c.select(None).unwrap();
    c.delete(&id).unwrap();
    assert!(c.definitions.is_empty());
    assert!(c.runs.is_empty());
    assert_eq!(c.select(Some(id)), Err(PlaylistError::NotFound));
}

#[test]
fn rename_keeps_entries_and_rejects_a_clash() {
    let mut c = Catalog::default();
    let a = c.create("One", vec![track("A")]).unwrap();
    c.create("Two", vec![]).unwrap();
    assert!(matches!(c.rename(&a, "two"), Err(PlaylistError::InvalidInput { .. })));
    c.rename(&a, " one ").unwrap();
    assert_eq!(c.definition(&a).unwrap().name, "one");
    assert_eq!(c.definition(&a).unwrap().revision, 1);
    assert_eq!(entries(&c, &a), vec!["A"]);
}

#[test]
fn check_run_tells_stale_from_current() {
    let mut c = Catalog::default();
    let id = c.create("Set", vec![]).unwrap();
    assert_eq!(c.check_run(&id, 0), Ok(()));
    assert_eq!(c.restart(&id), Ok(1));
    assert_eq!(c.check_run(&id, 0), Err(PlaylistError::Stale));
    assert_eq!(c.check_run("nope", 0), Err(PlaylistError::NotFound));
}

#[test]
fn failure_consumes_once_and_keeps_first_reason() {
    let mut catalog = Catalog::default();
    let id = catalog.create("Set", vec![track("A")]).unwrap();
    let entry = catalog.definition(&id).unwrap().entries[0].entry_id.clone();
    let before = catalog.revision;
    mark_failed(&mut catalog, &id, 0, &entry, "missing").unwrap();
    let after_first = catalog.revision;
    mark_failed(&mut catalog, &id, 0, &entry, "different").unwrap();
    assert!(catalog.run(&id).unwrap().consumed.contains(&entry));
    let failures = &catalog.run(&id).unwrap().failures;
    assert_eq!(failures.iter().find(|f| f.0 == entry).unwrap().1, "missing");
    assert_eq!(catalog.revision, after_first);
    assert!(after_first > before);
}

#[test]
fn a_failure_needs_a_reason_and_the_current_run() {
    let mut c = Catalog::default();
    let id = c.create("Set", vec![track("A")]).unwrap();
    let entry = c.definition(&id).unwrap().entries[0].entry_id.clone();
    assert_eq!(mark_failed(&mut c, &id, 0, &entry, "   "), Err(PlaylistError::Stale));
    assert_eq!(mark_failed(&mut c, &id, 1, &entry, "missing"), Err(PlaylistError::Stale));
    assert_eq!(mark_failed(&mut c, &id, 0, "entry-99", "missing"), Err(PlaylistError::Stale));
    assert!(c.run(&id).unwrap().consumed.is_empty());
    assert_eq!(c.revision, 1);
}

#[test]
fn a_cancelled_or_mismatched_claim_consumes_nothing() {
    let mut c = Catalog::default();
    let id = c.create("Set", vec![track("A")]).unwrap();
    let entry = c.definition(&id).unwrap().entries[0].entry_id.clone();
    let mut claim = Claim {
        occurrence: Occurrence { playlist: id.clone(), run: 0, entry: entry.clone() },
        index: 3,
        live: true,
        cancelled: true,
    };
    assert!(!c.observe_progress(Some(&claim), Observation::Started(3), None));
    claim.cancelled = false;
    assert!(!c.observe_progress(Some(&claim), Observation::Started(4), None));
    assert!(!c.observe_progress(Some(&claim), Observation::Passive, None));
    assert!(!c.observe_progress(None, Observation::Started(3), None));
    assert!(c.run(&id).unwrap().consumed.is_empty());
    assert!(c.observe_progress(Some(&claim), Observation::Current(3), None));
    assert_eq!(c.run(&id).unwrap().consumed, vec![entry.clone()]);
    let rev = c.revision;
    assert!(c.observe_progress(Some(&claim), Observation::Started(3), None));
    assert_eq!(c.revision, rev);
    assert!(!c.observe_progress(Some(&claim), Observation::Failed { index: 3, reason_present: true }, None));
    assert!(c.observe_progress(Some(&claim), Observation::Failed { index: 3, reason_present: false }, Some("gone")));
    assert_eq!(c.run(&id).unwrap().failures, vec![(entry, "gone".to_string())]);
}

#[test]
fn duplicate_copies_tracks_with_fresh_ids_and_a_free_name() {
    let mut c = Catalog::default();
    let id = c.create("Set", vec![track("A"), track("B")]).unwrap();
    let first = ids(&c, &id)[0].clone();
    mark_started(&mut c, &id, &first);
    let copy = c.duplicate(&id).unwrap();
    assert_eq!(copy, "playlist-4");
    let d = c.definition(&copy).unwrap();
    assert_eq!(d.name, "Set copy");
    assert_eq!(d.revision, 0);
    assert_eq!(entries(&c, &copy), vec!["A", "B"]);
    assert_eq!(ids(&c, &copy), vec!["entry-5", "entry-6"]);
    assert!(c.run(&copy).unwrap().consumed.is_empty());
    let second = c.duplicate(&id).unwrap();
    assert_eq!(c.definition(&second).unwrap().name, "Set copy 2");
    let third = c.duplicate(&id).unwrap();
    assert_eq!(c.definition(&third).unwrap().name, "Set copy 3");
    assert_eq!(c.duplicate("playlist-99"), Err(PlaylistError::NotFound));
    assert_eq!(c.validate(), Ok(()));
}

#[test]
fn validate_reports_the_first_inconsistency() {
    let mut c = Catalog::default();
    assert_eq!(c.validate(), Ok(()));
    let id = c.create("Set", vec![track("A")]).unwrap();
    assert_eq!(c.validate(), Ok(()));

    let mut bad = Catalog::default();
    bad.schema_version = 2;
    assert!(matches!(bad.validate(), Err(PlaylistError::InvalidInput { message }) if message == "unsupported schema"));

    let mut no_run = Catalog::default();
    let other = no_run.create("Other", vec![]).unwrap();
    no_run.runs.clear();
    assert!(matches!(no_run.validate(), Err(PlaylistError::InvalidInput { message }) if message == "playlist has no run"));
    let _ = other;

    let mut orphan = Catalog::default();
    orphan.active_id = Some("playlist-9".into());
    assert!(matches!(orphan.validate(), Err(PlaylistError::InvalidInput { message }) if message == "orphan playlist state"));

    let mut dup = Catalog::default();
    let a = dup.create("A", vec![track("x")]).unwrap();
    let b = dup.create("B", vec![track("y")]).unwrap();
    let first = dup.definition(&a).unwrap().entries[0].entry_id.clone();
    let pos = dup.definitions.iter().position(|d| d.id == b).unwrap();
    dup.definitions[pos].entries[0].entry_id = first;
    assert!(matches!(dup.validate(), Err(PlaylistError::InvalidInput { message }) if message == "duplicate entry id"));

    c.current = Some(CurrentOccurrence {
        playlist_id: Some(id.clone()),
        run_id: 0,
        entry_id: Some("entry-99".into()),
        track_ref: track("A"),
        origin: PlaybackOrigin::Playlist,
        queue_origin: None,
    });
    assert!(matches!(c.validate(), Err(PlaylistError::InvalidInput { message }) if message == "invalid playlist current"));
}

#[test]
fn a_playlist_with_a_usable_name_can_be_copied() {
    let mut c = Catalog::default();
    let id = c.create("Set", vec![track("A")]).unwrap();
    assert!(c.copy_name_free(&id));
    assert!(c.copy_name_free("missing"));
    let copy = c.duplicate(&id).unwrap();
    assert_eq!(c.definition(&copy).unwrap().name, "Set copy");
    let again = c.duplicate(&id).unwrap();
    assert_eq!(c.definition(&again).unwrap().name, "Set copy 2");
}
