use funkot_player::store::{
    dismiss_key, effective_is_funkot, feedback_filename_stamp, flag_key, restored_folder_pos,
    restored_pending, retire_revoked, utc_rfc3339_from_unix_secs,
};

fn p(s: &str) -> String {
    s.to_string()
}

#[test]
fn utc_rfc3339_from_unix_secs_formats_epoch() {
    assert_eq!(utc_rfc3339_from_unix_secs(0), "1970-01-01T00:00:00Z");
    assert_eq!(utc_rfc3339_from_unix_secs(86_400), "1970-01-02T00:00:00Z");
    assert_eq!(utc_rfc3339_from_unix_secs(1_785_937_020), "2026-08-05T13:37:00Z");
}

#[test]
fn utc_rfc3339_handles_leap_day_and_end_of_year() {
    assert_eq!(utc_rfc3339_from_unix_secs(951_782_400), "2000-02-29T00:00:00Z");
    assert_eq!(utc_rfc3339_from_unix_secs(1_704_067_199), "2023-12-31T23:59:59Z");
}

#[test]
fn feedback_filename_stamp_strips_separators() {
    assert_eq!(feedback_filename_stamp("2026-08-05T13:37:00Z"), "20260805T133700Z");
}

#[test]
fn restored_pending_puts_in_flight_before_saved_queue() {
    let in_flight = vec![p("/music/active.flac")];
    let saved = vec![p("/music/next.flac")];
    let restored = restored_pending(&in_flight, &saved, |_| true);
    assert_eq!(restored, vec![p("/music/active.flac"), p("/music/next.flac")]);
}

#[test]
fn restored_pending_dedupes_keeping_first_occurrence() {
    let in_flight = vec![p("/music/a.flac")];
    let saved = vec![p("/music/a.flac"), p("/music/b.flac")];
    let restored = restored_pending(&in_flight, &saved, |_| true);
    assert_eq!(restored, vec![p("/music/a.flac"), p("/music/b.flac")]);
}

#[test]
fn restored_pending_drops_paths_that_no_longer_exist() {
    let in_flight = vec![p("/music/gone.flac"), p("/music/still-here.flac")];
    let saved = vec![p("/music/also-gone.flac")];
    let restored = restored_pending(&in_flight, &saved, |path| path == "/music/still-here.flac");
    assert_eq!(restored, vec![p("/music/still-here.flac")]);
}

#[test]
fn restored_pending_both_empty_is_empty() {
    assert!(restored_pending(&[], &[], |_| true).is_empty());
}

#[test]
fn restored_folder_pos_finds_the_next_track() {
    let tracks = vec![p("/music/a.flac"), p("/music/b.flac"), p("/music/c.flac")];
    assert_eq!(restored_folder_pos(&tracks, Some(&p("/music/a.flac"))), 1);
}

#[test]
fn restored_folder_pos_wraps_after_the_last_track() {
    let tracks = vec![p("/music/a.flac"), p("/music/b.flac"), p("/music/c.flac")];
    assert_eq!(restored_folder_pos(&tracks, Some(&p("/music/c.flac"))), 0);
}

#[test]
fn restored_folder_pos_falls_back_to_zero_when_not_found() {
    let tracks = vec![p("/music/a.flac"), p("/music/b.flac")];
    assert_eq!(restored_folder_pos(&tracks, Some(&p("/music/removed.flac"))), 0);
}

#[test]
fn restored_folder_pos_falls_back_to_zero_when_none() {
    let tracks = vec![p("/music/a.flac")];
    assert_eq!(restored_folder_pos(&tracks, None), 0);
}

#[test]
fn retire_revoked_removes_the_last_match_not_the_first() {
    let mut in_flight = vec![p("/music/x.flac"), p("/music/x.flac")];
    retire_revoked(&mut in_flight, &p("/music/x.flac"));
    assert_eq!(in_flight, vec![p("/music/x.flac")]);
}

#[test]
fn retire_revoked_removes_the_last_of_interleaved_matches() {
    let mut in_flight = vec![p("/music/x.flac"), p("/music/y.flac"), p("/music/x.flac"), p("/music/z.flac")];
    retire_revoked(&mut in_flight, &p("/music/x.flac"));
    assert_eq!(in_flight, vec![p("/music/x.flac"), p("/music/y.flac"), p("/music/z.flac")]);
}

#[test]
fn retire_revoked_with_no_match_leaves_in_flight_unchanged() {
    let mut in_flight = vec![p("/music/a.flac"), p("/music/b.flac")];
    retire_revoked(&mut in_flight, &p("/music/c.flac"));
    assert_eq!(in_flight, vec![p("/music/a.flac"), p("/music/b.flac")]);
}

#[test]
fn retire_revoked_on_empty_in_flight_is_a_noop() {
    let mut in_flight: Vec<String> = Vec::new();
    retire_revoked(&mut in_flight, &p("/music/a.flac"));
    assert!(in_flight.is_empty());
}

#[test]
fn retire_revoked_with_one_matching_element_empties_it() {
    let mut in_flight = vec![p("/music/a.flac")];
    retire_revoked(&mut in_flight, &p("/music/a.flac"));
    assert!(in_flight.is_empty());
}

#[test]
fn keys_join_with_a_single_tab() {
    assert_eq!(flag_key("aaa", "bbb"), "aaa\tbbb");
    assert_eq!(dismiss_key("aaa", "outgoing"), "aaa\toutgoing");
}

#[test]
fn a_bar_override_decides_funkot_over_analysis() {
    assert!(effective_is_funkot(true, None));
    assert!(!effective_is_funkot(false, None));
    assert!(!effective_is_funkot(true, Some(false)));
    assert!(effective_is_funkot(false, Some(true)));
}

use funkot_player::store::{
    cache_decision, resolve_rehashed, resolve_with_probed_tags, title_and_artist, CacheDecision, HashIndexEntry,
    NameTag, ResolvedLibraryFile,
};

fn entry(mtime_ms: u64, len: u64, hash: &str, tags_cached: bool) -> HashIndexEntry {
    HashIndexEntry { mtime_ms, len, hash: hash.into(), tags_cached, title: None, artist: None }
}

#[test]
fn cached_entry_with_tags_is_reused_when_mtime_and_len_match() {
    let mut e = entry(5, 10, "h", true);
    e.title = Some("T".into());
    let index = vec![("/a.wav".to_string(), e)];
    assert_eq!(
        cache_decision(&index, "/a.wav", Some((5, 10))),
        CacheDecision::Cached(ResolvedLibraryFile { hash: "h".into(), title: Some("T".into()), artist: None })
    );
    assert_eq!(cache_decision(&index, "/a.wav", Some((5, 11))), CacheDecision::Rehash);
    assert_eq!(cache_decision(&index, "/a.wav", Some((6, 10))), CacheDecision::Rehash);
    assert_eq!(cache_decision(&index, "/a.wav", None), CacheDecision::Rehash);
    assert_eq!(cache_decision(&index, "/b.wav", Some((5, 10))), CacheDecision::Rehash);
}

#[test]
fn an_old_entry_without_tags_is_probed_without_rehashing() {
    let mut index = vec![("/a.wav".to_string(), entry(5, 10, "h", false))];
    assert_eq!(cache_decision(&index, "/a.wav", Some((5, 10))), CacheDecision::ProbeTags { hash: "h".into() });
    let r = resolve_with_probed_tags(&mut index, "/a.wav".into(), (5, 10), "h".into(), Some((Some("T".into()), Some("A".into()))));
    assert_eq!(r, ResolvedLibraryFile { hash: "h".into(), title: Some("T".into()), artist: Some("A".into()) });
    assert_eq!(index.len(), 1);
    assert!(index[0].1.tags_cached);
    assert_eq!(index[0].1.artist.as_deref(), Some("A"));
    let failed = resolve_with_probed_tags(&mut index, "/a.wav".into(), (5, 10), "h".into(), None);
    assert_eq!(failed, ResolvedLibraryFile { hash: "h".into(), title: None, artist: None });
    assert!(index[0].1.tags_cached);
}

#[test]
fn a_rehash_stores_the_new_hash_and_tags_when_the_fingerprint_was_read() {
    let mut index = vec![("/a.wav".to_string(), entry(5, 10, "old", true))];
    let r = resolve_rehashed(&mut index, "/a.wav".into(), Some((6, 12)), "new".into(), None);
    assert_eq!(r.hash, "new");
    assert_eq!(index.len(), 1);
    assert_eq!(index[0].1, entry(6, 12, "new", false));
    let r = resolve_rehashed(&mut index, "/b.wav".into(), None, "b".into(), Some((None, None)));
    assert_eq!(r.hash, "b");
    assert_eq!(index.len(), 1);
    resolve_rehashed(&mut index, "/c.wav".into(), Some((1, 2)), "c".into(), Some((Some("C".into()), None)));
    assert_eq!(index.len(), 2);
    assert_eq!(index[1].1.title.as_deref(), Some("C"));
    assert!(index[1].1.tags_cached);
}

#[test]
fn title_and_artist_take_the_first_non_blank_value_of_each() {
    let tags = vec![
        NameTag::Other,
        NameTag::TrackTitle("   ".into()),
        NameTag::Artist(" First ".into()),
        NameTag::TrackTitle(" Song ".into()),
        NameTag::Artist("Second".into()),
        NameTag::TrackTitle("Later".into()),
    ];
    assert_eq!(title_and_artist(&tags), (Some("Song".into()), Some("First".into())));
    assert_eq!(title_and_artist(&[]), (None, None));
}

use funkot_player::store::{record_override, BarOverride};

#[test]
fn bar_corrections_are_recorded_one_side_at_a_time() {
    let mut overrides: Vec<(String, BarOverride)> = vec![("other".into(), BarOverride { intro_bars: Some(1), outro_structure_bars: None, funkot: Some(true) })];
    record_override(&mut overrides, "h".into(), Some(16), None);
    record_override(&mut overrides, "h".into(), None, Some(32));
    assert_eq!(overrides.len(), 2);
    assert_eq!(overrides[1], ("h".to_string(), BarOverride { intro_bars: Some(16), outro_structure_bars: Some(32), funkot: None }));
    record_override(&mut overrides, "other".into(), Some(8), None);
    assert_eq!(overrides[0].1, BarOverride { intro_bars: Some(8), outro_structure_bars: None, funkot: Some(true) });
}
