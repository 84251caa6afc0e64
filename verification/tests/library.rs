use funkot_player::library::{complete_analysis, file_name_str, is_supported_track, track_row, AnalysisSummary};

fn analysis() -> AnalysisSummary {
    AnalysisSummary {
        intro_bars: 16,
        outro_structure_bars: 32,
        outro_bars: 24,
        intro_bars_manual: false,
        outro_structure_bars_manual: true,
        outro_bars_manual: false,
        intro_bars_low_confidence: true,
        outro_bars_low_confidence: false,
        needs_reanalysis: false,
    }
}

#[test]
fn no_cache_entry_reads_as_unanalyzed() {
    assert!(complete_analysis(None).is_none());
    assert!(!track_row("/music/track.wav", complete_analysis(None)).analyzed);
}

#[test]
fn a_complete_entry_reads_as_analyzed() {
    let a = analysis();
    assert!(complete_analysis(Some(a)).is_some());
    let row = track_row("/music/track.wav", complete_analysis(Some(a)));
    assert!(row.analyzed);
    assert_eq!(row.intro_bars, Some(a.intro_bars));
    assert_eq!(row.name, "track.wav");
    assert!(row.outro_manual);
    assert!(row.intro_low_confidence);
}

#[test]
fn an_entry_needing_reanalysis_reads_as_unanalyzed() {
    let mut a = analysis();
    a.needs_reanalysis = true;
    assert!(complete_analysis(Some(a)).is_none());
    let row = track_row("/music/track.wav", complete_analysis(Some(a)));
    assert!(!row.analyzed);
    assert_eq!(row.intro_bars, None);
    assert_eq!(row.outro_structure_bars, None);
}

#[test]
fn an_unreadable_file_reads_as_unanalyzed_rather_than_erroring() {
    // An unreadable file has no content hash, hence no cached entry.
    assert!(complete_analysis(None).is_none());
}

#[test]
fn supported_tracks_go_by_extension_in_any_case() {
    assert!(is_supported_track("/m/a.wav"));
    assert!(is_supported_track("/m/a.FLAC"));
    assert!(is_supported_track("b.Mp3"));
    assert!(!is_supported_track("/m/a.aiff"));
    assert!(!is_supported_track("/m/.ogg"));
    assert!(!is_supported_track("/m/noext"));
}

#[test]
fn a_row_is_named_by_its_file_name() {
    assert_eq!(file_name_str("/music/dir/song.m4a"), "song.m4a");
    assert_eq!(file_name_str("/"), "?");
    assert_eq!(file_name_str("/music/.."), "?");
}
