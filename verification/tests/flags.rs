use funkot_player::flags::{aggregate_flags, FlagTrackMeta, TransitionFlag};
use funkot_player::store::{dismiss_key, flag_key};

const MISSING_TITLE: &str = "ライブラリにない曲";

fn meta(title: &str, artist: &str, intro_low: bool, outro_low: bool) -> FlagTrackMeta {
    FlagTrackMeta {
        title: title.into(),
        artist: artist.into(),
        intro_low_confidence: intro_low,
        outro_low_confidence: outro_low,
        path: Some(format!("/music/{title}.flac")),
        intro_bars: Some(16),
        outro_structure_bars: Some(32),
        outro_bars: Some(48),
        intro_manual: false,
        outro_manual: false,
        analyzed: true,
    }
}

fn flag(count: u32) -> TransitionFlag {
    TransitionFlag { count, last_flagged_ms: 0 }
}

fn m(hash: &str, value: FlagTrackMeta) -> (String, FlagTrackMeta) {
    (hash.to_string(), value)
}

#[test]
fn aggregate_splits_outgoing_and_incoming() {
    let flags = vec![(flag_key("aaa", "bbb"), flag(1))];
    let metas = vec![m("aaa", meta("Alpha", "ArtA", false, true)), m("bbb", meta("Beta", "ArtB", true, false))];
    let rows = aggregate_flags(&flags, &metas, &[]);
    assert_eq!(rows.len(), 2);
    assert_eq!(rows[0].role, "outgoing");
    assert_eq!(rows[0].track_hash, "aaa");
    assert_eq!(rows[0].title, "Alpha");
    assert!(rows[0].low_confidence);
    assert_eq!(rows[0].partners.len(), 1);
    assert_eq!(rows[0].partners[0].track_hash, "bbb");
    assert_eq!(rows[0].partners[0].path.as_deref(), Some("/music/Beta.flac"));
    assert_eq!(rows[0].path.as_deref(), Some("/music/Alpha.flac"));
    assert!(rows[0].analyzed);
    assert_eq!(rows[0].intro_bars, Some(16));
    assert_eq!(rows[0].outro_structure_bars, Some(32));
    assert_eq!(rows[0].outro_bars, Some(48));
    assert_eq!(rows[1].role, "incoming");
    assert_eq!(rows[1].track_hash, "bbb");
    assert_eq!(rows[1].title, "Beta");
    assert!(rows[1].low_confidence);
    assert_eq!(rows[1].partners[0].track_hash, "aaa");
    assert!(rows[1].analyzed);
}

#[test]
fn aggregate_sums_counts_across_partners() {
    let flags = vec![(flag_key("aaa", "bbb"), flag(2)), (flag_key("aaa", "ccc"), flag(3))];
    let metas = vec![
        m("aaa", meta("Alpha", "", false, false)),
        m("bbb", meta("Beta", "", false, false)),
        m("ccc", meta("Gamma", "", false, false)),
    ];
    let rows = aggregate_flags(&flags, &metas, &[]);
    let out = rows.iter().find(|r| r.track_hash == "aaa" && r.role == "outgoing").expect("outgoing aaa");
    assert_eq!(out.count, 5);
    assert_eq!(out.partners.len(), 2);
    assert_eq!(out.partners[0].track_hash, "ccc");
    assert_eq!(out.partners[0].count, 3);
    assert_eq!(out.partners[1].track_hash, "bbb");
    assert_eq!(out.partners[1].count, 2);
}

#[test]
fn aggregate_sorts_by_count_role_title() {
    let flags = vec![
        (flag_key("aaa", "bbb"), TransitionFlag { count: 1, last_flagged_ms: 9_999 }),
        (flag_key("bbb", "eee"), flag(1)),
        (flag_key("ccc", "ddd"), TransitionFlag { count: 3, last_flagged_ms: 1 }),
    ];
    let metas = vec![
        m("aaa", meta("Alpha", "", false, false)),
        m("bbb", meta("Beta", "", false, false)),
        m("ccc", meta("Gamma", "", false, false)),
        m("ddd", meta("Delta", "", false, false)),
        m("eee", meta("Epsilon", "", false, false)),
    ];
    let rows = aggregate_flags(&flags, &metas, &[]);
    assert_eq!(rows[0].track_hash, "ccc");
    assert_eq!(rows[0].role, "outgoing");
    assert_eq!(rows[0].count, 3);
    assert_eq!(rows[1].track_hash, "ddd");
    assert_eq!(rows[1].role, "incoming");
    assert_eq!(rows[1].count, 3);
    let count1: Vec<_> = rows.iter().filter(|r| r.count == 1).collect();
    let outgoings: Vec<_> = count1.iter().filter(|r| r.role == "outgoing").map(|r| r.title.as_str()).collect();
    assert_eq!(outgoings, vec!["Alpha", "Beta"]);
    assert!(
        count1.iter().position(|r| r.role == "outgoing").unwrap()
            < count1.iter().position(|r| r.role == "incoming").unwrap()
    );
}

#[test]
fn aggregate_marks_missing_hashes() {
    let flags = vec![(flag_key("aaa", "zzz"), flag(2))];
    let metas = vec![m("aaa", meta("Alpha", "Art", false, true))];
    let rows = aggregate_flags(&flags, &metas, &[]);
    let missing = rows.iter().find(|r| r.track_hash == "zzz").expect("missing incoming");
    assert!(missing.missing);
    assert_eq!(missing.title, MISSING_TITLE);
    assert!(!missing.low_confidence);
    assert_eq!(missing.role, "incoming");
    assert!(!missing.analyzed);
    assert_eq!(missing.path, None);
    assert_eq!(missing.intro_bars, None);
    assert_eq!(missing.outro_structure_bars, None);
    assert_eq!(missing.outro_bars, None);
    assert!(!missing.intro_manual);
    assert!(!missing.outro_manual);
    let out = rows.iter().find(|r| r.track_hash == "aaa").expect("outgoing aaa");
    assert!(!out.missing);
    assert!(out.low_confidence);
    assert!(out.analyzed);
    assert_eq!(out.partners[0].track_hash, "zzz");
    assert!(out.partners[0].missing);
    assert_eq!(out.partners[0].title, MISSING_TITLE);
    assert_eq!(out.partners[0].path, None);
}

#[test]
fn aggregate_hides_dismissed_row_only() {
    let flags = vec![(flag_key("aaa", "bbb"), flag(1))];
    let metas = vec![m("aaa", meta("Alpha", "", false, false)), m("bbb", meta("Beta", "", false, false))];
    assert_eq!(aggregate_flags(&flags, &metas, &[]).len(), 2);
    let dismissed = vec![dismiss_key("aaa", "outgoing")];
    let rows = aggregate_flags(&flags, &metas, &dismissed);
    assert_eq!(rows.len(), 1);
    assert_eq!(rows[0].track_hash, "bbb");
    assert_eq!(rows[0].role, "incoming");
    assert_eq!(rows[0].partners[0].track_hash, "aaa");
    assert_eq!(flags[0].1.count, 1);
}

#[test]
fn aggregate_hides_both_dismissed_rows() {
    let flags = vec![(flag_key("aaa", "bbb"), flag(1))];
    let metas = vec![m("aaa", meta("Alpha", "", false, false)), m("bbb", meta("Beta", "", false, false))];
    let dismissed = vec![dismiss_key("aaa", "outgoing"), dismiss_key("bbb", "incoming")];
    assert!(aggregate_flags(&flags, &metas, &dismissed).is_empty());
}

#[test]
fn aggregate_sorts_partners_by_count_then_title() {
    let flags = vec![
        (flag_key("aaa", "bbb"), flag(2)),
        (flag_key("aaa", "ccc"), flag(2)),
        (flag_key("aaa", "ddd"), flag(5)),
    ];
    let metas = vec![
        m("aaa", meta("Alpha", "", false, false)),
        m("bbb", meta("Zulu", "", false, false)),
        m("ccc", meta("Mike", "", false, false)),
        m("ddd", meta("Delta", "", false, false)),
    ];
    let rows = aggregate_flags(&flags, &metas, &[]);
    let out = rows.iter().find(|r| r.role == "outgoing" && r.track_hash == "aaa").expect("outgoing");
    assert_eq!(
        out.partners.iter().map(|p| (p.title.as_str(), p.count)).collect::<Vec<_>>(),
        vec![("Delta", 5), ("Mike", 2), ("Zulu", 2)]
    );
}

#[test]
fn aggregate_empty_flags_is_empty() {
    assert!(aggregate_flags(&[], &[], &[]).is_empty());
}

#[test]
fn malformed_and_zero_count_flags_are_ignored() {
    let flags = vec![
        (String::from("no-tab"), flag(4)),
        (flag_key("", "bbb"), flag(4)),
        (flag_key("aaa", ""), flag(4)),
        (flag_key("aaa", "bbb"), flag(0)),
    ];
    assert!(aggregate_flags(&flags, &[], &[]).is_empty());
}

#[test]
fn the_key_splits_at_its_first_tab() {
    let flags = vec![(String::from("aaa\tbbb\tccc"), flag(1))];
    let rows = aggregate_flags(&flags, &[], &[]);
    assert_eq!(rows.len(), 2);
    assert_eq!(rows[0].track_hash, "aaa");
    assert_eq!(rows[1].track_hash, "bbb\tccc");
}

#[test]
fn counts_saturate_instead_of_wrapping() {
    let flags = vec![(flag_key("aaa", "bbb"), flag(u32::MAX)), (flag_key("aaa", "ccc"), flag(7))];
    let rows = aggregate_flags(&flags, &[], &[]);
    let out = rows.iter().find(|r| r.role == "outgoing").unwrap();
    assert_eq!(out.count, u32::MAX);
    assert_eq!(out.partners[0].count, u32::MAX);
    assert_eq!(out.partners[1].count, 7);
}
