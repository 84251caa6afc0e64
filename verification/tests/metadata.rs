use funkot_player::dates::parse_year;
use funkot_player::metadata::{
    collect_riff_info, is_genre_key, push_genre, resolve_year, year_semantic, Metadata, StandardDate,
    YearCandidate, YearResolution, YearSemantic,
};

fn candidate(value: &str, semantic: YearSemantic) -> YearCandidate {
    YearCandidate::new("DATE".into(), value.into(), semantic)
}

#[test]
fn strict_year_syntax_rejects_id3_partial_dates_and_bad_calendar_dates() {
    assert_eq!(parse_year("2024"), Some(2024));
    assert_eq!(parse_year("2024-02-29T23:59:59Z"), Some(2024));
    assert_eq!(parse_year("2024-02-29T23"), Some(2024));
    assert_eq!(parse_year("2023-02-29"), None);
    assert_eq!(parse_year("1806"), Some(1806));
    assert_eq!(parse_year("2024-13"), None);
    assert_eq!(parse_year("2024-01-01T24:00"), None);
    assert_eq!(parse_year("2024T12:00"), None);
    assert_eq!(parse_year("2024-01-01T12+あ:a"), None);
}

#[test]
fn year_syntax_accepts_offsets_fractions_and_months() {
    assert_eq!(parse_year(" 2024-07 "), Some(2024));
    assert_eq!(parse_year("2024-07-31T23:59:59.250+09:00"), Some(2024));
    assert_eq!(parse_year("2024-07-31T10:00-05:30"), Some(2024));
    assert_eq!(parse_year("2024-07-31T10:00:00."), None);
    assert_eq!(parse_year("2024-07-31T10:00+24:00"), None);
    assert_eq!(parse_year("0999"), None);
    assert_eq!(parse_year("2024-07-31-01"), None);
    assert_eq!(parse_year("1900-02-29"), None);
    assert_eq!(parse_year("2000-02-29"), Some(2000));
}

#[test]
fn only_recording_and_generic_candidates_can_resolve_production_year() {
    assert_eq!(resolve_year(&[candidate("1999", YearSemantic::Release)], 2026), YearResolution::Missing);
    assert_eq!(resolve_year(&[candidate("2000", YearSemantic::Original)], 2026), YearResolution::Missing);
    assert_eq!(
        resolve_year(&[candidate("2024", YearSemantic::Recording)], 2026),
        YearResolution::Ready { year: 2024, semantic: YearSemantic::Recording }
    );
}

#[test]
fn future_conflict_and_invalid_are_distinct() {
    assert!(matches!(resolve_year(&[candidate("2027", YearSemantic::Recording)], 2026), YearResolution::Future { .. }));
    assert!(matches!(resolve_year(&[candidate("bad", YearSemantic::Recording)], 2026), YearResolution::Invalid { .. }));
    assert!(matches!(
        resolve_year(&[candidate("2023", YearSemantic::Recording), candidate("2024", YearSemantic::Recording)], 2026),
        YearResolution::Conflict { .. }
    ));
}

#[test]
fn recording_dates_outrank_generic_ones() {
    let r = resolve_year(&[candidate("bad", YearSemantic::Generic), candidate("2020", YearSemantic::Recording)], 2026);
    assert_eq!(r, YearResolution::Ready { year: 2020, semantic: YearSemantic::Recording });
    let r = resolve_year(&[candidate("2019", YearSemantic::Generic), candidate("1999", YearSemantic::Release)], 2026);
    assert_eq!(r, YearResolution::Ready { year: 2019, semantic: YearSemantic::Generic });
}

#[test]
fn time_and_partial_date_keys_are_not_year_keys() {
    assert_eq!(year_semantic("TIME", StandardDate::Recording), None);
    assert_eq!(year_semantic("TDAT", StandardDate::Unrelated), None);
    assert_eq!(year_semantic("IDIT", StandardDate::Recording), None);
}

#[test]
fn raw_date_meaning_overrides_a_reader_release_mapping() {
    assert_eq!(year_semantic("DATE", StandardDate::Release), Some(YearSemantic::Generic));
    assert_eq!(year_semantic("©day", StandardDate::Recording), Some(YearSemantic::Release));
    assert_eq!(year_semantic("XYZ", StandardDate::Original), Some(YearSemantic::Original));
}

#[test]
fn genre_keys_ignore_ascii_case() {
    assert!(is_genre_key("genre"));
    assert!(is_genre_key("TCON"));
    assert!(is_genre_key("©gen"));
    assert!(!is_genre_key("title"));
}

#[test]
fn invalid_genre_does_not_discard_valid_sibling_or_normalized_metadata() {
    let mut metadata = Metadata::new();
    collect_riff_info(b"INAM", "  Metadata title\0", &mut metadata);
    push_genre(&mut metadata, "\0invalid");
    push_genre(&mut metadata, "  e\u{301}  ");
    push_genre(&mut metadata, "Funkot");
    push_genre(&mut metadata, &"x".repeat(129));
    push_genre(&mut metadata, &format!("  {}  ", "e\u{301}".repeat(128)));
    assert_eq!(metadata.title.as_deref(), Some("Metadata title"));
    assert_eq!(metadata.genres, vec!["é".to_string(), "Funkot".to_string(), "é".repeat(128)]);
    assert_eq!(metadata.diagnostics, vec!["ignored invalid genre value".to_string()]);
}

#[test]
fn riff_creation_date_becomes_one_recording_candidate() {
    let mut metadata = Metadata::new();
    collect_riff_info(b"ICRD", "2024\0\0", &mut metadata);
    collect_riff_info(b"ICRD", "2024", &mut metadata);
    collect_riff_info(b"IART", " Artist ", &mut metadata);
    collect_riff_info(b"ZZZZ", "ignored", &mut metadata);
    assert_eq!(metadata.year_candidates.len(), 1);
    assert_eq!(metadata.year_candidates[0].raw_key, "ICRD");
    assert_eq!(metadata.year_candidates[0].raw_value, "2024");
    assert_eq!(metadata.year_candidates[0].rank, 0);
    assert_eq!(metadata.artist.as_deref(), Some("Artist"));
}

use funkot_player::metadata::{collect_tag, ProbedTag, StandardValue};

fn tag(key: &str, value: &str, standard: StandardValue) -> ProbedTag {
    ProbedTag { raw_key: key.into(), raw_value: value.into(), standard }
}

#[test]
fn collect_tag_reads_title_artist_genre_and_dates() {
    let mut m = Metadata::new();
    collect_tag(&tag("TIT2", "  Song ", StandardValue::TrackTitle("  Song ".into())), &mut m);
    collect_tag(&tag("TPE1", "\u{1}", StandardValue::Artist("\u{1}".into())), &mut m);
    collect_tag(&tag("TCON", "Funkot", StandardValue::Genre("Funkot".into())), &mut m);
    collect_tag(&tag("GENRE", "Dangdut", StandardValue::Other), &mut m);
    collect_tag(&tag("TDRC", "2024", StandardValue::Date(StandardDate::Recording)), &mut m);
    collect_tag(&tag("©day", "2020", StandardValue::Date(StandardDate::Recording)), &mut m);
    collect_tag(&tag("X-DATE", "2019", StandardValue::Date(StandardDate::Original)), &mut m);
    assert_eq!(m.title.as_deref(), Some("Song"));
    assert_eq!(m.artist, None);
    assert_eq!(m.genres, vec!["Funkot".to_string(), "Dangdut".to_string()]);
    let semantics: Vec<_> = m.year_candidates.iter().map(|c| (c.raw_key.as_str(), c.semantic)).collect();
    assert_eq!(semantics, vec![("TDRC", YearSemantic::Recording), ("©day", YearSemantic::Release), ("X-DATE", YearSemantic::Original)]);
}
