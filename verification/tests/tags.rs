use funkot_player::tags::{effective_tags, Tag, TagError, TagKind, TagOrigin, TrackManualState, YearState};

fn genre(value: &str) -> Tag {
    Tag::new(TagKind::Genre, value).unwrap()
}

#[test]
fn effective_auto_remove_and_readd() {
    let manual = TrackManualState { year: YearState::Auto, manual_additions: vec![], suppressed_auto_tags: vec![genre("pop")] };
    assert!(effective_tags(&[genre("Pop")], &manual).is_empty());
    let manual = TrackManualState { manual_additions: vec![genre("Pop")], suppressed_auto_tags: vec![], ..manual };
    assert_eq!(effective_tags(&[genre("Pop")], &manual)[0].origin, TagOrigin::Both);
}

#[test]
fn tag_values_are_trimmed_composed_and_bounded() {
    assert_eq!(genre("  e\u{301}  ").value, "é");
    assert_eq!(Tag::new(TagKind::Genre, "   "), Err(TagError::Empty));
    assert_eq!(Tag::new(TagKind::Custom, "a\u{0}b"), Err(TagError::ControlCharacter));
    assert_eq!(Tag::new(TagKind::Custom, &"x".repeat(129)), Err(TagError::TooLong));
    assert_eq!(Tag::new(TagKind::Custom, &"x".repeat(128)).unwrap().value.chars().count(), 128);
}

#[test]
fn keys_fold_only_ascii_case() {
    let k = Tag::new(TagKind::Genre, "FunKot Ä").unwrap().key();
    assert_eq!(k.kind, TagKind::Genre);
    assert_eq!(k.value, "funkot Ä");
}

#[test]
fn effective_tags_merge_by_key_in_key_order() {
    let manual = TrackManualState {
        year: YearState::Auto,
        manual_additions: vec![Tag::new(TagKind::Custom, "mine").unwrap(), genre("ROCK")],
        suppressed_auto_tags: vec![],
    };
    let tags = effective_tags(&[genre("rock"), genre("jazz"), genre("Jazz")], &manual);
    let got: Vec<(&str, TagOrigin)> = tags.iter().map(|e| (e.tag.value.as_str(), e.origin)).collect();
    assert_eq!(
        got,
        vec![("Jazz", TagOrigin::Embedded), ("ROCK", TagOrigin::Both), ("mine", TagOrigin::Manual)]
    );
}

use funkot_player::tags::{
    accept_record, apply_one, plan_patch, revision_of, validate_patch, ApplyResult, Document, StoreError,
    TrackTagPatch,
};

fn custom(value: &str) -> Tag {
    Tag::new(TagKind::Custom, value).unwrap()
}

fn patch(year_change: Option<YearState>, add: Vec<Tag>, remove: Vec<Tag>) -> TrackTagPatch {
    TrackTagPatch { year_change, add, remove }
}

fn empty_doc() -> Document {
    Document { schema_version: 1, generation: 0, tracks: vec![] }
}

/// Apply a patch to an in-memory document the way the store does.
fn apply(doc: &mut Document, hashes: &[&str], revision: &str, p: &TrackTagPatch, auto: &[(String, Vec<Tag>)]) -> Result<ApplyResult, StoreError> {
    validate_patch(p)?;
    let hashes: Vec<String> = hashes.iter().map(|h| h.to_string()).collect();
    match plan_patch(doc, &hashes, revision, p, auto)? {
        (Some(updated), result) => {
            *doc = updated;
            Ok(result)
        }
        (None, result) => Ok(result),
    }
}

fn record<'a>(doc: &'a Document, hash: &str) -> Option<&'a TrackManualState> {
    doc.tracks.iter().find(|(h, _)| h == hash).map(|(_, r)| r)
}

#[test]
fn normalization_and_validation() {
    assert_eq!(genre(" Funkot ").key(), genre("funkot").key());
    assert_eq!(genre("e\u{301}").value, genre("é").value);
    assert_ne!(genre("Funkot").key(), custom("Funkot").key());
    assert!(matches!(Tag::new(TagKind::Genre, " \t "), Err(TagError::Empty)));
    assert!(matches!(Tag::new(TagKind::Genre, "x\ny"), Err(TagError::ControlCharacter)));
    assert!(Tag::new(TagKind::Genre, &"a".repeat(128)).is_ok());
    assert!(matches!(Tag::new(TagKind::Genre, &"a".repeat(129)), Err(TagError::TooLong)));
    assert_eq!(genre("R&B/Soul").value, "R&B/Soul");
}

#[test]
fn year_and_batch_patch_are_atomic() {
    let mut doc = empty_doc();
    let rev = revision_of(&doc);
    let r = apply(&mut doc, &["a", "a", "b"], &rev, &patch(Some(YearState::SetTo { value: 2024 }), vec![], vec![]), &[]).unwrap();
    assert_eq!((r.changed, r.no_op), (2, 0));
    let before_rev = revision_of(&doc);
    let before_tracks = doc.tracks.len();
    assert!(matches!(
        apply(&mut doc, &["a", "b"], &before_rev, &patch(None, vec![genre("x")], vec![genre("X")]), &[]),
        Err(StoreError::InvalidPatch)
    ));
    assert_eq!(revision_of(&doc), before_rev);
    assert_eq!(doc.tracks.len(), before_tracks);
    let r = apply(&mut doc, &["a", "b"], &before_rev, &patch(None, vec![], vec![]), &[]).unwrap();
    assert_eq!((r.changed, r.no_op), (0, 2));
    assert_eq!(r.revision, before_rev);
}

#[test]
fn a_stale_revision_is_a_conflict() {
    let mut doc = empty_doc();
    let rev = revision_of(&doc);
    apply(&mut doc, &["one"], &rev, &patch(None, vec![custom("one")], vec![]), &[]).unwrap();
    assert!(matches!(apply(&mut doc, &["two"], &rev, &patch(None, vec![custom("two")], vec![]), &[]), Err(StoreError::Conflict)));
    let rev = revision_of(&doc);
    apply(&mut doc, &["two"], &rev, &patch(None, vec![custom("two")], vec![]), &[]).unwrap();
    assert!(record(&doc, "one").is_some() && record(&doc, "two").is_some());
}

#[test]
fn limit_counts_effective_manual_state_and_set_is_not_auto() {
    let mut doc = empty_doc();
    let rev = revision_of(&doc);
    let add = (0..129).map(|i| genre(&format!("g{i}"))).collect();
    assert!(matches!(apply(&mut doc, &["x"], &rev, &patch(None, add, vec![]), &[]), Err(StoreError::InvalidPatch)));
    let r = apply(&mut doc, &["x"], &rev, &patch(Some(YearState::SetTo { value: 2024 }), vec![], vec![]), &[]).unwrap();
    assert_eq!(record(&doc, "x").unwrap().year, YearState::SetTo { value: 2024 });
    assert!(apply(&mut doc, &["x"], &r.revision, &patch(None, vec![], vec![]), &[]).is_ok());
    assert!(matches!(validate_patch(&patch(Some(YearState::SetTo { value: 999 }), vec![], vec![])), Err(StoreError::InvalidPatch)));
}

#[test]
fn auto_tags_count_toward_the_effective_limit() {
    let mut doc = empty_doc();
    let rev = revision_of(&doc);
    let auto: Vec<Tag> = (0..128).map(|i| genre(&format!("auto{i}"))).collect();
    let by_hash = vec![("x".to_string(), auto)];
    assert!(matches!(apply(&mut doc, &["x"], &rev, &patch(None, vec![genre("manual")], vec![]), &by_hash), Err(StoreError::InvalidPatch)));
    assert!(doc.tracks.is_empty());
}

#[test]
fn apply_one_adds_removes_and_suppresses() {
    let before = TrackManualState { year: YearState::Auto, manual_additions: vec![custom("keep"), custom("drop")], suppressed_auto_tags: vec![] };
    let after = apply_one(&before, &patch(Some(YearState::Unset), vec![custom("new")], vec![custom("DROP"), genre("Funkot")])).unwrap();
    assert_eq!(after.year, YearState::Unset);
    let values: Vec<_> = after.manual_additions.iter().map(|t| t.value.as_str()).collect();
    assert_eq!(values, vec!["keep", "new"]);
    assert!(after.suppressed_auto_tags.iter().any(|t| t.value == "Funkot"));
}

#[test]
fn stored_records_are_made_canonical_or_refused() {
    let r = TrackManualState {
        year: YearState::SetTo { value: 2020 },
        manual_additions: vec![custom("b"), custom("a"), custom("B")],
        suppressed_auto_tags: vec![],
    };
    let accepted = accept_record(r).unwrap();
    let values: Vec<_> = accepted.manual_additions.iter().map(|t| t.value.as_str()).collect();
    assert_eq!(values, vec!["a", "B"]);
    let bad_year = TrackManualState { year: YearState::SetTo { value: 0 }, manual_additions: vec![], suppressed_auto_tags: vec![] };
    assert!(accept_record(bad_year).is_none());
    let not_normal = TrackManualState {
        year: YearState::Auto,
        manual_additions: vec![Tag { kind: TagKind::Custom, value: " padded ".into() }],
        suppressed_auto_tags: vec![],
    };
    assert!(accept_record(not_normal).is_none());
}
