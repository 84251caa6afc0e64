use funkot_player::command::{admission, plan_action, request_id_blank, Admission, CatalogOp, Plan, Receipts};
use funkot_player::playlists::{Catalog, TrackRef};
use funkot_player::queue::{QueueItem, QueueOrigin};
use funkot_player::service::{Action, CommandError, CommandResult, Request, SourceTarget, TrackTarget};

fn track(name: &str) -> TrackRef {
    TrackRef { content_hash: name.into(), preferred_path: format!("/{name}"), title: name.into(), artist: "a".into() }
}

fn plan(c: &Catalog, normal: &mut Vec<QueueItem>, action: Action) -> Result<Plan, CommandError> {
    plan_action(c, normal, &"req".to_string(), action, false, None, None, &[], vec![])
}

fn manual(p: &str) -> QueueItem {
    QueueItem { path: p.into(), origin: QueueOrigin::Manual }
}

fn automatic(p: &str) -> QueueItem {
    QueueItem { path: p.into(), origin: QueueOrigin::Automatic }
}

#[test]
fn blank_request_ids_are_refused() {
    assert!(request_id_blank("  \t"));
    assert!(request_id_blank(""));
    assert!(!request_id_blank(" r1 "));
}

#[test]
fn select_replaces_the_source_only_when_it_changes() {
    let mut c = Catalog::default();
    let id = c.create("Set", vec![track("A")]).unwrap();
    let mut normal = vec![];
    let p = plan(&c, &mut normal, Action::Select { id: Some(id.clone()) }).unwrap();
    assert!(p.force_source);
    assert_eq!(p.op, CatalogOp::Select { id: Some(id.clone()) });
    c.select(Some(id.clone())).unwrap();
    let p = plan(&c, &mut normal, Action::Select { id: Some(id.clone()) }).unwrap();
    assert!(!p.force_source);
    let p = plan(&c, &mut normal, Action::Restart { id: id.clone() }).unwrap();
    assert!(p.force_source);
}

#[test]
fn delete_needs_the_current_name() {
    let mut c = Catalog::default();
    let id = c.create("Set", vec![]).unwrap();
    let mut normal = vec![];
    let e = plan(&c, &mut normal, Action::Delete { id: id.clone(), confirm_name: "Other".into() }).err().unwrap();
    assert_eq!(e.code, "stale");
    let e = plan(&c, &mut normal, Action::Delete { id: "missing".into(), confirm_name: "Set".into() }).err().unwrap();
    assert_eq!(e.code, "not_found");
    let p = plan(&c, &mut normal, Action::Delete { id: id.clone(), confirm_name: "Set".into() }).unwrap();
    assert_eq!(p.op, CatalogOp::Delete { id });
}

#[test]
fn remove_reports_the_request_as_its_undo_id_and_undo_needs_the_record() {
    let mut c = Catalog::default();
    let id = c.create("Set", vec![track("A"), track("B")]).unwrap();
    let entry = c.definition(&id).unwrap().entries[0].entry_id.clone();
    let mut normal = vec![];
    let p = plan(&c, &mut normal, Action::Remove { id: id.clone(), entry_id: entry.clone() }).unwrap();
    assert_eq!(p.result.undo_id.as_deref(), Some("req"));
    let e = plan(&c, &mut normal, Action::UndoRemove { undo_id: "gone".into() }).err().unwrap();
    assert_eq!(e.code, "stale");
    let removed = c.remove(&id, &entry).unwrap();
    let p = plan_action(&c, &mut normal, &"r2".to_string(), Action::UndoRemove { undo_id: "req".into() }, false, None,
        Some((id.clone(), removed)), &[], vec![]).unwrap();
    assert_eq!(p.undo_used.as_deref(), Some("req"));
    assert!(matches!(p.op, CatalogOp::UndoRemove { .. }));
}

#[test]
fn moving_in_the_remaining_order() {
    let mut c = Catalog::default();
    let id = c.create("Set", vec![track("A"), track("B"), track("C")]).unwrap();
    let ids: Vec<String> = c.definition(&id).unwrap().entries.iter().map(|e| e.entry_id.clone()).collect();
    let mut normal = vec![];
    let mv = |entry: &str, to: usize, scope: &str| Action::Move { id: id.clone(), entry_id: entry.into(), to, scope: scope.into() };
    let p = plan(&c, &mut normal, mv(&ids[2], 0, "remaining")).unwrap();
    assert_eq!(p.op, CatalogOp::Reorder { id: id.clone(), ordered: vec![ids[2].clone(), ids[0].clone(), ids[1].clone()] });
    assert_eq!(plan(&c, &mut normal, mv("missing", 0, "remaining")).err().unwrap().code, "stale");
    assert_eq!(plan(&c, &mut normal, mv(&ids[0], 3, "remaining")).err().unwrap().code, "invalid_input");
    assert_eq!(plan(&c, &mut normal, mv(&ids[0], 0, "sideways")).err().unwrap().code, "invalid_input");
    let p = plan(&c, &mut normal, mv(&ids[0], 2, "all")).unwrap();
    assert_eq!(p.op, CatalogOp::MoveEntry { id: id.clone(), entry_id: ids[0].clone(), to: 2 });
}

#[test]
fn appending_to_the_normal_queue_counts_and_skips() {
    let c = Catalog::default();
    let mut normal = vec![manual("/a"), automatic("/auto")];
    let tracks = vec![
        TrackTarget { path: "/a".into(), expected_hash: None },
        TrackTarget { path: "/gated".into(), expected_hash: None },
        TrackTarget { path: "/new".into(), expected_hash: None },
    ];
    let p = plan_action(&c, &mut normal, &"r".to_string(), Action::Append { tracks, mode: "many".into() }, true, None, None,
        &[false, true, false], vec![]).unwrap();
    assert_eq!((p.result.added, p.result.rejected, p.result.skipped), (1, 1, 1));
    assert_eq!(p.op, CatalogOp::BumpRevision);
    assert!(p.force_source);
    assert_eq!(normal, vec![manual("/a"), manual("/new"), automatic("/auto")]);
    let e = plan(&c, &mut normal, Action::Append { tracks: vec![], mode: "lots".into() }).err().unwrap();
    assert_eq!(e.code, "invalid_input");
}

#[test]
fn appending_to_the_active_playlist_fails_on_the_first_unknown_track() {
    let mut c = Catalog::default();
    let id = c.create("Set", vec![]).unwrap();
    c.select(Some(id.clone())).unwrap();
    let mut normal = vec![];
    let tracks = || vec![
        TrackTarget { path: "/x".into(), expected_hash: None },
        TrackTarget { path: "/y".into(), expected_hash: None },
    ];
    let unknown = || CommandError { code: "identity_unavailable".into(), message: "identity_unavailable".into() };
    let p = plan_action(&c, &mut normal, &"r".to_string(), Action::Append { tracks: tracks(), mode: "single".into() }, false,
        None, None, &[true, false], vec![Err(unknown()), Ok(track("Y"))]).unwrap();
    assert_eq!((p.result.added, p.result.rejected), (1, 1));
    assert_eq!(p.op, CatalogOp::Append { id: id.clone(), tracks: vec![track("Y")] });
    let e = plan_action(&c, &mut normal, &"r".to_string(), Action::Append { tracks: tracks(), mode: "single".into() }, false,
        None, None, &[false, false], vec![Ok(track("X")), Err(unknown())]).err().unwrap();
    assert_eq!(e, unknown());
}

#[test]
fn saving_the_queue_needs_every_identity_and_no_active_playlist() {
    let mut c = Catalog::default();
    let mut normal = vec![manual("/a"), manual("/b")];
    let p = plan_action(&c, &mut normal, &"r".to_string(), Action::SaveQueue { name: "Q".into() }, false, None, None, &[],
        vec![Ok(track("A")), Ok(track("B"))]).unwrap();
    assert_eq!(p.op, CatalogOp::Create { name: "Q".into(), tracks: vec![track("A"), track("B")] });
    let id = c.create("Set", vec![]).unwrap();
    c.select(Some(id)).unwrap();
    let e = plan_action(&c, &mut normal, &"r".to_string(), Action::SaveQueue { name: "Q".into() }, false, None, None, &[],
        vec![Ok(track("A")), Ok(track("B"))]).err().unwrap();
    assert_eq!(e.code, "stale");
}

#[test]
fn queue_edits_check_the_item_the_user_saw() {
    let c = Catalog::default();
    let mut normal = vec![manual("/a"), manual("/b"), automatic("/c")];
    let e = plan(&c, &mut normal, Action::QueueMove { from: 0, to: 1, expect: manual("/b") }).err().unwrap();
    assert_eq!(e.code, "stale");
    let e = plan(&c, &mut normal, Action::QueueMove { from: 0, to: 2, expect: manual("/a") }).err().unwrap();
    assert_eq!(e.code, "invalid_input");
    let p = plan(&c, &mut normal, Action::QueueMove { from: 0, to: 1, expect: manual("/a") }).unwrap();
    assert_eq!(p.op, CatalogOp::BumpRevision);
    assert_eq!(normal, vec![manual("/b"), manual("/a"), automatic("/c")]);
    plan(&c, &mut normal, Action::QueueRemove { index: 2, expect: automatic("/c") }).unwrap();
    assert_eq!(normal, vec![manual("/b"), manual("/a")]);
}

fn target(revision: u64) -> SourceTarget {
    SourceTarget { playlist_id: None, generation: 0, revision }
}

fn created(id: &str) -> CommandResult {
    CommandResult { created_id: Some(id.into()), ..Default::default() }
}

/// Runs one command the way the service does: admission, plan, the catalog
/// operation, then the receipt.
fn run(c: &mut Catalog, receipts: &mut Receipts, request: Request) -> Result<CommandResult, CommandError> {
    let fingerprint = format!("{request:?}");
    let current = SourceTarget { playlist_id: c.active_id.clone(), generation: c.generation, revision: c.revision };
    match admission(receipts, &request.request_id, &fingerprint, &current, &request.target) {
        Admission::Replay(result) => return Ok(result),
        Admission::Refused(e) => return Err(e),
        Admission::Fresh => {}
    }
    let mut normal = vec![];
    let plan = plan_action(c, &mut normal, &request.request_id, request.action, false, None, None, &[], vec![])?;
    let mut result = plan.result;
    match plan.op {
        CatalogOp::Create { name, tracks } => result.created_id = Some(c.create(&name, tracks).unwrap()),
        CatalogOp::Select { id } => c.select(id).unwrap(),
        other => panic!("{other:?}"),
    }
    let copy = CommandResult { created_id: result.created_id.clone(), undo_id: result.undo_id.clone(), ..result };
    receipts.record(request.request_id.clone(), fingerprint, copy);
    Ok(result)
}

#[test]
fn request_receipt_replays_only_the_identical_source_and_revision_command() {
    let mut c = Catalog::default();
    let mut receipts = Receipts::new();
    let create = Request { request_id: "create".into(), target: target_of(&c), action: Action::Create { name: "set".into() } };
    let created = run(&mut c, &mut receipts, create).unwrap().created_id.unwrap();
    let target = target_of(&c);
    let request = || Request { request_id: "select".into(), target: target_of_parts(&target), action: Action::Select { id: Some(created.clone()) } };
    run(&mut c, &mut receipts, request()).unwrap();
    let replay = run(&mut c, &mut receipts, request());
    assert!(replay.is_ok());
    let changed_payload = Request { request_id: "select".into(), target: target_of_parts(&target), action: Action::Select { id: None } };
    assert_eq!(run(&mut c, &mut receipts, changed_payload).err().unwrap().code, "stale");
    assert_eq!(c.active_id.as_deref(), Some(created.as_str()));
}

fn target_of(c: &Catalog) -> SourceTarget {
    SourceTarget { playlist_id: c.active_id.clone(), generation: c.generation, revision: c.revision }
}

fn target_of_parts(t: &SourceTarget) -> SourceTarget {
    SourceTarget { playlist_id: t.playlist_id.clone(), generation: t.generation, revision: t.revision }
}

#[test]
fn receipts_answer_each_request_id_by_its_own_record() {
    let mut receipts = Receipts::new();
    assert_eq!(admission(&receipts, "select", "A", &target(1), &target(1)), Admission::Fresh);
    receipts.record("select".into(), "A".into(), created("p1"));
    assert_eq!(admission(&receipts, "select", "A", &target(2), &target(1)), Admission::Replay(created("p1")));
    match admission(&receipts, "select", "B", &target(2), &target(2)) {
        Admission::Refused(e) => assert_eq!(e.code, "stale"),
        other => panic!("{other:?}"),
    }
    assert!(receipts.replay("other", "A").is_none());
    receipts.record("select".into(), "B".into(), created("p2"));
    assert_eq!(receipts.replay("select", "B"), Some(Ok(created("p2"))));
}

#[test]
fn requests_against_another_revision_or_with_a_blank_id_are_refused() {
    let receipts = Receipts::new();
    match admission(&receipts, "r", "A", &target(2), &target(1)) {
        Admission::Refused(e) => assert_eq!(e.code, "stale"),
        other => panic!("{other:?}"),
    }
    match admission(&receipts, " ", "A", &target(1), &target(1)) {
        Admission::Refused(e) => assert_eq!(e.code, "invalid_input"),
        other => panic!("{other:?}"),
    }
}

use funkot_player::command::source_replacement;

#[test]
fn a_change_to_claimed_work_waits_for_the_engine() {
    assert_eq!(source_replacement(false, true, true, false).err().unwrap().code, "busy");
    assert_eq!(source_replacement(false, true, false, true).err().unwrap().code, "busy");
    assert_eq!(source_replacement(false, true, false, false), Ok(false));
    assert_eq!(source_replacement(false, false, true, false), Ok(false));
    assert_eq!(source_replacement(true, true, false, true), Ok(true));
}
