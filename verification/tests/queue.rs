use std::cell::Cell;
use std::collections::VecDeque;
use std::rc::Rc;

use funkot_player::queue::{
    edit_displayed, enqueue, manual_priority_needed, new_shared_queue, prepend_pending_filtered,
    prioritize_manual, replace_pending, reserved_track, snapshot, state_snapshot, DrainPolicy,
    EditError, HostSource, QueueEdit, QueueItem, QueueOrigin, QueueState,
};

fn p(name: &str) -> String {
    name.to_string()
}

fn i(name: &str) -> QueueItem {
    QueueItem::manual(p(name))
}

fn a(name: &str) -> QueueItem {
    QueueItem::automatic(p(name))
}

fn paths(items: Vec<QueueItem>) -> Vec<String> {
    items.into_iter().map(|item| item.path).collect()
}

fn reserved(queue: &QueueState) -> Option<String> {
    state_snapshot(queue).0.map(|item| item.path)
}

fn path_state(queue: &QueueState) -> (Option<String>, Vec<String>) {
    let (reserved, pending) = state_snapshot(queue);
    (reserved.map(|item| item.path), paths(pending))
}

fn handed_out(queue: &QueueState) -> Option<String> {
    reserved_track(queue)
}

fn empty_policy() -> DrainPolicy {
    DrainPolicy::ContinueFolder { tracks: Vec::new(), pos: 0 }
}

fn folder_policy(names: &[&str]) -> DrainPolicy {
    DrainPolicy::ContinueFolder { tracks: names.iter().map(|n| p(n)).collect(), pos: 0 }
}

fn queue_with(reserved: Option<&str>, pending: &[&str]) -> QueueState {
    QueueState {
        pending: pending.iter().map(|n| i(n)).collect(),
        reserved: reserved.map(i),
        reserved_is_next: reserved.is_some(),
    }
}

fn panic_revoke() -> Option<String> {
    panic!("revoke should not run: this edit does not touch reserved")
}

fn revoke_stub(answer: Option<String>) -> (Rc<Cell<bool>>, impl FnOnce() -> Option<String>) {
    let called = Rc::new(Cell::new(false));
    let flag = Rc::clone(&called);
    (called, move || {
        flag.set(true);
        answer
    })
}

fn next(source: &mut HostSource, q: &mut QueueState) -> Option<(usize, String)> {
    source.next(q)
}

#[test]
fn enqueue_appends_in_order() {
    let mut q = new_shared_queue();
    assert_eq!(enqueue(&mut q, p("a")), 1);
    assert_eq!(enqueue(&mut q, p("b")), 2);
    assert_eq!(enqueue(&mut q, p("c")), 3);
    assert_eq!(paths(snapshot(&q)), vec![p("a"), p("b"), p("c")]);
}

#[test]
fn enqueue_keeps_manual_fifo_before_automatic_items() {
    let mut q = new_shared_queue();
    replace_pending(&mut q, vec![i("m1"), a("a1"), a("a2")]);
    enqueue(&mut q, p("m2"));
    assert_eq!(snapshot(&q), vec![i("m1"), i("m2"), a("a1"), a("a2")]);
}

#[test]
fn prioritize_manual_revokes_automatic_next_and_preserves_auto_order() {
    let mut q = QueueState {
        pending: VecDeque::from(vec![i("m1"), i("m2"), a("a2")]),
        reserved: Some(a("a1")),
        reserved_is_next: true,
    };
    let revoked = prioritize_manual(&mut q, || Some(p("a1")));
    assert_eq!(revoked, Some(a("a1")));
    assert_eq!(state_snapshot(&q), (None, vec![i("m1"), i("m2"), a("a1"), a("a2")]));
}

#[test]
fn prioritize_manual_can_retry_after_automatic_finishes_preparing() {
    let mut q = QueueState { pending: VecDeque::from(vec![i("m1")]), reserved: Some(a("a1")), reserved_is_next: true };
    assert_eq!(prioritize_manual(&mut q, || None), None);
    assert!(manual_priority_needed(&q));
    assert_eq!(prioritize_manual(&mut q, || Some(p("a1"))), Some(a("a1")));
    assert_eq!(snapshot(&q), vec![i("m1"), a("a1")]);
}

#[test]
fn edit_displayed_rejects_moves_across_origin_boundary() {
    let mut q = new_shared_queue();
    replace_pending(&mut q, vec![i("m"), a("a")]);
    assert_eq!(
        edit_displayed(&mut q, QueueEdit::Move { from: 0, to: 1 }, &i("m"), panic_revoke),
        Err(EditError::OriginBoundary)
    );
    assert_eq!(snapshot(&q), vec![i("m"), a("a")]);
}

#[test]
fn edit_displayed_rejects_automatic_move_across_manual_partition() {
    let mut q = QueueState { pending: VecDeque::from(vec![i("m"), a("a2")]), reserved: Some(a("a1")), reserved_is_next: true };
    assert_eq!(
        edit_displayed(&mut q, QueueEdit::Move { from: 0, to: 2 }, &a("a1"), panic_revoke),
        Err(EditError::OriginBoundary)
    );
    assert_eq!(state_snapshot(&q), (Some(a("a1")), vec![i("m"), a("a2")]));
}

#[test]
fn replace_pending_overwrites_instead_of_appending() {
    let mut q = new_shared_queue();
    for name in ["a", "b"] {
        enqueue(&mut q, p(name));
    }
    replace_pending(&mut q, vec![i("a"), i("b")]);
    assert_eq!(paths(snapshot(&q)), vec![p("a"), p("b")]);
}

#[test]
fn replace_pending_leaves_the_reserved_track_alone() {
    let mut q = new_shared_queue();
    enqueue(&mut q, p("a"));
    let mut source = HostSource::new(empty_policy());
    assert_eq!(next(&mut source, &mut q), Some((0, p("a"))));
    assert_eq!(handed_out(&q), Some(p("a")));
    assert_eq!(reserved(&q), None);

    replace_pending(&mut q, vec![i("b")]);
    assert_eq!(handed_out(&q), Some(p("a")));
    assert_eq!(reserved(&q), None);
    assert_eq!(paths(snapshot(&q)), vec![p("b")]);
}

#[test]
fn prepend_pending_filtered_appends_candidates_after_existing_manual_items() {
    let mut q = queue_with(None, &["old"]);
    let added = prepend_pending_filtered(&mut q, &[p("a"), p("b"), p("c")], None, &[]);
    assert_eq!(added, 3);
    assert_eq!(paths(snapshot(&q)), vec![p("old"), p("a"), p("b"), p("c")]);
}

#[test]
fn prepend_pending_filtered_leaves_reserved_and_inserts_after_it() {
    let mut q = queue_with(Some("r"), &["old"]);
    let added = prepend_pending_filtered(&mut q, &[p("a"), p("b")], None, &[]);
    assert_eq!(added, 2);
    assert_eq!(path_state(&q), (Some(p("r")), vec![p("old"), p("a"), p("b")]));
}

#[test]
fn prepend_pending_filtered_skips_reserved_pending_and_now_playing() {
    let mut q = queue_with(Some("r"), &["pend"]);
    let now = p("now");
    let added =
        prepend_pending_filtered(&mut q, &[p("r"), p("pend"), p("now"), p("new")], Some(&now), &[]);
    assert_eq!(added, 1);
    assert_eq!(path_state(&q), (Some(p("r")), vec![p("pend"), p("new")]));
}

#[test]
fn prepend_pending_filtered_is_idempotent() {
    let mut q = queue_with(None, &[]);
    let candidates = [p("a"), p("b")];
    assert_eq!(prepend_pending_filtered(&mut q, &candidates, None, &[]), 2);
    assert_eq!(prepend_pending_filtered(&mut q, &candidates, None, &[]), 0);
    assert_eq!(paths(snapshot(&q)), vec![p("a"), p("b")]);
}

#[test]
fn prepend_pending_filtered_skips_every_in_flight_occurrence() {
    let mut q = queue_with(Some("reserved"), &["pending"]);
    let candidates = [p("old-current"), p("prefetched"), p("reserved"), p("pending"), p("new")];
    let in_flight = [i("old-current"), i("prefetched")];
    assert_eq!(prepend_pending_filtered(&mut q, &candidates, None, &in_flight), 1);
    assert_eq!(paths(snapshot(&q)), vec![p("pending"), p("new")]);
    assert_eq!(prepend_pending_filtered(&mut q, &candidates, None, &in_flight), 0);
}

#[test]
fn prepend_pending_filtered_drops_repeated_candidates() {
    let mut q = queue_with(None, &[]);
    assert_eq!(prepend_pending_filtered(&mut q, &[p("x"), p("x"), p("y")], None, &[]), 2);
    assert_eq!(paths(snapshot(&q)), vec![p("x"), p("y")]);
}

#[test]
fn edit_displayed_moves_an_item_forward_and_backward_without_reserved() {
    let mut q = new_shared_queue();
    for name in ["a", "b", "c", "d"] {
        enqueue(&mut q, p(name));
    }
    edit_displayed(&mut q, QueueEdit::Move { from: 0, to: 3 }, &i("a"), panic_revoke).unwrap();
    assert_eq!(paths(snapshot(&q)), vec![p("b"), p("c"), p("d"), p("a")]);
    edit_displayed(&mut q, QueueEdit::Move { from: 3, to: 0 }, &i("a"), panic_revoke).unwrap();
    assert_eq!(paths(snapshot(&q)), vec![p("a"), p("b"), p("c"), p("d")]);
}

#[test]
fn edit_displayed_move_out_of_range_without_reserved_leaves_queue_untouched() {
    let mut q = new_shared_queue();
    for name in ["a", "b"] {
        enqueue(&mut q, p(name));
    }
    assert_eq!(
        edit_displayed(&mut q, QueueEdit::Move { from: 0, to: 2 }, &i("a"), panic_revoke),
        Err(EditError::OutOfRange)
    );
    assert_eq!(
        edit_displayed(&mut q, QueueEdit::Move { from: 2, to: 0 }, &i("a"), panic_revoke),
        Err(EditError::OutOfRange)
    );
    assert_eq!(paths(snapshot(&q)), vec![p("a"), p("b")]);
}

#[test]
fn edit_displayed_dequeue_out_of_range_without_reserved_leaves_queue_untouched() {
    let mut q = new_shared_queue();
    enqueue(&mut q, p("a"));
    assert_eq!(
        edit_displayed(&mut q, QueueEdit::Remove { index: 1 }, &i("a"), panic_revoke),
        Err(EditError::OutOfRange)
    );
    assert_eq!(
        edit_displayed(&mut q, QueueEdit::Remove { index: 99 }, &i("a"), panic_revoke),
        Err(EditError::OutOfRange)
    );
    assert_eq!(paths(snapshot(&q)), vec![p("a")]);
}

#[test]
fn edit_displayed_on_an_empty_queue_is_out_of_range() {
    let mut q = new_shared_queue();
    assert_eq!(
        edit_displayed(&mut q, QueueEdit::Move { from: 0, to: 0 }, &i("x"), panic_revoke),
        Err(EditError::OutOfRange)
    );
    assert_eq!(
        edit_displayed(&mut q, QueueEdit::Remove { index: 0 }, &i("x"), panic_revoke),
        Err(EditError::OutOfRange)
    );
}

#[test]
fn edit_displayed_does_not_require_a_running_source() {
    let mut q = new_shared_queue();
    enqueue(&mut q, p("a"));
    enqueue(&mut q, p("b"));
    enqueue(&mut q, p("c"));
    edit_displayed(&mut q, QueueEdit::Move { from: 2, to: 0 }, &i("c"), panic_revoke).unwrap();
    edit_displayed(&mut q, QueueEdit::Remove { index: 1 }, &i("a"), panic_revoke).unwrap();
    assert_eq!(paths(snapshot(&q)), vec![p("c"), p("b")]);
}

#[test]
fn host_source_pops_front_in_fifo_order() {
    let mut q = new_shared_queue();
    for name in ["a", "b", "c"] {
        enqueue(&mut q, p(name));
    }
    let mut source = HostSource::new(empty_policy());
    assert_eq!(next(&mut source, &mut q), Some((0, p("a"))));
    assert_eq!(next(&mut source, &mut q), Some((1, p("b"))));
    assert_eq!(next(&mut source, &mut q), Some((2, p("c"))));
    assert_eq!(paths(snapshot(&q)), Vec::<String>::new());
}

#[test]
fn host_source_returns_none_when_pending_and_folder_are_both_empty() {
    let mut q = new_shared_queue();
    let mut source = HostSource::new(empty_policy());
    assert_eq!(next(&mut source, &mut q), None);
}

#[test]
fn host_source_sees_items_enqueued_after_construction() {
    let mut q = new_shared_queue();
    let mut source = HostSource::new(empty_policy());
    assert_eq!(next(&mut source, &mut q), None);
    enqueue(&mut q, p("late"));
    assert_eq!(next(&mut source, &mut q), Some((0, p("late"))));
}

#[test]
fn host_source_falls_back_to_folder_when_queue_drains() {
    let mut q = new_shared_queue();
    let mut source = HostSource::new(folder_policy(&["f1", "f2", "f3"]));
    assert_eq!(next(&mut source, &mut q), Some((0, p("f1"))));
    assert_eq!(reserved(&q), None);
    assert_eq!(next(&mut source, &mut q), Some((1, p("f2"))));
    assert_eq!(reserved(&q), Some(p("f2")));
    assert_eq!(next(&mut source, &mut q), Some((2, p("f3"))));
    assert_eq!(reserved(&q), Some(p("f3")));
}

#[test]
fn host_source_wraps_around_at_end_of_folder() {
    let mut q = new_shared_queue();
    let mut source = HostSource::new(folder_policy(&["f1", "f2"]));
    assert_eq!(next(&mut source, &mut q), Some((0, p("f1"))));
    assert_eq!(next(&mut source, &mut q), Some((1, p("f2"))));
    assert_eq!(next(&mut source, &mut q), Some((2, p("f1"))));
    assert_eq!(next(&mut source, &mut q), Some((3, p("f2"))));
}

#[test]
fn host_source_repeats_a_single_folder_track_as_distinct_occurrences() {
    let mut q = new_shared_queue();
    let mut source = HostSource::new(folder_policy(&["only"]));
    assert_eq!(next(&mut source, &mut q), Some((0, p("only"))));
    assert_eq!(next(&mut source, &mut q), Some((1, p("only"))));
    assert_eq!(next(&mut source, &mut q), Some((2, p("only"))));
}

#[test]
fn host_source_starts_over_when_the_cursor_is_past_the_end() {
    let mut q = new_shared_queue();
    let mut source = HostSource::new(DrainPolicy::ContinueFolder { tracks: vec![p("f1"), p("f2")], pos: 7 });
    assert_eq!(next(&mut source, &mut q), Some((0, p("f1"))));
    assert_eq!(next(&mut source, &mut q), Some((1, p("f2"))));
}

fn skipping(
    source: &mut HostSource,
    q: &mut QueueState,
    skip: &dyn Fn(&String) -> bool,
) -> Option<(usize, String)> {
    source.next_with_skip(q, &|path: &String| skip(path)).map(|h| (h.index, h.item.path))
}

#[test]
fn host_source_skips_folder_entries_matching_predicate() {
    let mut q = new_shared_queue();
    let mut source = HostSource::new(folder_policy(&["f1", "skip", "f3"]));
    let skip = |path: &String| path.as_str() == "skip";
    assert_eq!(skipping(&mut source, &mut q, &skip), Some((0, p("f1"))));
    assert_eq!(skipping(&mut source, &mut q, &skip), Some((1, p("f3"))));
    assert_eq!(skipping(&mut source, &mut q, &skip), Some((2, p("f1"))));
}

#[test]
fn host_source_folder_exhausts_when_all_entries_skipped() {
    let mut q = new_shared_queue();
    let mut source = HostSource::new(folder_policy(&["a", "b"]));
    assert_eq!(skipping(&mut source, &mut q, &|_| true), None);
    assert_eq!(reserved(&q), None);
}

#[test]
fn host_source_folder_skip_does_not_filter_pending() {
    let mut q = new_shared_queue();
    enqueue(&mut q, p("pending-non-funkot"));
    let mut source = HostSource::new(folder_policy(&["f1"]));
    assert_eq!(skipping(&mut source, &mut q, &|_| true), Some((0, p("pending-non-funkot"))));
    assert_eq!(skipping(&mut source, &mut q, &|_| true), None);
}

#[test]
fn host_source_prefers_pending_queue_and_resumes_folder_position() {
    let mut q = new_shared_queue();
    let mut source = HostSource::new(folder_policy(&["f1", "f2", "f3"]));
    assert_eq!(next(&mut source, &mut q), Some((0, p("f1"))));
    enqueue(&mut q, p("priority"));
    assert_eq!(next(&mut source, &mut q), Some((1, p("priority"))));
    assert_eq!(next(&mut source, &mut q), Some((2, p("f2"))));
    assert_eq!(next(&mut source, &mut q), Some((3, p("f3"))));
}

#[test]
fn reserved_reflects_the_most_recently_handed_out_track() {
    let mut q = new_shared_queue();
    assert_eq!(handed_out(&q), None);
    enqueue(&mut q, p("a"));
    let mut source = HostSource::new(empty_policy());
    assert_eq!(next(&mut source, &mut q), Some((0, p("a"))));
    assert_eq!(handed_out(&q), Some(p("a")));
    assert_eq!(reserved(&q), None);
    enqueue(&mut q, p("b"));
    assert_eq!(next(&mut source, &mut q), Some((1, p("b"))));
    assert_eq!(handed_out(&q), Some(p("b")));
    assert_eq!(reserved(&q), Some(p("b")));
}

#[test]
fn first_hand_off_is_not_in_the_displayed_list() {
    let mut q = new_shared_queue();
    for name in ["a", "b", "c"] {
        enqueue(&mut q, p(name));
    }
    let mut source = HostSource::new(empty_policy());
    assert_eq!(next(&mut source, &mut q), Some((0, p("a"))));
    assert_eq!(path_state(&q), (None, vec![p("b"), p("c")]));
    edit_displayed(&mut q, QueueEdit::Move { from: 0, to: 1 }, &i("b"), panic_revoke).unwrap();
    edit_displayed(&mut q, QueueEdit::Remove { index: 1 }, &i("b"), panic_revoke).unwrap();
    assert_eq!(handed_out(&q), Some(p("a")));
    assert_eq!(path_state(&q), (None, vec![p("c")]));
}

#[test]
fn edits_that_do_not_touch_reserved_do_not_revoke_it() {
    let mut q = new_shared_queue();
    enqueue(&mut q, p("a"));
    enqueue(&mut q, p("b"));
    let mut source = HostSource::new(empty_policy());
    assert_eq!(next(&mut source, &mut q), Some((0, p("a"))));
    assert_eq!(next(&mut source, &mut q), Some((1, p("b"))));
    assert_eq!(reserved(&q), Some(p("b")));

    enqueue(&mut q, p("c"));
    enqueue(&mut q, p("d"));
    edit_displayed(&mut q, QueueEdit::Move { from: 1, to: 2 }, &i("c"), panic_revoke).unwrap();
    edit_displayed(&mut q, QueueEdit::Remove { index: 1 }, &i("d"), panic_revoke).unwrap();

    assert_eq!(reserved(&q), Some(p("b")));
    assert_eq!(path_state(&q), (Some(p("b")), vec![p("c")]));
}

/// What an `on_pending_consumed` observer would be handed for each hand-off.
fn pending_reports(source: &mut HostSource, q: &mut QueueState, calls: usize) -> Vec<Vec<String>> {
    let mut seen = Vec::new();
    for _ in 0..calls {
        if let Some(h) = source.next_with_skip(q, &|_: &String| false) {
            if let Some(rest) = h.remaining {
                seen.push(paths(rest));
            }
        }
    }
    seen
}

/// What an `on_reserved` observer would be handed for each hand-off.
fn reserved_reports(source: &mut HostSource, q: &mut QueueState, calls: usize) -> Vec<String> {
    let mut seen = Vec::new();
    for _ in 0..calls {
        if let Some(h) = source.next_with_skip(q, &|_: &String| false) {
            seen.push(h.item.path);
        }
    }
    seen
}

#[test]
fn playing_a_queued_track_reports_what_is_left() {
    let mut q = new_shared_queue();
    for name in ["a", "b", "c"] {
        enqueue(&mut q, p(name));
    }
    let mut source = HostSource::new(empty_policy());
    assert_eq!(pending_reports(&mut source, &mut q, 2), vec![vec![p("b"), p("c")], vec![p("c")]]);
}

#[test]
fn falling_back_to_the_folder_reports_nothing() {
    let mut q = new_shared_queue();
    let mut source = HostSource::new(folder_policy(&["f1", "f2"]));
    assert!(pending_reports(&mut source, &mut q, 2).is_empty());
}

#[test]
fn draining_the_queue_reports_it_empty_before_the_folder_takes_over() {
    let mut q = new_shared_queue();
    enqueue(&mut q, p("a"));
    let mut source = HostSource::new(folder_policy(&["f1"]));
    assert_eq!(pending_reports(&mut source, &mut q, 2), vec![Vec::<String>::new()]);
}

#[test]
fn on_reserved_fires_for_tracks_from_the_pending_queue() {
    let mut q = new_shared_queue();
    for name in ["a", "b"] {
        enqueue(&mut q, p(name));
    }
    let mut source = HostSource::new(empty_policy());
    assert_eq!(reserved_reports(&mut source, &mut q, 2), vec![p("a"), p("b")]);
}

#[test]
fn on_reserved_fires_for_tracks_from_the_folder_fallback() {
    let mut q = new_shared_queue();
    let mut source = HostSource::new(folder_policy(&["f1", "f2"]));
    assert_eq!(reserved_reports(&mut source, &mut q, 2), vec![p("f1"), p("f2")]);
}

#[test]
fn on_reserved_fires_regardless_of_which_source_a_track_came_from() {
    let mut q = new_shared_queue();
    enqueue(&mut q, p("priority"));
    let mut source = HostSource::new(folder_policy(&["f1"]));
    assert_eq!(reserved_reports(&mut source, &mut q, 2), vec![p("priority"), p("f1")]);
}

#[test]
fn on_folder_pos_fires_for_folder_drain_including_wrap_not_for_pending() {
    let mut q = new_shared_queue();
    enqueue(&mut q, p("pending"));
    let mut source = HostSource::new(folder_policy(&["f1", "f2", "f3"]));
    let mut seen = Vec::new();
    let first = source.next_with_skip(&mut q, &|_: &String| false).unwrap();
    assert_eq!(first.folder_pos, None);
    for _ in 0..3 {
        if let Some(pos) = source.next_with_skip(&mut q, &|_: &String| false).unwrap().folder_pos {
            seen.push(pos);
        }
    }
    assert_eq!(seen, vec![1, 2, 0]);
}

#[test]
fn host_source_returns_none_and_clears_reserved_when_fully_exhausted() {
    let mut q = new_shared_queue();
    enqueue(&mut q, p("a"));
    let mut source = HostSource::new(empty_policy());
    assert_eq!(next(&mut source, &mut q), Some((0, p("a"))));
    assert_eq!(handed_out(&q), Some(p("a")));
    assert_eq!(reserved(&q), None);
    assert_eq!(next(&mut source, &mut q), None);
    assert_eq!(handed_out(&q), None);
    assert_eq!(reserved(&q), None);
}

#[test]
fn edit_displayed_remove_reserved_slot_revokes_and_clears_reserved() {
    let mut q = queue_with(Some("r"), &["a", "b"]);
    let (called, revoke) = revoke_stub(Some(p("r")));
    edit_displayed(&mut q, QueueEdit::Remove { index: 0 }, &i("r"), revoke).unwrap();
    assert!(called.get());
    assert_eq!(path_state(&q), (None, vec![p("a"), p("b")]));
}

#[test]
fn edit_displayed_remove_reserved_with_empty_pending_leaves_an_empty_queue() {
    let mut q = queue_with(Some("r"), &[]);
    let (called, revoke) = revoke_stub(Some(p("r")));
    edit_displayed(&mut q, QueueEdit::Remove { index: 0 }, &i("r"), revoke).unwrap();
    assert!(called.get());
    assert_eq!(path_state(&q), (None, Vec::<String>::new()));
}

#[test]
fn edit_displayed_move_reserved_to_itself_is_a_noop_and_does_not_revoke() {
    let mut q = queue_with(Some("r"), &["a", "b"]);
    let (called, revoke) = revoke_stub(Some(p("r")));
    edit_displayed(&mut q, QueueEdit::Move { from: 0, to: 0 }, &i("r"), revoke).unwrap();
    assert!(!called.get());
    assert_eq!(path_state(&q), (Some(p("r")), vec![p("a"), p("b")]));
}

#[test]
fn edit_displayed_move_reserved_to_middle_revokes_then_reinserts_at_destination() {
    let mut q = queue_with(Some("r"), &["a", "b", "c"]);
    let (called, revoke) = revoke_stub(Some(p("r")));
    edit_displayed(&mut q, QueueEdit::Move { from: 0, to: 2 }, &i("r"), revoke).unwrap();
    assert!(called.get());
    assert_eq!(path_state(&q), (None, vec![p("a"), p("b"), p("r"), p("c")]));
}

#[test]
fn edit_displayed_move_into_reserved_slot_revokes_and_promotes_the_source_track() {
    let mut q = queue_with(Some("r"), &["a", "b", "c"]);
    let (called, revoke) = revoke_stub(Some(p("r")));
    edit_displayed(&mut q, QueueEdit::Move { from: 3, to: 0 }, &i("c"), revoke).unwrap();
    assert!(called.get());
    assert_eq!(path_state(&q), (None, vec![p("c"), p("r"), p("a"), p("b")]));
}

#[test]
fn edit_displayed_move_within_pending_does_not_revoke_reserved() {
    let mut q = queue_with(Some("r"), &["a", "b", "c"]);
    let (called, revoke) = revoke_stub(Some(p("r")));
    edit_displayed(&mut q, QueueEdit::Move { from: 1, to: 2 }, &i("a"), revoke).unwrap();
    assert!(!called.get());
    assert_eq!(path_state(&q), (Some(p("r")), vec![p("b"), p("a"), p("c")]));
}

#[test]
fn edit_displayed_too_late_when_revoke_returns_none_and_leaves_queue_untouched() {
    let mut q = queue_with(Some("r"), &["a", "b"]);
    let (called, revoke) = revoke_stub(None);
    let err = edit_displayed(&mut q, QueueEdit::Remove { index: 0 }, &i("r"), revoke).unwrap_err();
    assert_eq!(err, EditError::TooLate);
    assert!(called.get());
    assert_eq!(path_state(&q), (Some(p("r")), vec![p("a"), p("b")]));
}

#[test]
fn edit_displayed_stale_expect_does_not_revoke_and_leaves_queue_untouched() {
    let mut q = queue_with(Some("r"), &["a", "b"]);
    let (called, revoke) = revoke_stub(Some(p("r")));
    let err = edit_displayed(&mut q, QueueEdit::Remove { index: 0 }, &i("stale"), revoke).unwrap_err();
    assert_eq!(err, EditError::Stale);
    assert!(!called.get());
    assert_eq!(path_state(&q), (Some(p("r")), vec![p("a"), p("b")]));
}

#[test]
fn edit_displayed_out_of_range_leaves_queue_untouched() {
    let mut q = queue_with(Some("r"), &["a", "b"]);
    let (_, revoke) = revoke_stub(Some(p("r")));
    let err = edit_displayed(&mut q, QueueEdit::Remove { index: 3 }, &i("r"), revoke).unwrap_err();
    assert_eq!(err, EditError::OutOfRange);
    let (_, revoke) = revoke_stub(Some(p("r")));
    let err = edit_displayed(&mut q, QueueEdit::Move { from: 0, to: 3 }, &i("r"), revoke).unwrap_err();
    assert_eq!(err, EditError::OutOfRange);
    assert_eq!(path_state(&q), (Some(p("r")), vec![p("a"), p("b")]));
}

#[test]
fn edit_displayed_without_reserved_indexes_pending_directly() {
    let mut q = queue_with(None, &["a", "b", "c"]);
    let (called, revoke) = revoke_stub(Some(p("unused")));
    edit_displayed(&mut q, QueueEdit::Remove { index: 1 }, &i("b"), revoke).unwrap();
    assert!(!called.get());
    assert_eq!(path_state(&q), (None, vec![p("a"), p("c")]));
}

#[test]
fn edit_error_strings_match_the_frontend_contract() {
    assert_eq!(EditError::TooLate.as_str(), "too_late");
    assert_eq!(EditError::Stale.as_str(), "stale");
    assert_eq!(EditError::OutOfRange.as_str(), "out_of_range");
    assert_eq!(EditError::OriginBoundary.as_str(), "origin_boundary");
}

#[test]
fn revoked_reserved_keeps_its_origin() {
    let mut q = QueueState { pending: VecDeque::from(vec![a("a2")]), reserved: Some(a("a1")), reserved_is_next: true };
    edit_displayed(&mut q, QueueEdit::Move { from: 0, to: 1 }, &a("a1"), || Some(p("a1"))).unwrap();
    assert_eq!(state_snapshot(&q), (None, vec![a("a2"), a("a1")]));
    assert_eq!(q.pending[1].origin, QueueOrigin::Automatic);
}
