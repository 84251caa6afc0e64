//! What a user command asks of the catalog and the normal queue. A command
//! is first planned: its rules are checked and it becomes one catalog
//! operation (or none) plus its effect on the normal queue; the plan is
//! then carried out on a copy of the catalog that is saved before it is
//! published.
use vstd::prelude::*;

use crate::playlists::{
    def_pos, first_pos, lemma_first_pos, lemma_first_pos_is, opt_view, run_pos, unconsumed, Catalog, Entry, RemovedEntry, TrackRef,
};
use crate::queue::{items_view, QueueItem};
use crate::service::{
    append_all, append_to_normal, error, moved, opt_text, queue_move, queue_remove, track_views, Action, CommandError,
    CommandResult, SourceTarget, TrackTarget,
};
use crate::text::{chars_of, trim_chars, trimmed};

verus! {

/// The one catalog operation a command comes down to.
#[derive(Debug, PartialEq, Eq)]
pub enum CatalogOp {
    Create { name: String, tracks: Vec<TrackRef> },
    Select { id: Option<String> },
    Rename { id: String, name: String },
    Duplicate { id: String },
    Delete { id: String },
    Restart { id: String },
    Remove { id: String, entry_id: String },
    UndoRemove { id: String, removed: RemovedEntry },
    MoveEntry { id: String, entry_id: String, to: usize },
    Reorder { id: String, ordered: Vec<String> },
    Append { id: String, tracks: Vec<TrackRef> },
    /// The normal queue changed: only the catalog revision moves.
    BumpRevision,
    Nothing,
}

/// A planned command: its catalog operation, the counts and undo id it
/// reports, whether the engine's source must be replaced, and which undo
/// record it uses up.
#[derive(Debug, PartialEq, Eq)]
pub struct Plan {
    pub op: CatalogOp,
    pub result: CommandResult,
    pub force_source: bool,
    pub undo_used: Option<String>,
}

/// The append modes a request may name.
pub open spec fn append_mode(m: Seq<char>) -> bool {
    m == "single"@ || m == "many"@ || m == "arrivals"@
}

/// The track references of the accepted tracks of an append to the active
/// playlist: a gated track is skipped, any other needs its reference, and
/// the first one that cannot be had fails the whole command.
pub open spec fn accepted_refs(gated: Seq<bool>, refs: Seq<Result<TrackRef, CommandError>>) -> Result<Seq<TrackRef>, CommandError>
    decreases gated.len(),
{
    if gated.len() == 0 || refs.len() < gated.len() {
        Ok(seq![])
    } else {
        match accepted_refs(gated.drop_last(), refs.take(gated.len() - 1)) {
            Err(e) => Err(e),
            Ok(acc) => if gated.last() {
                Ok(acc)
            } else {
                match refs[gated.len() - 1] {
                    Ok(t) => Ok(acc.push(t)),
                    Err(e) => Err(e),
                }
            },
        }
    }
}

/// How many of `s` are true.
pub open spec fn count_true(s: Seq<bool>) -> nat
    decreases s.len(),
{
    if s.len() == 0 {
        0
    } else {
        count_true(s.drop_last()) + if s.last() {
            1nat
        } else {
            0nat
        }
    }
}

fn same(a: &str, b: &str) -> (r: bool)
    ensures
        r == (a@ == b@),
{
    a.to_owned() == b.to_owned()
}

fn same_opt(a: &Option<String>, b: &Option<String>) -> (r: bool)
    ensures
        r == (opt_view(*a) == opt_view(*b)),
{
    match (a, b) {
        (Some(x), Some(y)) => same(x.as_str(), y.as_str()),
        (None, None) => true,
        _ => false,
    }
}

/// The result of a command that reports nothing.
pub open spec fn empty_spec() -> CommandResult {
    CommandResult { created_id: None, undo_id: None, added: 0, rejected: 0, skipped: 0 }
}

fn empty_result() -> (r: CommandResult)
    ensures
        r == empty_spec(),
{
    CommandResult { created_id: None, undo_id: None, added: 0, rejected: 0, skipped: 0 }
}

/// The first position of occurrence `e` among `ids`, or -1.
pub open spec fn entry_pos(ids: Seq<String>, e: Seq<char>) -> int {
    first_pos(ids, |x: String| x@ == e)
}

/// The first position of `e` among `ids`, if any.
fn position_of(ids: &Vec<String>, e: &str) -> (r: Option<usize>)
    ensures
        match r {
            Some(i) => i < ids.len() && entry_pos(ids@, e@) == i,
            None => entry_pos(ids@, e@) == -1,
        },
{
    let ghost f = |x: String| x@ == e@;
    let mut i: usize = 0;
    while i < ids.len()
        invariant
            i <= ids.len(),
            f == (|x: String| x@ == e@),
            forall|j: int| 0 <= j < i ==> !f(#[trigger] ids@[j]),
        decreases ids.len() - i,
    {
        if same(ids[i].as_str(), e) {
            proof {
                lemma_first_pos_is(ids@, f, i as int);
            }
            return Some(i);
        }
        i = i + 1;
    }
    proof {
        lemma_first_pos_is(ids@, f, -1);
    }
    None
}

/// Collect the accepted references of an append to the active playlist.
fn collect_refs(gated: &[bool], refs: Vec<Result<TrackRef, CommandError>>) -> (r: Result<Vec<TrackRef>, CommandError>)
    requires
        refs.len() >= gated.len(),
    ensures
        match r {
            Ok(v) => accepted_refs(gated@, refs@) == Ok::<Seq<TrackRef>, CommandError>(v@),
            Err(e) => accepted_refs(gated@, refs@) == Err::<Seq<TrackRef>, CommandError>(e),
        },
{
    let ghost r0 = refs@;
    let mut rest = refs;
    let mut out: Vec<TrackRef> = Vec::new();
    let mut i: usize = 0;
    assert(gated@.take(0) =~= seq![]);
    while i < gated.len()
        invariant
            i <= gated.len() <= r0.len(),
            rest@ == r0.skip(i as int),
            r0 == refs@,
            accepted_refs(gated@.take(i as int), r0.take(i as int)) == Ok::<Seq<TrackRef>, CommandError>(out@),
        decreases gated.len() - i,
    {
        proof {
            assert(gated@.take(i as int + 1).drop_last() =~= gated@.take(i as int));
            assert(r0.take(i as int + 1).take(i as int) =~= r0.take(i as int));
            assert(rest@[0] == r0[i as int]);
        }
        let next = rest.remove(0);
        if !gated[i] {
            match next {
                Ok(t) => out.push(t),
                Err(e) => {
                    proof {
                        lemma_refs_prefix_err(gated@, r0, i as int, e);
                    }
                    return Err(e);
                },
            }
        }
        i = i + 1;
        assert(rest@ =~= r0.skip(i as int));
    }
    assert(gated@.take(gated.len() as int) =~= gated@);
    proof {
        lemma_refs_extend(gated@, r0);
    }
    Ok(out)
}

/// More references past the tracks change nothing.
proof fn lemma_refs_extend(gated: Seq<bool>, refs: Seq<Result<TrackRef, CommandError>>)
    requires
        refs.len() >= gated.len(),
    ensures
        accepted_refs(gated, refs) == accepted_refs(gated, refs.take(gated.len() as int)),
    decreases gated.len(),
{
    if gated.len() > 0 {
        let t = refs.take(gated.len() as int);
        assert(t.take(gated.len() - 1) =~= refs.take(gated.len() - 1));
        assert(t[gated.len() - 1] == refs[gated.len() - 1]);
    }
}

/// An error at track `i` is the error of every longer prefix.
proof fn lemma_refs_prefix_err(gated: Seq<bool>, refs: Seq<Result<TrackRef, CommandError>>, i: int, e: CommandError)
    requires
        0 <= i < gated.len() <= refs.len(),
        accepted_refs(gated.take(i), refs.take(i)) is Ok,
        !gated[i],
        refs[i] == Err::<TrackRef, CommandError>(e),
    ensures
        accepted_refs(gated, refs) == Err::<Seq<TrackRef>, CommandError>(e),
    decreases gated.len() - i,
{
    assert(gated.take(i + 1).drop_last() =~= gated.take(i));
    assert(refs.take(i + 1).take(i) =~= refs.take(i));
    assert(accepted_refs(gated.take(i + 1), refs.take(i + 1)) == Err::<Seq<TrackRef>, CommandError>(e));
    lemma_refs_err_extends(gated, refs, i + 1, e);
}

/// Once a prefix fails, every longer prefix fails the same way.
proof fn lemma_refs_err_extends(gated: Seq<bool>, refs: Seq<Result<TrackRef, CommandError>>, n: int, e: CommandError)
    requires
        0 < n <= gated.len() <= refs.len(),
        accepted_refs(gated.take(n), refs.take(n)) == Err::<Seq<TrackRef>, CommandError>(e),
    ensures
        accepted_refs(gated, refs) == Err::<Seq<TrackRef>, CommandError>(e),
    decreases gated.len() - n,
{
    if n == gated.len() {
        assert(gated.take(n) =~= gated);
        lemma_refs_extend(gated, refs);
    } else {
        assert(gated.take(n + 1).drop_last() =~= gated.take(n));
        assert(refs.take(n + 1).take(n) =~= refs.take(n));
        assert(accepted_refs(gated.take(n + 1), refs.take(n + 1)) == Err::<Seq<TrackRef>, CommandError>(e));
        lemma_refs_err_extends(gated, refs, n + 1, e);
    }
}

/// A request id that is empty once trimmed is refused before anything else.
pub fn request_id_blank(id: &str) -> (r: bool)
    ensures
        r == (trimmed(id@).len() == 0),
{
    let cs = chars_of(id);
    trim_chars(cs.as_slice()).len() == 0
}

/// A plan that reports nothing, replaces no source and uses no undo record.
pub open spec fn quiet(p: Plan) -> bool {
    &&& p.result.created_id is None
    &&& p.result.undo_id is None
    &&& p.result.added == 0
    &&& p.result.rejected == 0
    &&& p.result.skipped == 0
    &&& !p.force_source
    &&& p.undo_used is None
}

fn quiet_plan(op: CatalogOp) -> (p: Plan)
    ensures
        quiet(p),
        p.op == op,
{
    Plan { op, result: empty_result(), force_source: false, undo_used: None }
}

/// The occurrence ids playlist `id` has still to play, in order.
pub open spec fn remaining_ids(c: Catalog, id: Seq<char>) -> Seq<String> {
    unconsumed(
        c.definitions@[def_pos(c.definitions@, id)].entries@,
        c.runs@[run_pos(c.runs@, id)].1.consumed@,
    ).map_values(|e: Entry| e.entry_id)
}

fn ids_of(entries: &Vec<Entry>) -> (r: Vec<String>)
    ensures
        r@ == entries@.map_values(|e: Entry| e.entry_id),
{
    let mut out: Vec<String> = Vec::new();
    let mut i: usize = 0;
    while i < entries.len()
        invariant
            i <= entries.len(),
            out@ == entries@.take(i as int).map_values(|e: Entry| e.entry_id),
        decreases entries.len() - i,
    {
        out.push(entries[i].entry_id.clone());
        assert(entries@.take(i as int + 1).map_values(|e: Entry| e.entry_id) =~= out@);
        i = i + 1;
    }
    assert(entries@.take(entries.len() as int) =~= entries@);
    out
}

/// Move an occurrence of playlist `id`: within the whole definition for the
/// scope `all`, within the part still to play for `remaining`.
/// What a move of occurrence `entry_id` of playlist `id` to slot `to` comes
/// to, for the scope `all` (the whole definition) or `remaining` (the part
/// still to play).
pub open spec fn move_planned(
    c: Catalog,
    id: Seq<char>,
    entry_id: Seq<char>,
    to: usize,
    scope: Seq<char>,
    r: Result<Plan, CommandError>,
) -> bool {
    if scope == "all"@ {
        r matches Ok(p) && quiet(p) && (p.op matches CatalogOp::MoveEntry { id: i, entry_id: e, to: t } && i@ == id
            && e@ == entry_id && t == to)
    } else if scope == "remaining"@ {
        let ids = remaining_ids(c, id);
        let k = entry_pos(ids, entry_id);
        if def_pos(c.definitions@, id) == -1 || run_pos(c.runs@, id) == -1 {
            r matches Err(e) && e.code@ == "not_found"@
        } else if k == -1 {
            r matches Err(e) && e.code@ == "stale"@
        } else if to >= ids.len() {
            r matches Err(e) && e.code@ == "invalid_input"@
        } else {
            r matches Ok(p) && quiet(p) && (p.op matches CatalogOp::Reorder { id: i, ordered: o } && i@ == id && o@
                == moved(ids, k, to as int))
        }
    } else {
        r matches Err(e) && e.code@ == "invalid_input"@
    }
}

fn plan_move(catalog: &Catalog, id: String, entry_id: String, to: usize, scope: &str) -> (r: Result<Plan, CommandError>)
    ensures
        move_planned(*catalog, id@, entry_id@, to, scope@, r),
{
    if same(scope, "all") {
        return Ok(quiet_plan(CatalogOp::MoveEntry { id, entry_id, to }));
    }
    if !same(scope, "remaining") {
        return Err(error("invalid_input"));
    }
    let entries = match catalog.remaining(id.as_str()) {
        Ok(v) => v,
        Err(e) => {
            let ce = CommandError::from_playlist(e);
            return Err(ce);
        },
    };
    let mut ids = ids_of(&entries);
    let ghost before = ids@;
    let from = match position_of(&ids, entry_id.as_str()) {
        Some(k) => k,
        None => {
            return Err(error("stale"));
        },
    };
    if to >= ids.len() {
        return Err(error("invalid_input"));
    }
    let moving = ids.remove(from);
    ids.insert(to, moving);
    assert(ids@ =~= moved(before, from as int, to as int));
    Ok(quiet_plan(CatalogOp::Reorder { id, ordered: ids }))
}

/// The tracks of an append as the normal queue sees them: each path with
/// whether the Funkot filter refuses it.
pub open spec fn paired(tracks: Seq<TrackTarget>, gated: Seq<bool>) -> Seq<(Seq<char>, bool)> {
    Seq::new(tracks.len(), |i: int| (tracks[i].path@, gated[i]))
}

fn count_gated(gated: &[bool]) -> (r: usize)
    ensures
        r == count_true(gated@),
        r <= gated.len(),
{
    let mut n: usize = 0;
    let mut i: usize = 0;
    assert(gated@.take(0) =~= seq![]);
    while i < gated.len()
        invariant
            i <= gated.len(),
            n == count_true(gated@.take(i as int)),
            n <= i,
        decreases gated.len() - i,
    {
        assert(gated@.take(i as int + 1).drop_last() =~= gated@.take(i as int));
        if gated[i] {
            n = n + 1;
        }
        i = i + 1;
    }
    assert(gated@.take(gated.len() as int) =~= gated@);
    n
}

/// What an append of `tracks` in `mode` comes to. With a playlist active,
/// every track the Funkot filter lets through is appended to it, and the first whose
/// identity cannot be had fails the command. Otherwise the tracks go into
/// the normal queue. Either way the engine's source is replaced when it had
/// run dry and something was added.
pub open spec fn append_planned(
    active: Option<String>,
    before: Seq<QueueItem>,
    after: Seq<QueueItem>,
    tracks: Seq<TrackTarget>,
    mode: Seq<char>,
    exhausted: bool,
    current: Option<Seq<char>>,
    gated: Seq<bool>,
    refs: Seq<Result<TrackRef, CommandError>>,
    r: Result<Plan, CommandError>,
) -> bool {
    if !append_mode(mode) {
        (r matches Err(e) && e.code@ == "invalid_input"@) && after == before
    } else if active.is_some() {
        after == before && match accepted_refs(gated, refs) {
            Err(e) => r == Err::<Plan, CommandError>(e),
            Ok(v) => r matches Ok(p) && p.result.created_id is None && p.result.undo_id is None && p.result.added == v.len()
                && p.result.rejected == count_true(gated) && p.result.skipped == 0 && p.undo_used is None && p.force_source == (
            v.len() > 0 && exhausted) && if v.len() > 0 {
                p.op matches CatalogOp::Append { id: i, tracks: t } && i@ == active.unwrap()@ && t@ == v
            } else {
                p.op is Nothing
            },
        }
    } else {
        let out = append_all(items_view(before), paired(tracks, gated), mode == "single"@, current);
        &&& items_view(after) == out.0
        &&& r matches Ok(p) && p.result.created_id is None && p.result.undo_id is None && p.result.added == out.1
            && p.result.rejected == out.2 && p.result.skipped == out.3 && p.undo_used is None && p.force_source == (out.1
            > 0 && exhausted) && if out.1 > 0 {
            p.op is BumpRevision
        } else {
            p.op is Nothing
        }
    }
}

fn plan_append(
    active: &Option<String>,
    normal: &mut Vec<QueueItem>,
    tracks: Vec<TrackTarget>,
    mode: &str,
    exhausted: bool,
    current_path: Option<&String>,
    gated: &[bool],
    refs: Vec<Result<TrackRef, CommandError>>,
) -> (r: Result<Plan, CommandError>)
    requires
        gated.len() == tracks.len(),
        refs.len() >= tracks.len(),
    ensures
        append_planned(*active, old(normal)@, final(normal)@, tracks@, mode@, exhausted, opt_text(current_path), gated@, refs@, r),
{
    if !(same(mode, "single") || same(mode, "many") || same(mode, "arrivals")) {
        return Err(error("invalid_input"));
    }
    match active {
        Some(aid) => {
            let rejected = count_gated(gated);
            let accepted = match collect_refs(gated, refs) {
                Ok(v) => v,
                Err(e) => {
                    return Err(e);
                },
            };
            let added = accepted.len();
            let op = if added > 0 {
                CatalogOp::Append { id: aid.clone(), tracks: accepted }
            } else {
                CatalogOp::Nothing
            };
            let result = CommandResult { created_id: None, undo_id: None, added, rejected, skipped: 0 };
            Ok(Plan { op, result, force_source: added > 0 && exhausted, undo_used: None })
        },
        None => {
            let mut pairs: Vec<(String, bool)> = Vec::new();
            let mut i: usize = 0;
            while i < tracks.len()
                invariant
                    i <= tracks.len(),
                    gated.len() == tracks.len(),
                    pairs.len() == i,
                    track_views(pairs@) =~= paired(tracks@, gated@).take(i as int),
                decreases tracks.len() - i,
            {
                let path = tracks[i].path.clone();
                let g = gated[i];
                let ghost pv = path@;
                assert(pv == tracks@[i as int].path@);
                pairs.push((path, g));
                assert(pairs@[i as int].0@ == pv && pairs@[i as int].1 == g);
                assert(track_views(pairs@)[i as int] == paired(tracks@, gated@)[i as int]);
                assert(track_views(pairs@) =~= paired(tracks@, gated@).take(i as int + 1));
                i = i + 1;
            }
            assert(paired(tracks@, gated@).take(tracks.len() as int) =~= paired(tracks@, gated@));
            let single = same(mode, "single");
            let (added, rejected, skipped) = append_to_normal(normal, pairs.as_slice(), single, current_path);
            let op = if added > 0 {
                CatalogOp::BumpRevision
            } else {
                CatalogOp::Nothing
            };
            let result = CommandResult { created_id: None, undo_id: None, added, rejected, skipped };
            Ok(Plan { op, result, force_source: added > 0 && exhausted, undo_used: None })
        },
    }
}

/// What saving the normal queue as a new playlist `name` comes to: refused
/// while a playlist is the source; the first queued track whose identity
/// cannot be had fails the command.
pub open spec fn save_planned(
    active: Option<String>,
    queued: nat,
    name: Seq<char>,
    refs: Seq<Result<TrackRef, CommandError>>,
    r: Result<Plan, CommandError>,
) -> bool {
    if active.is_some() {
        r matches Err(e) && e.code@ == "stale"@
    } else {
        match accepted_refs(Seq::new(queued, |i: int| false), refs) {
            Err(e) => r == Err::<Plan, CommandError>(e),
            Ok(v) => r matches Ok(p) && quiet(p) && (p.op matches CatalogOp::Create { name: n, tracks: t } && n@ == name
                && t@ == v),
        }
    }
}

fn plan_save_queue(active: &Option<String>, normal: &Vec<QueueItem>, name: String, refs: Vec<Result<TrackRef, CommandError>>) -> (r:
    Result<Plan, CommandError>)
    requires
        refs.len() >= normal.len(),
    ensures
        save_planned(*active, normal.len() as nat, name@, refs@, r),
{
    if active.is_some() {
        return Err(error("stale"));
    }
    let mut none_gated: Vec<bool> = Vec::new();
    let mut i: usize = 0;
    while i < normal.len()
        invariant
            i <= normal.len(),
            none_gated@ =~= Seq::new(i as nat, |j: int| false),
        decreases normal.len() - i,
    {
        none_gated.push(false);
        i = i + 1;
    }
    match collect_refs(none_gated.as_slice(), refs) {
        Ok(tracks) => Ok(quiet_plan(CatalogOp::Create { name, tracks })),
        Err(e) => Err(e),
    }
}

/// What moving normal-queue item `from` to slot `to` comes to: stale while
/// a playlist is the source or when the item is no longer the one the user
/// saw; invalid outside the item's own priority class.
pub open spec fn queue_move_planned(
    active: bool,
    before: Seq<QueueItem>,
    after: Seq<QueueItem>,
    from: usize,
    to: usize,
    expect: QueueItem,
    r: Result<Plan, CommandError>,
) -> bool {
    if active || from >= before.len() || before[from as int]@ != expect@ {
        (r matches Err(e) && e.code@ == "stale"@) && after == before
    } else if to >= before.len() || before[to as int].origin != expect.origin {
        (r matches Err(e) && e.code@ == "invalid_input"@) && after == before
    } else {
        r matches Ok(p) && quiet(p) && p.op is BumpRevision && after == moved(before, from as int, to as int)
    }
}

/// What dropping normal-queue item `index` comes to, under the same
/// staleness rule.
pub open spec fn queue_remove_planned(
    active: bool,
    before: Seq<QueueItem>,
    after: Seq<QueueItem>,
    index: usize,
    expect: QueueItem,
    r: Result<Plan, CommandError>,
) -> bool {
    if active || index >= before.len() || before[index as int]@ != expect@ {
        (r matches Err(e) && e.code@ == "stale"@) && after == before
    } else {
        r matches Ok(p) && quiet(p) && p.op is BumpRevision && after == before.remove(index as int)
    }
}

/// Plan one command against `catalog` (the copy that will be changed) and
/// the normal queue, which an append or a queue edit changes in place.
/// The caller supplies what takes the outside world: whether the engine's
/// source has run dry, the path playing now, the undo record an undo names
/// (if it is still held), for each appended track whether the Funkot filter refuses
/// it, and the identity of each appended track (or, to save the queue, of
/// each queued item), looked up in order and up to the first failure.
pub fn plan_action(
    catalog: &Catalog,
    normal: &mut Vec<QueueItem>,
    request_id: &String,
    action: Action,
    exhausted: bool,
    current_path: Option<&String>,
    undo: Option<(String, RemovedEntry)>,
    gated: &[bool],
    refs: Vec<Result<TrackRef, CommandError>>,
) -> (r: Result<Plan, CommandError>)
    requires
        match action {
            Action::Append { tracks, .. } => gated.len() == tracks.len() && refs.len() >= tracks.len(),
            Action::SaveQueue { .. } => refs.len() >= old(normal).len(),
            _ => true,
        },
    ensures
        match action {
            Action::Append { .. } | Action::QueueMove { .. } | Action::QueueRemove { .. } => r is Err ==> final(normal)@
                == old(normal)@,
            _ => final(normal)@ == old(normal)@,
        },
        match action {
            Action::Create { name } => r matches Ok(p) && quiet(p) && (p.op matches CatalogOp::Create { name: n, tracks: t }
                && n@ == name@ && t@.len() == 0),
            Action::SaveQueue { name } => save_planned(catalog.active_id, old(normal).len() as nat, name@, refs@, r),
            Action::Select { id } => r matches Ok(p) && p.result == empty_spec() && p.undo_used is None && p.force_source
                == (opt_view(catalog.active_id) != opt_view(id)) && (p.op matches CatalogOp::Select { id: i } && opt_view(i)
                == opt_view(id)),
            Action::Rename { id, name } => r matches Ok(p) && quiet(p) && (p.op matches CatalogOp::Rename { id: i, name: n }
                && i@ == id@ && n@ == name@),
            Action::Duplicate { id } => r matches Ok(p) && quiet(p) && (p.op matches CatalogOp::Duplicate { id: i } && i@
                == id@),
            Action::Delete { id, confirm_name } => {
                let dp = def_pos(catalog.definitions@, id@);
                if dp == -1 {
                    r matches Err(e) && e.code@ == "not_found"@
                } else if catalog.definitions@[dp].name@ != confirm_name@ {
                    r matches Err(e) && e.code@ == "stale"@
                } else {
                    r matches Ok(p) && quiet(p) && (p.op matches CatalogOp::Delete { id: i } && i@ == id@)
                }
            },
            Action::Restart { id } => r matches Ok(p) && p.result == empty_spec() && p.undo_used is None && p.force_source
                == (opt_view(catalog.active_id) == Some(id@)) && (p.op matches CatalogOp::Restart { id: i } && i@ == id@),
            Action::Remove { id, entry_id } => r matches Ok(p) && p.result.created_id is None && opt_view(p.result.undo_id)
                == Some(request_id@) && p.result.added == 0 && p.result.rejected == 0 && p.result.skipped == 0
                && !p.force_source && p.undo_used is None && (p.op matches CatalogOp::Remove { id: i, entry_id: e } && i@
                == id@ && e@ == entry_id@),
            Action::UndoRemove { undo_id } => match undo {
                None => r matches Err(e) && e.code@ == "stale"@,
                Some(held) => r matches Ok(p) && p.result == empty_spec() && !p.force_source && opt_view(p.undo_used)
                    == Some(undo_id@) && (p.op matches CatalogOp::UndoRemove { id: i, removed: x } && i@ == held.0@ && x
                    == held.1),
            },
            Action::Move { id, entry_id, to, scope } => move_planned(*catalog, id@, entry_id@, to, scope@, r),
            Action::Append { tracks, mode } => append_planned(
                catalog.active_id,
                old(normal)@,
                final(normal)@,
                tracks@,
                mode@,
                exhausted,
                opt_text(current_path),
                gated@,
                refs@,
                r,
            ),
            Action::QueueMove { from, to, expect } => queue_move_planned(
                catalog.active_id.is_some(),
                old(normal)@,
                final(normal)@,
                from,
                to,
                expect,
                r,
            ),
            Action::QueueRemove { index, expect } => queue_remove_planned(
                catalog.active_id.is_some(),
                old(normal)@,
                final(normal)@,
                index,
                expect,
                r,
            ),
        },
{
    match action {
        Action::Create { name } => Ok(quiet_plan(CatalogOp::Create { name, tracks: Vec::new() })),
        Action::SaveQueue { name } => plan_save_queue(&catalog.active_id, normal, name, refs),
        Action::Select { id } => {
            let force_source = !same_opt(&catalog.active_id, &id);
            Ok(Plan { op: CatalogOp::Select { id }, result: empty_result(), force_source, undo_used: None })
        },
        Action::Rename { id, name } => Ok(quiet_plan(CatalogOp::Rename { id, name })),
        Action::Duplicate { id } => Ok(quiet_plan(CatalogOp::Duplicate { id })),
        Action::Delete { id, confirm_name } => {
            let def = match catalog.definition(id.as_str()) {
                Ok(d) => d,
                Err(e) => {
                    let ce = CommandError::from_playlist(e);
                    return Err(ce);
                },
            };
            if !same(def.name.as_str(), confirm_name.as_str()) {
                return Err(error("stale"));
            }
            Ok(quiet_plan(CatalogOp::Delete { id }))
        },
        Action::Restart { id } => {
            let force_source = match &catalog.active_id {
                Some(a) => same(a.as_str(), id.as_str()),
                None => false,
            };
            Ok(Plan { op: CatalogOp::Restart { id }, result: empty_result(), force_source, undo_used: None })
        },
        Action::Remove { id, entry_id } => {
            let mut result = empty_result();
            result.undo_id = Some(request_id.clone());
            Ok(Plan { op: CatalogOp::Remove { id, entry_id }, result, force_source: false, undo_used: None })
        },
        Action::UndoRemove { undo_id } => match undo {
            None => Err(error("stale")),
            Some((id, removed)) => Ok(
                Plan {
                    op: CatalogOp::UndoRemove { id, removed },
                    result: empty_result(),
                    force_source: false,
                    undo_used: Some(undo_id),
                },
            ),
        },
        Action::Move { id, entry_id, to, scope } => plan_move(catalog, id, entry_id, to, scope.as_str()),
        Action::Append { tracks, mode } => plan_append(
            &catalog.active_id,
            normal,
            tracks,
            mode.as_str(),
            exhausted,
            current_path,
            gated,
            refs,
        ),
        Action::QueueMove { from, to, expect } => {
            match queue_move(normal, catalog.active_id.is_some(), from, to, &expect) {
                Ok(()) => Ok(quiet_plan(CatalogOp::BumpRevision)),
                Err(e) => Err(e),
            }
        },
        Action::QueueRemove { index, expect } => {
            match queue_remove(normal, catalog.active_id.is_some(), index, &expect) {
                Ok(()) => Ok(quiet_plan(CatalogOp::BumpRevision)),
                Err(e) => Err(e),
            }
        },
    }
}

/// The answers already given, by request id: the request's fingerprint and
/// the result reported. No id occurs twice.
#[derive(Debug)]
pub struct Receipts {
    entries: Vec<(String, String, CommandResult)>,
}

/// Where the receipt for `id` stands among `es`, or -1.
pub open spec fn receipt_pos(es: Seq<(String, String, CommandResult)>, id: Seq<char>) -> int {
    first_pos(es, for_id(id))
}

/// Whether a receipt is the one for request `id`.
pub open spec fn for_id(id: Seq<char>) -> spec_fn((String, String, CommandResult)) -> bool {
    |e: (String, String, CommandResult)| e.0@ == id
}

/// How a request with a known receipt is answered again: the same request
/// gets the same result, a different one under the same id is stale. `None`
/// for an id without a receipt; an error is given by its code.
pub open spec fn replayed(receipt: Option<(Seq<char>, CommandResult)>, fingerprint: Seq<char>) -> Option<
    Result<CommandResult, Seq<char>>,
> {
    match receipt {
        None => None,
        Some((f, res)) => if f == fingerprint {
            Some(Ok(res))
        } else {
            Some(Err("stale"@))
        },
    }
}

pub open spec fn answer_view(r: Option<Result<CommandResult, CommandError>>) -> Option<Result<CommandResult, Seq<char>>> {
    match r {
        None => None,
        Some(Ok(res)) => Some(Ok(res)),
        Some(Err(e)) => Some(Err(e.code@)),
    }
}

fn copy_result(r: &CommandResult) -> (c: CommandResult)
    ensures
        c == *r,
{
    let created_id = match &r.created_id {
        Some(s) => Some(s.clone()),
        None => None,
    };
    let undo_id = match &r.undo_id {
        Some(s) => Some(s.clone()),
        None => None,
    };
    CommandResult { created_id, undo_id, added: r.added, rejected: r.rejected, skipped: r.skipped }
}

impl Receipts {
    /// No request id has two receipts.
    pub closed spec fn ids_distinct(self) -> bool {
        forall|i: int, j: int| 0 <= i < j < self.entries@.len() ==> #[trigger] self.entries@[i].0@ != #[trigger] self.entries@[j].0@
    }

    /// The fingerprint and result recorded for request `id`, if any.
    pub closed spec fn receipt(self, id: Seq<char>) -> Option<(Seq<char>, CommandResult)> {
        let k = receipt_pos(self.entries@, id);
        if k == -1 {
            None
        } else {
            Some((self.entries@[k].1@, self.entries@[k].2))
        }
    }

    pub fn new() -> (r: Receipts)
        ensures
            forall|id: Seq<char>| #[trigger] r.receipt(id) is None,
            r.ids_distinct(),
    {
        Receipts { entries: Vec::new() }
    }

    fn find(&self, id: &str) -> (r: Option<usize>)
        ensures
            match r {
                Some(k) => k < self.entries.len() && receipt_pos(self.entries@, id@) == k,
                None => receipt_pos(self.entries@, id@) == -1,
            },
    {
        let ghost f = for_id(id@);
        let mut i: usize = 0;
        while i < self.entries.len()
            invariant
                i <= self.entries.len(),
                f == for_id(id@),
                forall|j: int| 0 <= j < i ==> !f(#[trigger] self.entries@[j]),
            decreases self.entries.len() - i,
        {
            if same(self.entries[i].0.as_str(), id) {
                proof {
                    lemma_first_pos_is(self.entries@, f, i as int);
                }
                return Some(i);
            }
            i = i + 1;
        }
        proof {
            lemma_first_pos_is(self.entries@, f, -1);
        }
        None
    }

    /// Answer a request whose id may already have been answered: the recorded
    /// result for the same request, `stale` for a different one, `None` for
    /// an id never seen.
    pub fn replay(&self, id: &str, fingerprint: &str) -> (r: Option<Result<CommandResult, CommandError>>)
        ensures
            answer_view(r) == replayed(self.receipt(id@), fingerprint@),
    {
        match self.find(id) {
            None => None,
            Some(k) => {
                if same(self.entries[k].1.as_str(), fingerprint) {
                    Some(Ok(copy_result(&self.entries[k].2)))
                } else {
                    Some(Err(error("stale")))
                }
            },
        }
    }

    /// Record the answer to request `id`; the receipts of other ids stay.
    pub fn record(&mut self, id: String, fingerprint: String, result: CommandResult)
        ensures
            final(self).receipt(id@) == Some((fingerprint@, result)),
            forall|other: Seq<char>| other != id@ ==> #[trigger] final(self).receipt(other) == old(self).receipt(other),
            old(self).ids_distinct() ==> final(self).ids_distinct(),
    {
        let ghost before = self.entries@;
        let ghost key = id@;
        match self.find(id.as_str()) {
            Some(k) => {
                self.entries.set(k, (id, fingerprint, result));
                proof {
                    let after = self.entries@;
                    let f = for_id(key);
                    lemma_first_pos(before, f);
                    lemma_first_pos_is(after, f, k as int);
                    assert forall|other: Seq<char>| other != key implies #[trigger] receipt_pos(after, other) == receipt_pos(
                        before,
                        other,
                    ) && (receipt_pos(before, other) >= 0 ==> after[receipt_pos(before, other)] == before[receipt_pos(
                        before,
                        other,
                    )]) by {
                        let g = for_id(other);
                        lemma_first_pos(before, g);
                        let p = first_pos(before, g);
                        if p == -1 {
                            assert forall|j: int| 0 <= j < after.len() implies !g(#[trigger] after[j]) by {
                                if j != k {
                                    assert(after[j] == before[j]);
                                    assert(!g(before[j]));
                                }
                            }
                        } else {
                            assert(p != k);
                            assert forall|j: int| 0 <= j < p implies !g(#[trigger] after[j]) by {
                                if j != k {
                                    assert(after[j] == before[j]);
                                    assert(!g(before[j]));
                                }
                            }
                            assert(after[p] == before[p]);
                        }
                        lemma_first_pos_is(after, g, p);
                    }
                }
            },
            None => {
                self.entries.push((id, fingerprint, result));
                proof {
                    let after = self.entries@;
                    let f = for_id(key);
                    lemma_first_pos(before, f);
                    assert forall|j: int| 0 <= j < before.len() implies !f(#[trigger] after[j]) by {
                        assert(after[j] == before[j]);
                        assert(!f(before[j]));
                    }
                    lemma_first_pos_is(after, f, before.len() as int);
                    assert forall|other: Seq<char>| other != key implies #[trigger] receipt_pos(after, other) == receipt_pos(
                        before,
                        other,
                    ) && (receipt_pos(before, other) >= 0 ==> after[receipt_pos(before, other)] == before[receipt_pos(
                        before,
                        other,
                    )]) by {
                        let g = for_id(other);
                        lemma_first_pos(before, g);
                        let p = first_pos(before, g);
                        if p == -1 {
                            assert forall|j: int| 0 <= j < after.len() implies !g(#[trigger] after[j]) by {
                                if j < before.len() {
                                    assert(after[j] == before[j]);
                                    assert(!g(before[j]));
                                }
                            }
                        } else {
                            assert forall|j: int| 0 <= j < p implies !g(#[trigger] after[j]) by {
                                assert(after[j] == before[j]);
                                assert(!g(before[j]));
                            }
                            assert(p < before.len());
                            assert(after[p] == before[p]);
                        }
                        lemma_first_pos_is(after, g, p);
                    }
                }
            },
        }
    }
}

/// A request answered once is answered the same way again: replaying the
/// identical request gives the recorded result, while any other request
/// under that id is stale; recording leaves every other id's answer alone.
pub proof fn lemma_replay_after_record(
    before: Receipts,
    after: Receipts,
    id: Seq<char>,
    fingerprint: Seq<char>,
    result: CommandResult,
    other_fingerprint: Seq<char>,
    other_id: Seq<char>,
)
    requires
        after.receipt(id) == Some((fingerprint, result)),
        forall|o: Seq<char>| o != id ==> #[trigger] after.receipt(o) == before.receipt(o),
    ensures
        replayed(after.receipt(id), fingerprint) == Some(Ok::<CommandResult, Seq<char>>(result)),
        other_fingerprint != fingerprint ==> replayed(after.receipt(id), other_fingerprint) == Some(
            Err::<CommandResult, Seq<char>>("stale"@),
        ),
        other_id != id ==> replayed(after.receipt(other_id), other_fingerprint) == replayed(
            before.receipt(other_id),
            other_fingerprint,
        ),
{
    if other_id != id {
        assert(after.receipt(other_id) == before.receipt(other_id));
    }
}

/// Whether a command may go ahead.
#[derive(Debug, PartialEq, Eq)]
pub enum Admission {
    /// The identical request was answered before: answer it the same way.
    Replay(CommandResult),
    Refused(CommandError),
    /// A new request against the source and revision the caller saw.
    Fresh,
}

/// Two source targets name the same source, generation and revision.
pub open spec fn same_target(a: SourceTarget, b: SourceTarget) -> bool {
    opt_view(a.playlist_id) == opt_view(b.playlist_id) && a.generation == b.generation && a.revision == b.revision
}

/// Decide whether a request goes ahead: a blank id is invalid; an id already answered is
/// replayed (or stale, for a different request); a request made against
/// another source, generation or revision than the current one is stale.
pub fn admission(receipts: &Receipts, request_id: &str, fingerprint: &str, current: &SourceTarget, target: &SourceTarget) -> (r:
    Admission)
    ensures
        trimmed(request_id@).len() == 0 ==> (r matches Admission::Refused(e) && e.code@ == "invalid_input"@),
        trimmed(request_id@).len() != 0 ==> match replayed(receipts.receipt(request_id@), fingerprint@) {
            Some(Ok(res)) => r == Admission::Replay(res),
            Some(Err(code)) => r matches Admission::Refused(e) && e.code@ == code,
            None => if same_target(*current, *target) {
                r is Fresh
            } else {
                r matches Admission::Refused(e) && e.code@ == "stale"@
            },
        },
{
    if request_id_blank(request_id) {
        return Admission::Refused(error("invalid_input"));
    }
    match receipts.replay(request_id, fingerprint) {
        Some(Ok(res)) => return Admission::Replay(res),
        Some(Err(e)) => return Admission::Refused(e),
        None => {},
    }
    if same_opt(&current.playlist_id, &target.playlist_id) && current.generation == target.generation && current.revision
        == target.revision {
        Admission::Fresh
    } else {
        Admission::Refused(error("stale"))
    }
}

/// Whether a planned command replaces the engine's source. A change that
/// reaches work already handed to the engine (`force_source`, or a plan
/// that `invalidates` its claims) must go through the engine: before the
/// audio control handle exists, while a source is already published, the
/// command is `busy`; with the handle, the source is replaced.
pub fn source_replacement(playback_present: bool, source_published: bool, force_source: bool, invalidates: bool) -> (r:
    Result<bool, CommandError>)
    ensures
        !playback_present && source_published && (force_source || invalidates) ==> (r matches Err(e) && e.code@
            == "busy"@),
        !(!playback_present && source_published && (force_source || invalidates)) ==> r == Ok::<bool, CommandError>(
            (force_source || invalidates) && playback_present,
        ),
{
    let affects = force_source || invalidates;
    if !playback_present && source_published && affects {
        return Err(error("busy"));
    }
    Ok(affects && playback_present)
}

} // verus!
