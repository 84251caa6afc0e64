//! The decisions of the playlist service that sits between the user's
//! commands, the catalog, the normal queue and the engine: what a command
//! may touch, how errors are reported, and how rows are shown.
use vstd::prelude::*;

use crate::playlists::{
    contains_id, copy_current, def_pos, entry_pos, fail_pos, find_entry, find_failure, first_pos, has_entry, lemma_first_pos_is,
    lists_id, opt_view, run_pos, unconsumed, Catalog, CurrentOccurrence, Entry, LoadState, PlaybackOrigin, PlaylistError, Run,
    TrackRef,
};
use crate::queue::{first_automatic, item_paths, items_view, lemma_manual_prefix_len, manual_prefix_len, manual_view, ItemView, QueueItem, QueueOrigin};

verus! {

/// The source a command was prepared against: stale unless it still holds.
#[derive(Debug, PartialEq, Eq)]
pub struct SourceTarget {
    pub playlist_id: Option<String>,
    pub generation: u64,
    pub revision: u64,
}

/// An error as the user interface receives it: a stable code and a message.
#[derive(Debug, PartialEq, Eq)]
pub struct CommandError {
    pub code: String,
    pub message: String,
}

#[derive(Debug, PartialEq, Eq)]
pub struct Summary {
    pub id: String,
    pub name: String,
    pub revision: u64,
    pub total: usize,
    pub remaining: usize,
}

#[derive(Debug, PartialEq, Eq)]
pub struct CatalogView {
    pub revision: u64,
    pub active_id: Option<String>,
    pub generation: u64,
    pub store_status: String,
    pub lists: Vec<Summary>,
}

#[derive(Debug, PartialEq, Eq)]
pub struct EntryView {
    pub entry_id: String,
    pub path: String,
    pub title: String,
    pub artist: String,
    pub status: String,
    pub reason: Option<String>,
}

#[derive(Debug, PartialEq, Eq)]
pub struct Details {
    pub id: String,
    pub name: String,
    pub revision: u64,
    pub run_id: u64,
    pub total: usize,
    pub ended: bool,
    pub skipped: usize,
    pub rows: Vec<EntryView>,
}

/// A track a command names by path, with the content hash it expects there.
#[derive(Clone, Debug, PartialEq, Eq)]
pub struct TrackTarget {
    pub path: String,
    pub expected_hash: Option<String>,
}

#[derive(Clone, Debug, PartialEq, Eq)]
pub enum Action {
    Select { id: Option<String> },
    Create { name: String },
    SaveQueue { name: String },
    Rename { id: String, name: String },
    Duplicate { id: String },
    Delete { id: String, confirm_name: String },
    Restart { id: String },
    Remove { id: String, entry_id: String },
    UndoRemove { undo_id: String },
    Move { id: String, entry_id: String, to: usize, scope: String },
    Append { tracks: Vec<TrackTarget>, mode: String },
    QueueMove { from: usize, to: usize, expect: QueueItem },
    QueueRemove { index: usize, expect: QueueItem },
}

#[derive(Debug, PartialEq, Eq)]
pub struct Request {
    pub request_id: String,
    pub target: SourceTarget,
    pub action: Action,
}

#[derive(Debug, Default, PartialEq, Eq)]
pub struct CommandResult {
    pub created_id: Option<String>,
    pub undo_id: Option<String>,
    pub added: usize,
    pub rejected: usize,
    pub skipped: usize,
}

/// An error whose message is its code.
pub fn error(code: &str) -> (r: CommandError)
    ensures
        r.code@ == code@,
        r.message@ == code@,
{
    CommandError { code: code.to_owned(), message: code.to_owned() }
}

/// The stable code of a catalog error.
pub open spec fn error_code(e: PlaylistError) -> Seq<char> {
    match e {
        PlaylistError::InvalidInput { .. } => "invalid_input"@,
        PlaylistError::NotFound => "not_found"@,
        PlaylistError::Stale => "stale"@,
        PlaylistError::ActiveList => "active_list"@,
        PlaylistError::DuplicateUndo => "duplicate_undo"@,
        PlaylistError::StoreReadOnly { .. } => "store_read_only"@,
        PlaylistError::PersistFailed { .. } => "persist_failed"@,
    }
}

/// The message of a catalog error: the one it carries, else empty.
pub open spec fn error_message(e: PlaylistError) -> Seq<char> {
    match e {
        PlaylistError::InvalidInput { message } => message@,
        PlaylistError::PersistFailed { message } => message@,
        _ => Seq::empty(),
    }
}

impl CommandError {
    /// Report a catalog error by its code and carried message.
    pub fn from_playlist(e: PlaylistError) -> (r: CommandError)
        ensures
            r.code@ == error_code(e),
            r.message@ == error_message(e),
    {
        match e {
            PlaylistError::InvalidInput { message } => CommandError { code: "invalid_input".to_owned(), message },
            PlaylistError::NotFound => CommandError { code: "not_found".to_owned(), message: String::new() },
            PlaylistError::Stale => CommandError { code: "stale".to_owned(), message: String::new() },
            PlaylistError::ActiveList => CommandError { code: "active_list".to_owned(), message: String::new() },
            PlaylistError::DuplicateUndo => CommandError {
                code: "duplicate_undo".to_owned(),
                message: String::new(),
            },
            PlaylistError::StoreReadOnly { .. } => CommandError {
                code: "store_read_only".to_owned(),
                message: String::new(),
            },
            PlaylistError::PersistFailed { message } => CommandError { code: "persist_failed".to_owned(), message },
        }
    }
}

/// How a store's state is reported: its snake-case name.
pub open spec fn load_state_name(s: LoadState) -> Seq<char> {
    match s {
        LoadState::Missing => "missing"@,
        LoadState::Ready => "ready"@,
        LoadState::Corrupt => "corrupt"@,
        LoadState::UnsupportedSchema => "unsupported_schema"@,
        LoadState::IoError => "io_error"@,
        LoadState::Busy => "busy"@,
    }
}

/// The store status shown with the catalog: a failed progress save wins
/// over the store's own state.
pub fn store_status(progress_error: bool, state: &LoadState) -> (r: String)
    ensures
        progress_error ==> r@ == "persist_failed"@,
        !progress_error ==> r@ == load_state_name(*state),
{
    if progress_error {
        return "persist_failed".to_owned();
    }
    match state {
        LoadState::Missing => "missing".to_owned(),
        LoadState::Ready => "ready".to_owned(),
        LoadState::Corrupt => "corrupt".to_owned(),
        LoadState::UnsupportedSchema => "unsupported_schema".to_owned(),
        LoadState::IoError => "io_error".to_owned(),
        LoadState::Busy => "busy".to_owned(),
    }
}

/// How many occurrences of playlist `id` its run has not consumed; none
/// when it has no definition or no run.
pub open spec fn remaining_count(c: Catalog, id: Seq<char>) -> nat {
    let dp = def_pos(c.definitions@, id);
    let rp = run_pos(c.runs@, id);
    if dp >= 0 && rp >= 0 {
        unconsumed(c.definitions@[dp].entries@, c.runs@[rp].1.consumed@).len()
    } else {
        0
    }
}

/// One summary line per playlist, in catalog order.
pub fn summaries(c: &Catalog) -> (r: Vec<Summary>)
    ensures
        r.len() == c.definitions.len(),
        forall|i: int|
            0 <= i < r.len() ==> {
                let d = #[trigger] c.definitions@[i];
                &&& r@[i].id@ == d.id@
                &&& r@[i].name@ == d.name@
                &&& r@[i].revision == d.revision
                &&& r@[i].total == d.entries.len()
                &&& r@[i].remaining == remaining_count(*c, d.id@)
            },
{
    let mut out: Vec<Summary> = Vec::new();
    let mut i: usize = 0;
    while i < c.definitions.len()
        invariant
            i <= c.definitions.len(),
            out.len() == i,
            forall|j: int|
                0 <= j < i ==> {
                    let d = #[trigger] c.definitions@[j];
                    &&& out@[j].id@ == d.id@
                    &&& out@[j].name@ == d.name@
                    &&& out@[j].revision == d.revision
                    &&& out@[j].total == d.entries.len()
                    &&& out@[j].remaining == remaining_count(*c, d.id@)
                },
        decreases c.definitions.len() - i,
    {
        let d = &c.definitions[i];
        let remaining = match c.remaining(d.id.as_str()) {
            Ok(r) => r.len(),
            Err(_) => 0,
        };
        out.push(
            Summary {
                id: d.id.clone(),
                name: d.name.clone(),
                revision: d.revision,
                total: d.entries.len(),
                remaining,
            },
        );
        i = i + 1;
    }
    out
}

/// What a row of a playlist shows: its status and the reason behind it.
pub open spec fn row_status(
    failure: Option<Seq<char>>,
    availability: Option<(Seq<char>, Seq<char>)>,
    current: bool,
    consumed: bool,
    claimed: bool,
    prepared: bool,
) -> (Seq<char>, Option<Seq<char>>) {
    let reason = match failure {
        Some(f) => Some(f),
        None => match availability {
            Some(a) => Some(a.1),
            None => None,
        },
    };
    let status = if failure is Some {
        if reason == Some("missing"@) {
            "missing"@
        } else {
            "unplayable"@
        }
    } else if current {
        "current"@
    } else if consumed {
        "played"@
    } else if claimed {
        if prepared {
            "prepared"@
        } else {
            "preparing"@
        }
    } else {
        match availability {
            Some(a) => a.0,
            None => "pending"@,
        }
    };
    (status, reason)
}

pub open spec fn opt_text(o: Option<&String>) -> Option<Seq<char>> {
    match o {
        Some(s) => Some(s@),
        None => None,
    }
}

/// The status and reason of one row: a failure recorded by the run (for the
/// reason `missing`, or another), the audible occurrence, a consumed one, a
/// claimed one (prepared when it is the next, ready one), else what the
/// last availability check found, else pending.
pub fn entry_status(
    failure: Option<&String>,
    availability: Option<&(String, String)>,
    current: bool,
    consumed: bool,
    claimed: bool,
    prepared: bool,
) -> (r: (String, Option<String>))
    ensures
        ({
            let (s, why) = row_status(
                opt_text(failure),
                match availability {
                    Some(a) => Some((a.0@, a.1@)),
                    None => None,
                },
                current,
                consumed,
                claimed,
                prepared,
            );
            r.0@ == s && opt_text(
                match &r.1 {
                    Some(x) => Some(x),
                    None => None,
                },
            ) == why
        }),
{
    let reason: Option<String> = match failure {
        Some(f) => Some(f.clone()),
        None => match availability {
            Some(a) => Some(a.1.clone()),
            None => None,
        },
    };
    let status: String = match failure {
        Some(f) => {
            if f.as_str().to_owned() == "missing".to_owned() {
                "missing".to_owned()
            } else {
                "unplayable".to_owned()
            }
        },
        None => {
            if current {
                "current".to_owned()
            } else if consumed {
                "played".to_owned()
            } else if claimed {
                if prepared {
                    "prepared".to_owned()
                } else {
                    "preparing".to_owned()
                }
            } else {
                match availability {
                    Some(a) => a.0.clone(),
                    None => "pending".to_owned(),
                }
            }
        },
    };
    (status, reason)
}

/// `ids` with the element at `from` moved to `to`.
pub open spec fn moved<A>(s: Seq<A>, from: int, to: int) -> Seq<A> {
    s.remove(from).insert(to, s[from])
}

/// Move occurrence `entry_id` within the remaining order `ids` to slot
/// `to`: a stale command when it is no longer remaining, invalid input when
/// the slot is past the end.
pub fn move_in_remaining(ids: Vec<String>, entry_id: &str, to: usize) -> (r: Result<Vec<String>, CommandError>)
    ensures
        match r {
            Ok(v) => exists|from: int|
                0 <= from < ids.len() && ids@[from]@ == entry_id@ && (forall|j: int| 0 <= j < from ==> #[trigger] ids@[j]@ != entry_id@)
                    && to < ids.len() && v@ == moved(ids@, from, to as int),
            Err(e) => {
                ||| (forall|j: int| 0 <= j < ids.len() ==> #[trigger] ids@[j]@ != entry_id@) && e.code@ == "stale"@
                ||| (exists|j: int| 0 <= j < ids.len() && #[trigger] ids@[j]@ == entry_id@) && to >= ids.len() && e.code@ == "invalid_input"@
            },
        },
        (exists|j: int| 0 <= j < ids.len() && #[trigger] ids@[j]@ == entry_id@) && to < ids.len() ==> r is Ok,
{
    let mut from: usize = 0;
    let mut found = false;
    while from < ids.len() && !found
        invariant
            from <= ids.len(),
            found ==> from < ids.len() && ids@[from as int]@ == entry_id@,
            forall|j: int| 0 <= j < from ==> #[trigger] ids@[j]@ != entry_id@,
        decreases ids.len() - from, if found { 0int } else { 1int },
    {
        if ids[from].as_str().to_owned() == entry_id.to_owned() {
            found = true;
        } else {
            from = from + 1;
        }
    }
    if from == ids.len() {
        return Err(error("stale"));
    }
    if to >= ids.len() {
        return Err(error("invalid_input"));
    }
    let ghost before = ids@;
    let mut ids = ids;
    let entry = ids.remove(from);
    ids.insert(to, entry);
    assert(ids@ =~= moved(before, from as int, to as int));
    Ok(ids)
}

/// The claims still hold when the new order begins with exactly the
/// occurrences already claimed, in order.
pub fn claims_hold(expected: &[String], actual: &[String]) -> (r: bool)
    ensures
        r == (actual.len() <= expected.len() && forall|i: int| 0 <= i < actual.len() ==> #[trigger] expected@[i]@ == actual@[i]@),
{
    if actual.len() > expected.len() {
        return false;
    }
    let mut i: usize = 0;
    while i < actual.len()
        invariant
            i <= actual.len() <= expected.len(),
            forall|j: int| 0 <= j < i ==> #[trigger] expected@[j]@ == actual@[j]@,
        decreases actual.len() - i,
    {
        if expected[i].as_str().to_owned() != actual[i].as_str().to_owned() {
            return false;
        }
        i = i + 1;
    }
    true
}

/// The normal queue still begins with the claimed items, in order.
pub fn items_hold(normal: &[QueueItem], claimed: &[QueueItem]) -> (r: bool)
    ensures
        r == (claimed.len() <= normal.len() && forall|i: int| 0 <= i < claimed.len() ==> #[trigger] normal@[i]@ == claimed@[i]@),
{
    if claimed.len() > normal.len() {
        return false;
    }
    let mut i: usize = 0;
    while i < claimed.len()
        invariant
            i <= claimed.len() <= normal.len(),
            forall|j: int| 0 <= j < i ==> #[trigger] normal@[j]@ == claimed@[j]@,
        decreases claimed.len() - i,
    {
        if !normal[i].same_as(&claimed[i]) {
            return false;
        }
        i = i + 1;
    }
    true
}

/// `s` without its first item equal to `x`, when there is one.
pub open spec fn without_first(s: Seq<ItemView>, x: ItemView) -> Seq<ItemView> {
    let p = first_pos(s, |y: ItemView| y == x);
    if p >= 0 {
        s.remove(p)
    } else {
        s
    }
}

/// `normal` with the first equal item of each claim in turn taken out.
pub open spec fn without_claims(normal: Seq<ItemView>, claims: Seq<ItemView>) -> Seq<ItemView>
    decreases claims.len(),
{
    if claims.len() == 0 {
        normal
    } else {
        without_first(without_claims(normal, claims.drop_last()), claims.last())
    }
}

fn remove_first(v: &mut Vec<QueueItem>, x: &QueueItem)
    ensures
        items_view(final(v)@) == without_first(items_view(old(v)@), x@),
{
    let ghost s = items_view(v@);
    assert(s == items_view(old(v)@));
    let ghost f = |y: ItemView| y == x@;
    let mut i: usize = 0;
    while i < v.len()
        invariant
            i <= v.len(),
            s == items_view(v@),
            f == (|y: ItemView| y == x@),
            forall|j: int| 0 <= j < i ==> !f(#[trigger] s[j]),
        s == items_view(old(v)@),
        decreases v.len() - i,
    {
        if v[i].same_as(x) {
            proof {
                lemma_first_pos_is(s, f, i as int);
            }
            v.remove(i);
            proof {
                assert(items_view(v@) =~= s.remove(i as int));
                assert(first_pos(s, f) == i);
                assert(without_first(s, x@) == s.remove(i as int));
            }
            return;
        }
        proof {
            assert(!f(s[i as int]));
        }
        i = i + 1;
    }
    proof {
        lemma_first_pos_is(s, f, -1);
    }
}

/// Keep the future the engine can no longer cancel, once: each claimed item
/// leaves its place in `normal`, and the claims go first, in order. Equal
/// paths with different origins stay distinct items.
pub fn preserve_claims(normal: &mut Vec<QueueItem>, claims: &[QueueItem])
    ensures
        items_view(final(normal)@) == items_view(claims@) + without_claims(items_view(old(normal)@), items_view(claims@)),
{
    let mut i: usize = 0;
    while i < claims.len()
        invariant
            i <= claims.len(),
            items_view(normal@) == without_claims(items_view(old(normal)@), items_view(claims@.take(i as int))),
        decreases claims.len() - i,
    {
        proof {
            let t = items_view(claims@.take(i as int + 1));
            assert(t.drop_last() =~= items_view(claims@.take(i as int)));
            assert(t.last() == claims@[i as int]@);
        }
        remove_first(normal, &claims[i]);
        i = i + 1;
    }
    assert(claims@.take(claims.len() as int) =~= claims@);
    let mut out: Vec<QueueItem> = Vec::new();
    let mut k: usize = 0;
    while k < claims.len()
        invariant
            k <= claims.len(),
            items_view(out@) == items_view(claims@.take(k as int)),
        decreases claims.len() - k,
    {
        let ghost before = out@;
        out.push(claims[k].duplicate());
        k = k + 1;
        assert(items_view(out@) =~= items_view(before).push(claims@[k as int - 1]@));
        assert(claims@.take(k as int) =~= claims@.take(k as int - 1).push(claims@[k as int - 1]));
        assert(items_view(out@) =~= items_view(claims@.take(k as int)));
    }
    let ghost rest = items_view(normal@);
    let mut j: usize = 0;
    while j < normal.len()
        invariant
            j <= normal.len(),
            rest == items_view(normal@),
            items_view(out@) == items_view(claims@) + rest.take(j as int),
        decreases normal.len() - j,
    {
        let ghost before = out@;
        out.push(normal[j].duplicate());
        j = j + 1;
        assert(items_view(out@) =~= items_view(before).push(normal@[j as int - 1]@));
        assert(rest.take(j as int) =~= rest.take(j as int - 1).push(rest[j as int - 1]));
        assert(items_view(out@) =~= items_view(claims@) + rest.take(j as int));
    }
    assert(rest.take(rest.len() as int) =~= rest);
    *normal = out;
}

/// One track of an append to the normal queue: a gated track is rejected;
/// outside single mode a path already queued or playing is skipped; any
/// other goes in as a manual item before the first automatic one.
pub open spec fn append_step(
    st: (Seq<ItemView>, nat, nat, nat),
    t: (Seq<char>, bool),
    single: bool,
    current: Option<Seq<char>>,
) -> (Seq<ItemView>, nat, nat, nat) {
    let n = st.0;
    if t.1 {
        (n, st.1, st.2 + 1, st.3)
    } else if !single && (item_paths(n).contains(t.0) || current == Some(t.0)) {
        (n, st.1, st.2, st.3 + 1)
    } else {
        (n.insert(manual_prefix_len(n) as int, manual_view(t.0)), st.1 + 1, st.2, st.3)
    }
}

/// The normal queue and the added, rejected and skipped counts after
/// appending `ts` in order.
pub open spec fn append_all(
    n: Seq<ItemView>,
    ts: Seq<(Seq<char>, bool)>,
    single: bool,
    current: Option<Seq<char>>,
) -> (Seq<ItemView>, nat, nat, nat)
    decreases ts.len(),
{
    if ts.len() == 0 {
        (n, 0, 0, 0)
    } else {
        append_step(append_all(n, ts.drop_last(), single, current), ts.last(), single, current)
    }
}

pub open spec fn track_views(ts: Seq<(String, bool)>) -> Seq<(Seq<char>, bool)> {
    ts.map_values(|t: (String, bool)| (t.0@, t.1))
}

fn has_path(normal: &Vec<QueueItem>, p: &String) -> (r: bool)
    ensures
        r == item_paths(items_view(normal@)).contains(p@),
{
    let mut i: usize = 0;
    while i < normal.len()
        invariant
            i <= normal.len(),
            forall|j: int| 0 <= j < i ==> #[trigger] normal@[j].path@ != p@,
        decreases normal.len() - i,
    {
        if normal[i].path.as_str().to_owned() == p.as_str().to_owned() {
            proof {
                assert(item_paths(items_view(normal@))[i as int] == p@);
            }
            return true;
        }
        i = i + 1;
    }
    proof {
        if item_paths(items_view(normal@)).contains(p@) {
            let k = choose|k: int| 0 <= k < item_paths(items_view(normal@)).len() && item_paths(items_view(normal@))[k] == p@;
            assert(normal@[k].path@ == p@);
        }
    }
    false
}

/// Append tracks to the normal queue while no playlist is the source. Each
/// track comes with whether the Funkot gate refuses it; `single` is the
/// single-track mode, which adds a track even when it is already queued;
/// `current` is the path playing now. Returns the added, rejected and
/// skipped counts.
pub fn append_to_normal(normal: &mut Vec<QueueItem>, tracks: &[(String, bool)], single: bool, current: Option<&String>) -> (r: (
    usize,
    usize,
    usize,
))
    ensures
        ({
            let cur = match current {
                Some(c) => Some(c@),
                None => None,
            };
            let out = append_all(items_view(old(normal)@), track_views(tracks@), single, cur);
            &&& items_view(final(normal)@) == out.0
            &&& r.0 == out.1 && r.1 == out.2 && r.2 == out.3
        }),
{
    let ghost cur = match current {
        Some(c) => Some(c@),
        None => None::<Seq<char>>,
    };
    let ghost n0 = items_view(normal@);
    let mut added: usize = 0;
    let mut rejected: usize = 0;
    let mut skipped: usize = 0;
    let mut i: usize = 0;
    assert(track_views(tracks@).take(0) =~= seq![]);
    while i < tracks.len()
        invariant
            i <= tracks.len(),
            n0 == items_view(old(normal)@),
            cur == match current {
                Some(c) => Some(c@),
                None => None::<Seq<char>>,
            },
            ({
                let out = append_all(n0, track_views(tracks@).take(i as int), single, cur);
                &&& items_view(normal@) == out.0
                &&& added == out.1 && rejected == out.2 && skipped == out.3
            }),
            added + rejected + skipped == i,
        decreases tracks.len() - i,
    {
        let ghost prev = items_view(normal@);
        proof {
            let t = track_views(tracks@).take(i as int + 1);
            assert(t.drop_last() =~= track_views(tracks@).take(i as int));
            assert(t.last() == (tracks@[i as int].0@, tracks@[i as int].1));
        }
        let (path, gated) = (&tracks[i].0, tracks[i].1);
        if gated {
            rejected = rejected + 1;
        } else {
            let playing = match current {
                Some(c) => c.as_str().to_owned() == path.as_str().to_owned(),
                None => false,
            };
            if !single && (has_path(normal, path) || playing) {
                skipped = skipped + 1;
            } else {
                let at = first_automatic(normal);
                proof {
                    lemma_manual_prefix_len(prev);
                }
                normal.insert(at, QueueItem::manual(path.clone()));
                proof {
                    assert(items_view(normal@) =~= prev.insert(at as int, manual_view(path@)));
                }
                added = added + 1;
            }
        }
        i = i + 1;
    }
    assert(track_views(tracks@).take(tracks.len() as int) =~= track_views(tracks@));
    (added, rejected, skipped)
}

/// Move an item of the normal queue: only while no playlist is the source
/// and the item is still the one the user saw, and only within its own
/// priority class.
pub fn queue_move(normal: &mut Vec<QueueItem>, playlist_active: bool, from: usize, to: usize, expect: &QueueItem) -> (r: Result<(), CommandError>)
    ensures
        playlist_active || from >= old(normal).len() || old(normal)@[from as int]@ != expect@ ==> (r matches Err(e)
            && e.code@ == "stale"@ && final(normal)@ == old(normal)@),
        !(playlist_active || from >= old(normal).len() || old(normal)@[from as int]@ != expect@) ==> {
            if to >= old(normal).len() || old(normal)@[to as int].origin != expect.origin {
                r matches Err(e) && e.code@ == "invalid_input"@ && final(normal)@ == old(normal)@
            } else {
                r is Ok && final(normal)@ == moved(old(normal)@, from as int, to as int)
            }
        },
{
    if playlist_active || from >= normal.len() || !normal[from].same_as(expect) {
        return Err(error("stale"));
    }
    if to >= normal.len() || normal[to].origin != expect.origin {
        return Err(error("invalid_input"));
    }
    let ghost before = normal@;
    let item = normal.remove(from);
    normal.insert(to, item);
    assert(normal@ =~= moved(before, from as int, to as int));
    Ok(())
}

/// Drop an item of the normal queue, under the same staleness rule.
pub fn queue_remove(normal: &mut Vec<QueueItem>, playlist_active: bool, index: usize, expect: &QueueItem) -> (r: Result<(), CommandError>)
    ensures
        playlist_active || index >= old(normal).len() || old(normal)@[index as int]@ != expect@ ==> (r matches Err(e)
            && e.code@ == "stale"@ && final(normal)@ == old(normal)@),
        !(playlist_active || index >= old(normal).len() || old(normal)@[index as int]@ != expect@) ==> (r is Ok
            && final(normal)@ == old(normal)@.remove(index as int)),
{
    if playlist_active || index >= normal.len() || !normal[index].same_as(expect) {
        return Err(error("stale"));
    }
    normal.remove(index);
    Ok(())
}

} // verus!

verus! {

/// What the service knows of one engine index it handed out: the
/// occurrence it was claimed for (none for the normal queue), the path, and
/// whether it is still wanted.
#[derive(Debug, PartialEq, Eq)]
pub struct ClaimState {
    pub index: usize,
    pub source: Option<String>,
    pub run: u64,
    pub entry: Option<String>,
    pub path: String,
    pub live: bool,
    pub cancelled: bool,
}

/// An uncancelled claim with engine index `index` (and, if `need_live`,
/// still live).
pub open spec fn engine_claim(index: usize, need_live: bool) -> spec_fn(ClaimState) -> bool {
    |c: ClaimState| c.index == index && !c.cancelled && (c.live || !need_live)
}

/// A claim with engine index `index`.
pub open spec fn with_index(index: usize) -> spec_fn(ClaimState) -> bool {
    |c: ClaimState| c.index == index
}

/// `s` with the claim at `q` marked live or not.
pub open spec fn set_live(s: Seq<ClaimState>, q: int, live: bool) -> Seq<ClaimState> {
    s.update(q, ClaimState { live, ..s[q] })
}

fn find_by(claims: &Vec<ClaimState>, index: usize, need_live: bool, any: bool) -> (r: Option<usize>)
    ensures
        ({
            let f = if any {
                with_index(index)
            } else {
                engine_claim(index, need_live)
            };
            match r {
                Some(q) => q < claims.len() && first_pos(claims@, f) == q,
                None => first_pos(claims@, f) == -1,
            }
        }),
{
    let ghost f = if any {
        with_index(index)
    } else {
        engine_claim(index, need_live)
    };
    let mut i: usize = 0;
    while i < claims.len()
        invariant
            i <= claims.len(),
            f == (if any {
                with_index(index)
            } else {
                engine_claim(index, need_live)
            }),
            forall|j: int| 0 <= j < i ==> !f(#[trigger] claims@[j]),
        decreases claims.len() - i,
    {
        let c = &claims[i];
        let hit = c.index == index && (any || (!c.cancelled && (c.live || !need_live)));
        if hit {
            proof {
                lemma_first_pos_is(claims@, f, i as int);
            }
            return Some(i);
        }
        i = i + 1;
    }
    proof {
        lemma_first_pos_is(claims@, f, -1);
    }
    None
}

fn mark_live(claims: &mut Vec<ClaimState>, q: usize, live: bool)
    requires
        q < old(claims).len(),
    ensures
        final(claims)@ == set_live(old(claims)@, q as int, live),
{
    let ghost before = claims@;
    let mut c = claims.remove(q);
    c.live = live;
    claims.insert(q, c);
    assert(claims@ =~= set_live(before, q as int, live));
}

/// The engine started the track at `index`: unless it is already current or
/// no uncancelled claim has that index, the claim that was current stops
/// being live, and the started claim becomes current and live. Returns the
/// started claim's position.
pub fn claim_started(claims: &mut Vec<ClaimState>, current: &mut Option<usize>, index: usize) -> (r: Option<usize>)
    ensures
        ({
            let p = first_pos(old(claims)@, engine_claim(index, false));
            if *old(current) == Some(index) || p == -1 {
                r is None && final(claims)@ == old(claims)@ && *final(current) == *old(current)
            } else {
                let c1 = match *old(current) {
                    Some(i) => {
                        let q = first_pos(old(claims)@, with_index(i));
                        if q >= 0 {
                            set_live(old(claims)@, q, false)
                        } else {
                            old(claims)@
                        }
                    },
                    None => old(claims)@,
                };
                r == Some(p as usize) && *final(current) == Some(index) && final(claims)@ == set_live(c1, p, true)
            }
        }),
{
    if *current == Some(index) {
        return None;
    }
    let p = match find_by(claims, index, false, false) {
        Some(p) => p,
        None => return None,
    };
    match *current {
        Some(i) => match find_by(claims, i, false, true) {
            Some(q) => mark_live(claims, q, false),
            None => {},
        },
        None => {},
    }
    *current = Some(index);
    mark_live(claims, p, true);
    Some(p)
}

/// The engine could not play the track at `index`: its uncancelled live
/// claim, if any, stops being live. Returns that claim's position.
pub fn claim_failed(claims: &mut Vec<ClaimState>, index: usize) -> (r: Option<usize>)
    ensures
        ({
            let p = first_pos(old(claims)@, engine_claim(index, true));
            if p == -1 {
                r is None && final(claims)@ == old(claims)@
            } else {
                r == Some(p as usize) && final(claims)@ == set_live(old(claims)@, p, false)
            }
        }),
{
    match find_by(claims, index, true, false) {
        Some(p) => {
            mark_live(claims, p, false);
            Some(p)
        },
        None => None,
    }
}

/// `c` is a live claim on occurrence `entry` of run `run` of playlist `id`.
pub open spec fn claim_holds(c: ClaimState, id: Seq<char>, run: u64, entry: Seq<char>) -> bool {
    c.live && !c.cancelled && opt_view(c.source) == Some(id) && c.run == run && opt_view(c.entry) == Some(entry)
}

/// Position of the live claim on the occurrence, or -1.
pub open spec fn claim_of(claims: Seq<ClaimState>, id: Seq<char>, run: u64, entry: Seq<char>) -> int {
    first_pos(claims, |c: ClaimState| claim_holds(c, id, run, entry))
}

/// Position of the first claim still to play, or -1.
pub open spec fn first_future(claims: Seq<ClaimState>, current: Option<usize>) -> int {
    first_pos(claims, |c: ClaimState| c.live && !c.cancelled && Some(c.index) != current)
}

/// What the last availability check found for an occurrence, if anything.
pub open spec fn availability_of(av: Seq<(String, (String, String))>, entry: Seq<char>) -> Option<(Seq<char>, Seq<char>)> {
    let p = first_pos(av, |a: (String, (String, String))| a.0@ == entry);
    if p >= 0 {
        Some((av[p].1.0@, av[p].1.1@))
    } else {
        None
    }
}

/// `v` is the row of occurrence `e` of playlist `id` with run `run`.
pub open spec fn row_of(
    v: EntryView,
    e: Entry,
    id: Seq<char>,
    run: Run,
    claims: Seq<ClaimState>,
    current: Option<usize>,
    next_prepared: bool,
    av: Seq<(String, (String, String))>,
) -> bool {
    let c = claim_of(claims, id, run.run_id, e.entry_id@);
    let f = first_future(claims, current);
    let fp = fail_pos(run.failures@, e.entry_id@);
    let failure = if fp >= 0 {
        Some(run.failures@[fp].1@)
    } else {
        None
    };
    let shown = row_status(
        failure,
        availability_of(av, e.entry_id@),
        c >= 0 && Some(claims[c].index) == current,
        lists_id(run.consumed@, e.entry_id@),
        c >= 0,
        c >= 0 && f >= 0 && claims[f].index == claims[c].index && next_prepared,
    );
    &&& v.entry_id@ == e.entry_id@
    &&& v.path@ == if c >= 0 {
        claims[c].path@
    } else {
        e.track.preferred_path@
    }
    &&& v.title@ == e.track.title@
    &&& v.artist@ == e.track.artist@
    &&& v.status@ == shown.0
    &&& opt_text(match &v.reason {
        Some(x) => Some(x),
        None => None,
    }) == shown.1
}

fn find_claim(claims: &[ClaimState], id: &str, run: u64, entry: &str) -> (r: Option<usize>)
    ensures
        match r {
            Some(i) => i < claims.len() && claim_of(claims@, id@, run, entry@) == i,
            None => claim_of(claims@, id@, run, entry@) == -1,
        },
{
    let ghost f = |c: ClaimState| claim_holds(c, id@, run, entry@);
    let mut i: usize = 0;
    while i < claims.len()
        invariant
            i <= claims.len(),
            f == (|c: ClaimState| claim_holds(c, id@, run, entry@)),
            forall|j: int| 0 <= j < i ==> !f(#[trigger] claims@[j]),
        decreases claims.len() - i,
    {
        let c = &claims[i];
        let source_ok = match &c.source {
            Some(s) => s.as_str().to_owned() == id.to_owned(),
            None => false,
        };
        let entry_ok = match &c.entry {
            Some(e) => e.as_str().to_owned() == entry.to_owned(),
            None => false,
        };
        if c.live && !c.cancelled && source_ok && c.run == run && entry_ok {
            proof {
                lemma_first_pos_is(claims@, f, i as int);
            }
            return Some(i);
        }
        i = i + 1;
    }
    proof {
        lemma_first_pos_is(claims@, f, -1);
    }
    None
}

fn find_future(claims: &[ClaimState], current: Option<usize>) -> (r: Option<usize>)
    ensures
        match r {
            Some(i) => i < claims.len() && first_future(claims@, current) == i,
            None => first_future(claims@, current) == -1,
        },
{
    let ghost f = |c: ClaimState| c.live && !c.cancelled && Some(c.index) != current;
    let mut i: usize = 0;
    while i < claims.len()
        invariant
            i <= claims.len(),
            f == (|c: ClaimState| c.live && !c.cancelled && Some(c.index) != current),
            forall|j: int| 0 <= j < i ==> !f(#[trigger] claims@[j]),
        decreases claims.len() - i,
    {
        let c = &claims[i];
        let is_current = match current {
            Some(x) => x == c.index,
            None => false,
        };
        if c.live && !c.cancelled && !is_current {
            proof {
                lemma_first_pos_is(claims@, f, i as int);
            }
            return Some(i);
        }
        i = i + 1;
    }
    proof {
        lemma_first_pos_is(claims@, f, -1);
    }
    None
}

fn find_availability(av: &[(String, (String, String))], entry: &str) -> (r: Option<usize>)
    ensures
        match r {
            Some(i) => i < av.len() && first_pos(av@, |a: (String, (String, String))| a.0@ == entry@) == i,
            None => first_pos(av@, |a: (String, (String, String))| a.0@ == entry@) == -1,
        },
{
    let ghost f = |a: (String, (String, String))| a.0@ == entry@;
    let mut i: usize = 0;
    while i < av.len()
        invariant
            i <= av.len(),
            f == (|a: (String, (String, String))| a.0@ == entry@),
            forall|j: int| 0 <= j < i ==> !f(#[trigger] av@[j]),
        decreases av.len() - i,
    {
        if av[i].0.as_str().to_owned() == entry.to_owned() {
            proof {
                lemma_first_pos_is(av@, f, i as int);
            }
            return Some(i);
        }
        i = i + 1;
    }
    proof {
        lemma_first_pos_is(av@, f, -1);
    }
    None
}

/// The row of one occurrence.
pub fn entry_row(
    e: &Entry,
    id: &str,
    run: &Run,
    claims: &[ClaimState],
    current: Option<usize>,
    next_prepared: bool,
    availability: &[(String, (String, String))],
) -> (r: EntryView)
    ensures
        row_of(r, *e, id@, *run, claims@, current, next_prepared, availability@),
{
    let c = find_claim(claims, id, run.run_id, e.entry_id.as_str());
    let f = find_future(claims, current);
    let failure = match find_failure(&run.failures, e.entry_id.as_str()) {
        Some(p) => Some(&run.failures[p].1),
        None => None,
    };
    let avail = match find_availability(availability, e.entry_id.as_str()) {
        Some(p) => Some(&availability[p].1),
        None => None,
    };
    let is_current = match c {
        Some(i) => match current {
            Some(x) => x == claims[i].index,
            None => false,
        },
        None => false,
    };
    let prepared = match c {
        Some(i) => match f {
            Some(j) => claims[j].index == claims[i].index && next_prepared,
            None => false,
        },
        None => false,
    };
    let consumed = contains_id(&run.consumed, e.entry_id.as_str());
    let (status, reason) = entry_status(failure, avail, is_current, consumed, c.is_some(), prepared);
    let path = match c {
        Some(i) => claims[i].path.clone(),
        None => e.track.preferred_path.clone(),
    };
    EntryView {
        entry_id: e.entry_id.clone(),
        path,
        title: e.track.title.clone(),
        artist: e.track.artist.clone(),
        status,
        reason,
    }
}

/// The details of playlist `id`: every occurrence (`all`) or the remaining
/// ones, each with its status; `ended` says whether it is the active list
/// and has run out.
pub fn details(
    catalog: &Catalog,
    id: &str,
    all: bool,
    claims: &[ClaimState],
    current: Option<usize>,
    next_prepared: bool,
    availability: &[(String, (String, String))],
    ended: bool,
) -> (r: Result<Details, CommandError>)
    ensures
        ({
            let dp = def_pos(catalog.definitions@, id@);
            let rp = run_pos(catalog.runs@, id@);
            if dp == -1 || rp == -1 {
                r matches Err(e) && e.code@ == "not_found"@
            } else {
                let d = catalog.definitions@[dp];
                let run = catalog.runs@[rp].1;
                let shown = if all {
                    d.entries@
                } else {
                    unconsumed(d.entries@, run.consumed@)
                };
                &&& r matches Ok(x)
                &&& x.id@ == d.id@ && x.name@ == d.name@ && x.revision == d.revision
                &&& x.run_id == run.run_id && x.total == d.entries.len() && x.ended == ended
                &&& x.skipped == run.failures.len()
                &&& x.rows.len() == shown.len()
                &&& forall|k: int| 0 <= k < shown.len() ==> #[trigger] row_of(x.rows@[k], shown[k], id@, run, claims@, current, next_prepared, availability@)
            }
        }),
{
    let d = match catalog.definition(id) {
        Ok(d) => d,
        Err(e) => return Err(CommandError::from_playlist(e)),
    };
    let run = match catalog.run(id) {
        Ok(r) => r,
        Err(e) => return Err(CommandError::from_playlist(e)),
    };
    let entries = if all {
        copy_entries(&d.entries)
    } else {
        match catalog.remaining(id) {
            Ok(es) => es,
            Err(e) => return Err(CommandError::from_playlist(e)),
        }
    };
    let mut rows: Vec<EntryView> = Vec::new();
    let mut k: usize = 0;
    while k < entries.len()
        invariant
            k <= entries.len(),
            rows.len() == k,
            forall|j: int| 0 <= j < k ==> #[trigger] row_of(rows@[j], entries@[j], id@, *run, claims@, current, next_prepared, availability@),
        decreases entries.len() - k,
    {
        rows.push(entry_row(&entries[k], id, run, claims, current, next_prepared, availability));
        k = k + 1;
    }
    Ok(Details {
        id: d.id.clone(),
        name: d.name.clone(),
        revision: d.revision,
        run_id: run.run_id,
        total: d.entries.len(),
        ended,
        skipped: run.failures.len(),
        rows,
    })
}

fn copy_entries(es: &Vec<Entry>) -> (r: Vec<Entry>)
    ensures
        r@ == es@,
{
    let mut out: Vec<Entry> = Vec::new();
    let mut i: usize = 0;
    while i < es.len()
        invariant
            i <= es.len(),
            out@ == es@.take(i as int),
        decreases es.len() - i,
    {
        out.push(es[i].duplicate());
        i = i + 1;
        assert(out@ =~= es@.take(i as int));
    }
    assert(es@.take(es.len() as int) =~= es@);
    out
}

} // verus!

verus! {

/// The claim the engine is playing now, as far as saving it goes.
#[derive(Debug, PartialEq, Eq)]
pub struct PlayingClaim {
    pub source: Option<String>,
    pub run: u64,
    pub entry: Option<String>,
    pub track: TrackRef,
    pub origin: QueueOrigin,
}

/// The occurrence a claim names still exists in `c`: a playlist occurrence
/// of the current run that is still listed, or a normal-queue track.
pub open spec fn occurrence_valid(c: Catalog, source: Option<String>, run: u64, entry: Option<String>) -> bool {
    match source {
        Some(id) => match entry {
            Some(e) => {
                let rp = run_pos(c.runs@, id@);
                let dp = def_pos(c.definitions@, id@);
                rp >= 0 && c.runs@[rp].1.run_id == run && dp >= 0 && entry_pos(c.definitions@[dp].entries@, e@) >= 0
            },
            None => false,
        },
        None => entry is None,
    }
}

/// The saved form of the playing claim.
pub open spec fn occurrence_of(p: PlayingClaim) -> CurrentOccurrence {
    CurrentOccurrence {
        playlist_id: p.source,
        run_id: p.run,
        entry_id: p.entry,
        track_ref: p.track,
        origin: if p.source is Some {
            PlaybackOrigin::Playlist
        } else {
            PlaybackOrigin::Normal
        },
        queue_origin: if p.source is Some {
            None
        } else {
            Some(p.origin)
        },
    }
}

/// A restored occurrence may be kept: a normal one always, a playlist one
/// while its run and membership hold.
pub open spec fn restorable(c: Catalog, r: CurrentOccurrence) -> bool {
    r.origin == PlaybackOrigin::Normal || match r.playlist_id {
        Some(id) => {
            let rp = run_pos(c.runs@, id@);
            let dp = def_pos(c.definitions@, id@);
            rp >= 0 && c.runs@[rp].1.run_id == r.run_id && dp >= 0 && has_entry(c.definitions@[dp].entries@, r.entry_id)
        },
        None => false,
    }
}

fn claim_still_valid(c: &Catalog, source: &Option<String>, run: u64, entry: &Option<String>) -> (r: bool)
    ensures
        r == occurrence_valid(*c, *source, run, *entry),
{
    match source {
        Some(id) => match entry {
            Some(e) => {
                let run_ok = match c.run(id.as_str()) {
                    Ok(r) => r.run_id == run,
                    Err(_) => false,
                };
                let listed = match c.definition(id.as_str()) {
                    Ok(d) => find_entry(&d.entries, e.as_str()).is_some(),
                    Err(_) => false,
                };
                run_ok && listed
            },
            None => false,
        },
        None => entry.is_none(),
    }
}

fn copy_opt(o: &Option<String>) -> (r: Option<String>)
    ensures
        r == *o,
{
    match o {
        Some(s) => Some(s.clone()),
        None => None,
    }
}

/// Save what is audible into `catalog` before it is persisted: the playing
/// claim when the catalog records no current occurrence and the claim's
/// occurrence still exists; else, while nothing plays, an occurrence restored
/// from the last session that still holds.
pub fn capture_current(catalog: &mut Catalog, playing: Option<&PlayingClaim>, has_current_index: bool, restored: Option<&CurrentOccurrence>)
    ensures
        ({
            let c1 = match playing {
                Some(p) => if old(catalog).current is None && occurrence_valid(*old(catalog), p.source, p.run, p.entry) {
                    Some(occurrence_of(*p))
                } else {
                    old(catalog).current
                },
                None => old(catalog).current,
            };
            final(catalog).current == match restored {
                Some(r) => if !has_current_index && c1 is None && restorable(*old(catalog), *r) {
                    Some(*r)
                } else {
                    c1
                },
                None => c1,
            }
        }),
        *final(catalog) == (Catalog { current: final(catalog).current, ..*old(catalog) }),
{
    if catalog.current.is_none() {
        match playing {
            Some(p) => {
                if claim_still_valid(catalog, &p.source, p.run, &p.entry) {
                    let is_playlist = p.source.is_some();
                    catalog.current = Some(CurrentOccurrence {
                        playlist_id: copy_opt(&p.source),
                        run_id: p.run,
                        entry_id: copy_opt(&p.entry),
                        track_ref: p.track.duplicate(),
                        origin: if is_playlist {
                            PlaybackOrigin::Playlist
                        } else {
                            PlaybackOrigin::Normal
                        },
                        queue_origin: if is_playlist {
                            None
                        } else {
                            Some(p.origin)
                        },
                    });
                }
            },
            None => {},
        }
    }
    if !has_current_index && catalog.current.is_none() {
        match restored {
            Some(r) => {
                let keep = r.origin == PlaybackOrigin::Normal || match &r.playlist_id {
                    Some(id) => {
                        let run_ok = match catalog.run(id.as_str()) {
                            Ok(run) => run.run_id == r.run_id,
                            Err(_) => false,
                        };
                        let listed = match catalog.definition(id.as_str()) {
                            Ok(d) => match &r.entry_id {
                                Some(e) => find_entry(&d.entries, e.as_str()).is_some(),
                                None => false,
                            },
                            Err(_) => false,
                        };
                        run_ok && listed
                    },
                    None => false,
                };
                if keep {
                    catalog.current = Some(copy_current(r));
                }
            },
            None => {},
        }
    }
}

} // verus!

verus! {

/// The next occurrence the active playlist hands to the engine: the first
/// remaining one that no live claim of the current run already holds.
/// `None` when the playlist has no definition or run, or nothing is left.
#[verifier::loop_isolation(false)]
pub fn first_unclaimed(catalog: &Catalog, id: &str, claims: &[ClaimState]) -> (r: Option<(u64, Entry)>)
    ensures
        ({
            let dp = def_pos(catalog.definitions@, id@);
            let rp = run_pos(catalog.runs@, id@);
            if dp == -1 || rp == -1 {
                r is None
            } else {
                let run = catalog.runs@[rp].1;
                let u = unconsumed(catalog.definitions@[dp].entries@, run.consumed@);
                match r {
                    Some((run_id, e)) => run_id == run.run_id && exists|k: int|
                        0 <= k < u.len() && #[trigger] u[k] == e && claim_of(claims@, id@, run.run_id, e.entry_id@) == -1 && forall|j: int|
                            0 <= j < k ==> claim_of(claims@, id@, run.run_id, #[trigger] u[j].entry_id@) >= 0,
                    None => forall|k: int| 0 <= k < u.len() ==> claim_of(claims@, id@, run.run_id, #[trigger] u[k].entry_id@) >= 0,
                }
            }
        }),
{
    let run_id = match catalog.run(id) {
        Ok(run) => run.run_id,
        Err(_) => return None,
    };
    let remaining = match catalog.remaining(id) {
        Ok(es) => es,
        Err(_) => return None,
    };
    let mut k: usize = 0;
    while k < remaining.len()
        invariant
            k <= remaining.len(),
            forall|j: int| 0 <= j < k ==> claim_of(claims@, id@, run_id, #[trigger] remaining@[j].entry_id@) >= 0,
        decreases remaining.len() - k,
    {
        if find_claim(claims, id, run_id, remaining[k].entry_id.as_str()).is_none() {
            let e = remaining[k].duplicate();
            proof {
                let ki = k as int;
                assert(remaining@[ki] == e);
            }
            return Some((run_id, e));
        }
        k = k + 1;
    }
    None
}

} // verus!
