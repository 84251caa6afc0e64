//! Durable playlist definitions and their non-destructive playback progress.
//!
//! Callers prepare a copy of a [`Catalog`], persist it, then publish that copy
//! only after persisting succeeds; every edit here is a pure step on the value.
use vstd::prelude::*;

use crate::progress::{
    observe, observe_spec, Claim, ClaimView, Occurrence, OccurrenceView, Observation, ObservationView, Progress,
};
use crate::queue::{QueueItem, QueueOrigin};
use crate::text::{
    any_control, chars_of, decimal, decimal_chars, has_control, lowercase_chars, lowercased, nfc, nfc_of,
    push_all, string_of, trim_chars, trimmed,
};

verus! {

/// The catalog format this library reads and writes.
pub const SCHEMA_VERSION: u32 = 1;

/// A track as a playlist remembers it.
#[derive(Debug, PartialEq, Eq)]
pub struct TrackRef {
    pub content_hash: String,
    pub preferred_path: String,
    pub title: String,
    pub artist: String,
}

/// One occurrence of a track in a playlist.
#[derive(Debug, PartialEq, Eq)]
pub struct Entry {
    pub entry_id: String,
    pub track: TrackRef,
}

#[derive(Debug, PartialEq, Eq)]
pub struct PlaylistDefinition {
    pub id: String,
    pub name: String,
    pub revision: u64,
    pub entries: Vec<Entry>,
}

/// Progress of one pass through a playlist: the occurrences already consumed
/// and, for those that failed, the first reason given.
#[derive(Debug, PartialEq, Eq)]
pub struct Run {
    pub run_id: u64,
    pub consumed: Vec<String>,
    pub failures: Vec<(String, String)>,
}

#[derive(Clone, Copy, Debug, PartialEq, Eq, Structural)]
pub enum PlaybackOrigin {
    Normal,
    Playlist,
}

#[derive(Debug, PartialEq, Eq)]
pub struct CurrentOccurrence {
    pub playlist_id: Option<String>,
    pub run_id: u64,
    pub entry_id: Option<String>,
    pub track_ref: TrackRef,
    pub origin: PlaybackOrigin,
    /// Retains manual/automatic priority when a suspended normal current is
    /// requeued after restart. Playlist currents always leave this `None`.
    pub queue_origin: Option<QueueOrigin>,
}

#[derive(Debug, PartialEq, Eq)]
pub struct NormalResume {
    pub items: Vec<QueueItem>,
    /// None until the legacy folder cursor can be resolved at first start.
    pub folder_pos: Option<usize>,
}

/// Every playlist, its run, the active source and the interrupted current.
#[derive(Debug, PartialEq, Eq)]
pub struct Catalog {
    pub schema_version: u32,
    pub revision: u64,
    pub generation: u64,
    pub next_id: u64,
    pub active_id: Option<String>,
    pub definitions: Vec<PlaylistDefinition>,
    /// Keyed by playlist id.
    pub runs: Vec<(String, Run)>,
    pub current: Option<CurrentOccurrence>,
    pub normal: Option<NormalResume>,
}

#[derive(Debug, PartialEq, Eq)]
pub enum LoadState {
    Missing,
    Ready,
    Corrupt,
    UnsupportedSchema,
    IoError,
    Busy,
}

#[derive(Debug, PartialEq, Eq)]
pub enum PlaylistError {
    InvalidInput { message: String },
    NotFound,
    Stale,
    ActiveList,
    DuplicateUndo,
    StoreReadOnly { state: LoadState },
    PersistFailed { message: String },
}

/// What `remove` took out, enough to put exactly that occurrence back.
#[derive(Debug, PartialEq, Eq)]
pub struct RemovedEntry {
    pub entry: Entry,
    pub previous_id: Option<String>,
    pub following_id: Option<String>,
    pub consumed: bool,
    pub failure: Option<String>,
    pub run_id: u64,
}

/// Index of the first element of `s` satisfying `f`, or -1.
pub open spec fn first_pos<T>(s: Seq<T>, f: spec_fn(T) -> bool) -> int
    decreases s.len(),
{
    if s.len() == 0 {
        -1
    } else {
        let p = first_pos(s.drop_last(), f);
        if p >= 0 {
            p
        } else if f(s.last()) {
            s.len() - 1
        } else {
            -1
        }
    }
}

pub proof fn lemma_first_pos<T>(s: Seq<T>, f: spec_fn(T) -> bool)
    ensures
        first_pos(s, f) == -1 ==> forall|j: int| 0 <= j < s.len() ==> !f(#[trigger] s[j]),
        first_pos(s, f) != -1 ==> 0 <= first_pos(s, f) < s.len() && f(s[first_pos(s, f)]) && forall|j: int|
            0 <= j < first_pos(s, f) ==> !f(#[trigger] s[j]),
    decreases s.len(),
{
    if s.len() > 0 {
        lemma_first_pos(s.drop_last(), f);
        assert forall|j: int| 0 <= j < s.len() - 1 implies s[j] == s.drop_last()[j] by {}
    }
}

/// No key is stored twice.
pub open spec fn keys_distinct<V>(s: Seq<(String, V)>) -> bool {
    forall|i: int, j: int| 0 <= i < j < s.len() ==> #[trigger] s[i].0@ != #[trigger] s[j].0@
}

/// Storing under `key`, in place of the entry at `p` that holds it, or
/// appended (`p == -1`) when no entry holds it, keeps the keys distinct.
pub proof fn lemma_keyed_store<V>(prev: Seq<(String, V)>, next: Seq<(String, V)>, key: Seq<char>, p: int)
    requires
        keys_distinct(prev),
        -1 <= p < prev.len(),
        p >= 0 ==> prev[p].0@ == key && next.len() == prev.len() && next[p].0@ == key,
        p == -1 ==> next.len() == prev.len() + 1 && next[prev.len() as int].0@ == key,
        p == -1 ==> forall|j: int| 0 <= j < prev.len() ==> #[trigger] prev[j].0@ != key,
        forall|k: int| 0 <= k < prev.len() && k != p ==> #[trigger] next[k] == prev[k],
    ensures
        keys_distinct(next),
{
    assert forall|i: int, j: int| 0 <= i < j < next.len() implies #[trigger] next[i].0@ != #[trigger] next[j].0@ by {
        if i != p && j != p && j < prev.len() {
            assert(next[i] == prev[i] && next[j] == prev[j]);
        } else if i == p {
            assert(next[j] == prev[j]);
        } else if j == p {
            assert(next[i] == prev[i]);
        } else {
            assert(next[i] == prev[i]);
        }
    }
}

/// The position the first satisfying element holds, given what precedes it.
pub proof fn lemma_first_pos_is<T>(s: Seq<T>, f: spec_fn(T) -> bool, i: int)
    requires
        -1 <= i < s.len(),
        i >= 0 ==> f(s[i]),
        forall|j: int| 0 <= j < (if i >= 0 { i } else { s.len() as int }) ==> !f(#[trigger] s[j]),
    ensures
        first_pos(s, f) == i,
{
    lemma_first_pos(s, f);
    let p = first_pos(s, f);
    if p != i {
        if p == -1 {
            assert(!f(s[i]));
        } else if i == -1 {
            assert(!f(s[p]));
        } else if p < i {
            assert(!f(s[p]));
        } else {
            assert(!f(s[i]));
        }
    }
}

pub open spec fn def_pos(defs: Seq<PlaylistDefinition>, id: Seq<char>) -> int {
    first_pos(defs, |d: PlaylistDefinition| d.id@ == id)
}

pub open spec fn run_pos(runs: Seq<(String, Run)>, id: Seq<char>) -> int {
    first_pos(runs, |r: (String, Run)| r.0@ == id)
}

pub open spec fn entry_pos(entries: Seq<Entry>, entry_id: Seq<char>) -> int {
    first_pos(entries, |e: Entry| e.entry_id@ == entry_id)
}

/// `id` is among `ids`.
pub open spec fn lists_id(ids: Seq<String>, id: Seq<char>) -> bool {
    exists|i: int| 0 <= i < ids.len() && #[trigger] ids[i]@ == id
}

fn same_text(a: &str, b: &str) -> (r: bool)
    ensures
        r == (a@ == b@),
{
    a.to_owned() == b.to_owned()
}

fn find_definition(defs: &Vec<PlaylistDefinition>, id: &str) -> (r: Option<usize>)
    ensures
        match r {
            Some(i) => i < defs.len() && def_pos(defs@, id@) == i,
            None => def_pos(defs@, id@) == -1,
        },
{
    let ghost f = |d: PlaylistDefinition| d.id@ == id@;
    let mut i: usize = 0;
    while i < defs.len()
        invariant
            i <= defs.len(),
            f == (|d: PlaylistDefinition| d.id@ == id@),
            forall|j: int| 0 <= j < i ==> !f(#[trigger] defs@[j]),
        decreases defs.len() - i,
    {
        if same_text(defs[i].id.as_str(), id) {
            proof {
                lemma_first_pos_is(defs@, f, i as int);
            }
            return Some(i);
        }
        i = i + 1;
    }
    proof {
        lemma_first_pos_is(defs@, f, -1);
    }
    None
}

fn find_run(runs: &Vec<(String, Run)>, id: &str) -> (r: Option<usize>)
    ensures
        match r {
            Some(i) => i < runs.len() && run_pos(runs@, id@) == i,
            None => run_pos(runs@, id@) == -1,
        },
{
    let ghost f = |r: (String, Run)| r.0@ == id@;
    let mut i: usize = 0;
    while i < runs.len()
        invariant
            i <= runs.len(),
            f == (|r: (String, Run)| r.0@ == id@),
            forall|j: int| 0 <= j < i ==> !f(#[trigger] runs@[j]),
        decreases runs.len() - i,
    {
        if same_text(runs[i].0.as_str(), id) {
            proof {
                lemma_first_pos_is(runs@, f, i as int);
            }
            return Some(i);
        }
        i = i + 1;
    }
    proof {
        lemma_first_pos_is(runs@, f, -1);
    }
    None
}

pub(crate) fn find_entry(entries: &Vec<Entry>, entry_id: &str) -> (r: Option<usize>)
    ensures
        match r {
            Some(i) => i < entries.len() && entry_pos(entries@, entry_id@) == i,
            None => entry_pos(entries@, entry_id@) == -1,
        },
{
    let ghost f = |e: Entry| e.entry_id@ == entry_id@;
    let mut i: usize = 0;
    while i < entries.len()
        invariant
            i <= entries.len(),
            f == (|e: Entry| e.entry_id@ == entry_id@),
            forall|j: int| 0 <= j < i ==> !f(#[trigger] entries@[j]),
        decreases entries.len() - i,
    {
        if same_text(entries[i].entry_id.as_str(), entry_id) {
            proof {
                lemma_first_pos_is(entries@, f, i as int);
            }
            return Some(i);
        }
        i = i + 1;
    }
    proof {
        lemma_first_pos_is(entries@, f, -1);
    }
    None
}

/// Whether `id` is among `ids`.
pub(crate) fn contains_id(ids: &Vec<String>, id: &str) -> (r: bool)
    ensures
        r == lists_id(ids@, id@),
{
    let mut i: usize = 0;
    while i < ids.len()
        invariant
            i <= ids.len(),
            forall|j: int| 0 <= j < i ==> #[trigger] ids@[j]@ != id@,
        decreases ids.len() - i,
    {
        if same_text(ids[i].as_str(), id) {
            return true;
        }
        i = i + 1;
    }
    false
}

impl TrackRef {
    /// A copy of this reference.
    pub fn duplicate(&self) -> (r: TrackRef)
        ensures
            r == *self,
    {
        TrackRef {
            content_hash: self.content_hash.clone(),
            preferred_path: self.preferred_path.clone(),
            title: self.title.clone(),
            artist: self.artist.clone(),
        }
    }
}

impl Entry {
    /// A copy of this entry.
    pub fn duplicate(&self) -> (r: Entry)
        ensures
            r == *self,
    {
        Entry { entry_id: self.entry_id.clone(), track: self.track.duplicate() }
    }
}

/// The entries of `es` whose ids `consumed` does not list, in order.
pub open spec fn unconsumed(es: Seq<Entry>, consumed: Seq<String>) -> Seq<Entry>
    decreases es.len(),
{
    if es.len() == 0 {
        seq![]
    } else {
        let u = unconsumed(es.drop_last(), consumed);
        if lists_id(consumed, es.last().entry_id@) {
            u
        } else {
            u.push(es.last())
        }
    }
}

pub open spec fn entry_ids(es: Seq<Entry>) -> Seq<Seq<char>> {
    es.map_values(|e: Entry| e.entry_id@)
}

pub open spec fn id_views(ids: Seq<String>) -> Seq<Seq<char>> {
    ids.map_values(|s: String| s@)
}

/// How many unconsumed entries precede position `i`.
pub open spec fn slot_rank(es: Seq<Entry>, consumed: Seq<String>, i: int) -> int {
    unconsumed(es.take(i), consumed).len() as int
}

/// `ordered` names every unconsumed occurrence exactly once.
pub open spec fn exact_order(ordered: Seq<String>, u: Seq<Entry>) -> bool {
    id_views(ordered).no_duplicates() && id_views(ordered).to_set() == entry_ids(u).to_set()
}

/// `new` is `old` with the unconsumed slots, in order, refilled with the
/// unconsumed occurrences named by `ordered`.
pub open spec fn reordered(old: Seq<Entry>, consumed: Seq<String>, ordered: Seq<String>, new: Seq<Entry>) -> bool {
    let u = unconsumed(old, consumed);
    &&& new.len() == old.len()
    &&& forall|i: int| 0 <= i < old.len() && lists_id(consumed, old[i].entry_id@) ==> #[trigger] new[i] == old[i]
    &&& forall|i: int|
        0 <= i < old.len() && !lists_id(consumed, old[i].entry_id@) ==> #[trigger] new[i] == u[entry_pos(
            u,
            ordered[slot_rank(old, consumed, i)]@,
        )]
}

proof fn lemma_unconsumed_step(es: Seq<Entry>, consumed: Seq<String>, i: int)
    requires
        0 <= i < es.len(),
    ensures
        unconsumed(es.take(i + 1), consumed) == if lists_id(consumed, es[i].entry_id@) {
            unconsumed(es.take(i), consumed)
        } else {
            unconsumed(es.take(i), consumed).push(es[i])
        },
{
    assert(es.take(i + 1).drop_last() =~= es.take(i));
}

fn copy_ids(ids: &Vec<String>) -> (r: Vec<String>)
    ensures
        r@ == ids@,
{
    let mut out: Vec<String> = Vec::new();
    let mut i: usize = 0;
    while i < ids.len()
        invariant
            i <= ids.len(),
            out@ == ids@.take(i as int),
        decreases ids.len() - i,
    {
        out.push(ids[i].clone());
        i = i + 1;
        assert(out@ =~= ids@.take(i as int));
    }
    assert(ids@.take(ids.len() as int) =~= ids@);
    out
}

/// Copies of the entries of `es` that `consumed` does not list.
fn unconsumed_entries(es: &Vec<Entry>, consumed: &Vec<String>) -> (r: Vec<Entry>)
    ensures
        r@ == unconsumed(es@, consumed@),
{
    let mut out: Vec<Entry> = Vec::new();
    let mut i: usize = 0;
    assert(es@.take(0) =~= seq![]);
    while i < es.len()
        invariant
            i <= es.len(),
            out@ == unconsumed(es@.take(i as int), consumed@),
        decreases es.len() - i,
    {
        proof {
            lemma_unconsumed_step(es@, consumed@, i as int);
        }
        if !contains_id(consumed, es[i].entry_id.as_str()) {
            out.push(es[i].duplicate());
        }
        i = i + 1;
    }
    assert(es@.take(es.len() as int) =~= es@);
    out
}

/// Whether `ordered` names every entry of `u` exactly once and nothing else.
fn check_exact_order(ordered: &[String], u: &Vec<Entry>) -> (r: bool)
    ensures
        r == exact_order(ordered@, u@),
{
    let ghost ov = id_views(ordered@);
    let ghost uv = entry_ids(u@);
    let mut i: usize = 0;
    while i < ordered.len()
        invariant
            i <= ordered.len(),
            ov == id_views(ordered@),
            uv == entry_ids(u@),
            forall|a: int, b: int| 0 <= a < b < i ==> #[trigger] ov[a] != #[trigger] ov[b],
            forall|a: int| 0 <= a < i ==> #[trigger] uv.contains(ov[a]),
        decreases ordered.len() - i,
    {
        let mut j: usize = 0;
        while j < i
            invariant
                j <= i < ordered.len(),
                ov == id_views(ordered@),
                forall|a: int| 0 <= a < j ==> #[trigger] ov[a] != ov[i as int],
            decreases i - j,
        {
            if ordered[j] == ordered[i] {
                proof {
                    assert(!ov.no_duplicates()) by {
                        assert(ov[j as int] == ov[i as int]);
                    }
                }
                return false;
            }
            j = j + 1;
        }
        match find_entry(u, ordered[i].as_str()) {
            Some(m) => {
                proof {
                    lemma_first_pos(u@, |e: Entry| e.entry_id@ == ordered@[i as int]@);
                    assert(uv[m as int] == ov[i as int]);
                }
            },
            None => {
                proof {
                    lemma_first_pos(u@, |e: Entry| e.entry_id@ == ordered@[i as int]@);
                    assert(ov.to_set().contains(ov[i as int]));
                    if entry_ids(u@).to_set() == ov.to_set() {
                        assert(uv.contains(ov[i as int]));
                        let m = choose|m: int| 0 <= m < uv.len() && uv[m] == ov[i as int];
                        assert(u@[m].entry_id@ == ordered@[i as int]@);
                    }
                }
                return false;
            },
        }
        i = i + 1;
    }
    let ordered_v = to_vec(ordered);
    let mut k: usize = 0;
    while k < u.len()
        invariant
            k <= u.len(),
            ordered_v@ == ordered@,
            ov == id_views(ordered@),
            uv == entry_ids(u@),
            forall|a: int| 0 <= a < k ==> #[trigger] ov.contains(uv[a]),
        decreases u.len() - k,
    {
        if !contains_id(&ordered_v, u[k].entry_id.as_str()) {
            proof {
                if ov.to_set() == uv.to_set() {
                    assert(uv.to_set().contains(uv[k as int]));
                    assert(ov.contains(uv[k as int]));
                    let a = choose|a: int| 0 <= a < ov.len() && ov[a] == uv[k as int];
                    assert(ordered@[a]@ == u@[k as int].entry_id@);
                }
            }
            return false;
        }
        proof {
            let a = choose|a: int| 0 <= a < ordered@.len() && #[trigger] ordered@[a]@ == u@[k as int].entry_id@;
            assert(ov[a] == uv[k as int]);
        }
        k = k + 1;
    }
    proof {
        assert(ov.to_set() =~= uv.to_set());
    }
    true
}

fn to_vec(ids: &[String]) -> (r: Vec<String>)
    ensures
        r@ == ids@,
{
    let mut out: Vec<String> = Vec::new();
    let mut i: usize = 0;
    while i < ids.len()
        invariant
            i <= ids.len(),
            out@ == ids@.take(i as int),
        decreases ids.len() - i,
    {
        out.push(ids[i].clone());
        i = i + 1;
        assert(out@ =~= ids@.take(i as int));
    }
    assert(ids@.take(ids.len() as int) =~= ids@);
    out
}

/// `old` with each unconsumed slot refilled, in order, by the entry of `u`
/// that `ordered` names for it.
fn refill(old: &Vec<Entry>, consumed: &Vec<String>, ordered: &[String], u: &Vec<Entry>) -> (r: Vec<Entry>)
    requires
        u@ == unconsumed(old@, consumed@),
        exact_order(ordered@, u@),
        entry_ids(u@).no_duplicates(),
        ordered@.len() == u@.len(),
    ensures
        reordered(old@, consumed@, ordered@, r@),
{
    let mut out: Vec<Entry> = Vec::new();
    let mut k: usize = 0;
    let mut i: usize = 0;
    assert(old@.take(0) =~= seq![]);
    while i < old.len()
        invariant
            i <= old.len(),
            u@ == unconsumed(old@, consumed@),
            exact_order(ordered@, u@),
            ordered@.len() == u@.len(),
            out.len() == i,
            k == unconsumed(old@.take(i as int), consumed@).len(),
            forall|j: int| 0 <= j < i && lists_id(consumed@, old@[j].entry_id@) ==> #[trigger] out@[j] == old@[j],
            forall|j: int|
                0 <= j < i && !lists_id(consumed@, old@[j].entry_id@) ==> #[trigger] out@[j] == u@[entry_pos(
                    u@,
                    ordered@[slot_rank(old@, consumed@, j)]@,
                )],
        decreases old.len() - i,
    {
        proof {
            lemma_unconsumed_step(old@, consumed@, i as int);
            lemma_unconsumed_prefix_len(old@, consumed@, i as int + 1);
        }
        let ghost old_out = out@;
        if contains_id(consumed, old[i].entry_id.as_str()) {
            out.push(old[i].duplicate());
        } else {
            assert(k < ordered@.len());
            let want = &ordered[k];
            proof {
                assert(id_views(ordered@).to_set().contains(id_views(ordered@)[k as int]));
                assert(entry_ids(u@).contains(ordered@[k as int]@));
            }
            let m = match find_entry(u, want.as_str()) {
                Some(m) => m,
                None => {
                    proof {
                        lemma_first_pos(u@, |e: Entry| e.entry_id@ == want@);
                        let m = choose|m: int| 0 <= m < entry_ids(u@).len() && entry_ids(u@)[m] == want@;
                        assert(u@[m].entry_id@ == want@);
                        assert(false);
                    }
                    return out;
                },
            };
            proof {
                lemma_first_pos(u@, |e: Entry| e.entry_id@ == want@);
            }
            out.push(u[m].duplicate());
            proof {
                assert(slot_rank(old@, consumed@, i as int) == k);
                assert(out@[i as int] == u@[m as int]);
            }
            k = k + 1;
        }
        proof {
            assert forall|j: int| 0 <= j < i implies #[trigger] out@[j] == old_out[j] by {}
            assert forall|j: int|
                0 <= j < i + 1 && !lists_id(consumed@, old@[j].entry_id@) implies #[trigger] out@[j]
                    == u@[entry_pos(u@, ordered@[slot_rank(old@, consumed@, j)]@)] by {
                if j < i {
                    assert(out@[j] == old_out[j]);
                }
            }
        }
        i = i + 1;
    }
    out
}

proof fn lemma_unconsumed_prefix_len(es: Seq<Entry>, consumed: Seq<String>, i: int)
    requires
        0 <= i <= es.len(),
    ensures
        unconsumed(es.take(i), consumed).len() <= unconsumed(es, consumed).len(),
    decreases es.len() - i,
{
    if i < es.len() {
        lemma_unconsumed_step(es, consumed, i);
        lemma_unconsumed_prefix_len(es, consumed, i + 1);
    } else {
        assert(es.take(i) =~= es);
    }
}

/// The occurrence an observation is about: the unavailable occurrence it
/// names, else the occurrence of its claim.
pub open spec fn identity_of(claim: Option<ClaimView>, e: ObservationView) -> Option<OccurrenceView> {
    match e {
        ObservationView::Unavailable { occurrence, .. } => Some(occurrence),
        _ => match claim {
            Some(c) => Some(c.occurrence),
            None => None,
        },
    }
}

/// A usable reason: present and not blank.
pub open spec fn reason_given(reason: Option<&str>) -> bool {
    match reason {
        Some(r) => trimmed(r@).len() > 0,
        None => false,
    }
}

/// `e` with its reason flag taken from the retained reason itself.
pub open spec fn with_reason(e: ObservationView, present: bool) -> ObservationView {
    match e {
        ObservationView::Failed { index, .. } => ObservationView::Failed { index, reason_present: present },
        ObservationView::Unavailable { occurrence, .. } => ObservationView::Unavailable {
            occurrence,
            reason_present: present,
        },
        _ => e,
    }
}

/// The catalog occurrence `ident` names: its playlist must have a run and
/// list the entry; the run is the catalog's, not the event's.
pub open spec fn target_of(c: Catalog, ident: OccurrenceView) -> Option<OccurrenceView> {
    let dp = def_pos(c.definitions@, ident.playlist);
    let rp = run_pos(c.runs@, ident.playlist);
    if dp >= 0 && rp >= 0 && entry_pos(c.definitions@[dp].entries@, ident.entry) >= 0 {
        Some(OccurrenceView { playlist: ident.playlist, run: c.runs@[rp].1.run_id, entry: ident.entry })
    } else {
        None
    }
}

/// The recorded progress of entry `ident.entry` in playlist `ident.playlist`'s run.
pub open spec fn progress_of(c: Catalog, ident: OccurrenceView) -> Progress {
    let rp = run_pos(c.runs@, ident.playlist);
    if rp >= 0 {
        Progress {
            consumed: lists_id(c.runs@[rp].1.consumed@, ident.entry),
            failed: fail_pos(c.runs@[rp].1.failures@, ident.entry) >= 0,
        }
    } else {
        Progress { consumed: false, failed: false }
    }
}

/// The retained reason's text, empty when there is none.
pub open spec fn reason_text(reason: Option<&str>) -> Seq<char> {
    match reason {
        Some(r) => r@,
        None => Seq::empty(),
    }
}

/// The claim as its view.
pub open spec fn claim_view(claim: Option<&Claim>) -> Option<ClaimView> {
    match claim {
        Some(c) => Some(c@),
        None => None,
    }
}

/// `new` is run `old` after recording `after` for entry `e`, whose progress
/// was `before`; a new failure keeps `reason`.
pub open spec fn progress_recorded(old: Run, new: Run, e: Seq<char>, before: Progress, after: Progress, reason: Seq<char>) -> bool {
    &&& new.run_id == old.run_id
    &&& if after.consumed && !lists_id(old.consumed@, e) {
        new.consumed@.len() == old.consumed@.len() + 1 && new.consumed@.drop_last() == old.consumed@
            && new.consumed@.last()@ == e
    } else {
        new.consumed == old.consumed
    }
    &&& if after.failed && !before.failed {
        new.failures@.len() == old.failures@.len() + 1 && new.failures@.drop_last() == old.failures@
            && new.failures@.last().0@ == e && new.failures@.last().1@ == reason
    } else {
        new.failures == old.failures
    }
}

pub open spec fn opt_view(o: Option<String>) -> Option<Seq<char>> {
    match o {
        Some(s) => Some(s@),
        None => None,
    }
}

/// Whether the current occurrence belongs to playlist `id`.
pub open spec fn current_in(current: Option<CurrentOccurrence>, id: Seq<char>) -> bool {
    match current {
        Some(c) => opt_view(c.playlist_id) == Some(id),
        None => false,
    }
}

/// `a` and `b` agree on everything but the bookkeeping counters and the
/// active source.
pub open spec fn same_content(a: Catalog, b: Catalog) -> bool {
    &&& a.schema_version == b.schema_version
    &&& a.next_id == b.next_id
    &&& a.definitions == b.definitions
    &&& a.runs == b.runs
    &&& a.current == b.current
    &&& a.normal == b.normal
}

/// `a` and `b` agree on runs, current, normal resume, schema and id counter.
pub open spec fn same_content_but_definitions(a: Catalog, b: Catalog) -> bool {
    &&& a.schema_version == b.schema_version
    &&& a.next_id == b.next_id
    &&& a.runs == b.runs
    &&& a.current == b.current
    &&& a.normal == b.normal
}

fn same_opt_text(a: &Option<String>, b: &Option<String>) -> (r: bool)
    ensures
        r == (opt_view(*a) == opt_view(*b)),
{
    match a {
        Some(x) => match b {
            Some(y) => same_text(x.as_str(), y.as_str()),
            None => false,
        },
        None => b.is_none(),
    }
}

fn current_is_in(current: &Option<CurrentOccurrence>, id: &str) -> (r: bool)
    ensures
        r == current_in(*current, id@),
{
    match current {
        Some(c) => match &c.playlist_id {
            Some(p) => same_text(p.as_str(), id),
            None => false,
        },
        None => false,
    }
}

/// A name as a playlist stores it: trimmed, then composed (NFC).
pub open spec fn clean_name(name: Seq<char>) -> Seq<char> {
    nfc(trimmed(name))
}

/// The key two names clash on: the lowercased clean name, when it is not
/// blank and has no control character.
pub open spec fn name_key(name: Seq<char>) -> Option<Seq<char>> {
    let n = clean_name(name);
    if n.len() == 0 || has_control(n) {
        None
    } else {
        Some(lowercased(n))
    }
}

/// Some definition other than `except` has a name with key `key`.
pub open spec fn name_taken(defs: Seq<PlaylistDefinition>, key: Seq<char>, except: Option<Seq<char>>) -> bool {
    exists|i: int|
        0 <= i < defs.len() && except != Some(defs[i].id@) && #[trigger] name_key(defs[i].name@) == Some(key)
}

/// The id `allocate` makes from `kind` and counter value `n`.
pub open spec fn alloc_id(kind: Seq<char>, n: nat) -> Seq<char> {
    kind + seq!['-'] + decimal(n)
}

/// The `n`th name a copy of a playlist tries: `base`, then `"{base} {n}"`.
pub open spec fn copy_candidate(base: Seq<char>, n: nat) -> Seq<char> {
    if n == 1 {
        base
    } else {
        base + seq![' '] + decimal(n)
    }
}

/// A new playlist beside `defs` may be named `name`.
pub open spec fn name_free(defs: Seq<PlaylistDefinition>, name: Seq<char>) -> bool {
    match name_key(clean_name(name)) {
        Some(key) => !name_taken(defs, key, None),
        None => false,
    }
}

/// The first free copy name from the `n`th on, up to the largest count
/// tried (`i32::MAX`).
pub open spec fn first_free_copy(defs: Seq<PlaylistDefinition>, base: Seq<char>, n: nat) -> Option<Seq<char>>
    decreases 0x8000_0000 - n,
{
    if n == 0 || n > 0x7fff_ffff {
        None
    } else if name_free(defs, copy_candidate(base, n)) {
        Some(copy_candidate(base, n))
    } else {
        first_free_copy(defs, base, n + 1)
    }
}

fn copy_candidate_of(base: &str, n: u32) -> (r: String)
    ensures
        r@ == copy_candidate(base@, n as nat),
{
    if n == 1 {
        return base.to_owned();
    }
    let mut out: Vec<char> = Vec::new();
    push_all(&mut out, base);
    out.push(' ');
    let d = decimal_chars(n as u64);
    let mut i: usize = 0;
    while i < d.len()
        invariant
            i <= d.len(),
            out@ == base@ + seq![' '] + d@.take(i as int),
        decreases d.len() - i,
    {
        out.push(d[i]);
        i = i + 1;
        assert(out@ =~= base@ + seq![' '] + d@.take(i as int));
    }
    assert(d@.take(d.len() as int) =~= d@);
    string_of(out.as_slice())
}

fn clean_name_of(name: &str) -> (r: String)
    ensures
        r@ == clean_name(name@),
{
    let cs = chars_of(name);
    let t = trim_chars(cs.as_slice());
    let ts = string_of(t.as_slice());
    nfc_of(ts.as_str())
}

fn normalized_name(name: &str) -> (r: Option<String>)
    ensures
        opt_view(r) == name_key(name@),
{
    let n = clean_name_of(name);
    let nc = chars_of(n.as_str());
    if nc.len() == 0 || any_control(nc.as_slice()) {
        None
    } else {
        let l = lowercase_chars(nc.as_slice());
        Some(string_of(l.as_slice()))
    }
}

fn key_taken(defs: &Vec<PlaylistDefinition>, key: &String, except: Option<&str>) -> (r: bool)
    ensures
        r == name_taken(defs@, key@, match except {
            Some(e) => Some(e@),
            None => None,
        }),
{
    let ghost ex = match except {
        Some(e) => Some(e@),
        None => None::<Seq<char>>,
    };
    let mut i: usize = 0;
    while i < defs.len()
        invariant
            i <= defs.len(),
            ex == match except {
                Some(e) => Some(e@),
                None => None::<Seq<char>>,
            },
            forall|j: int| 0 <= j < i ==> !(ex != Some(defs@[j].id@) && #[trigger] name_key(defs@[j].name@) == Some(key@)),
        decreases defs.len() - i,
    {
        let is_except = match except {
            Some(e) => same_text(defs[i].id.as_str(), e),
            None => false,
        };
        if !is_except {
            match normalized_name(defs[i].name.as_str()) {
                Some(k) => {
                    if k == *key {
                        return true;
                    }
                },
                None => {},
            }
        }
        i = i + 1;
    }
    false
}

/// A run that has consumed nothing, failed nothing, and is the first.
pub open spec fn fresh_run(run: Run) -> bool {
    run.run_id == 0 && run.consumed@.len() == 0 && run.failures@.len() == 0
}

/// No playlist id has two runs.
pub open spec fn run_ids_distinct(runs: Seq<(String, Run)>) -> bool {
    forall|i: int, j: int| 0 <= i < j < runs.len() ==> #[trigger] runs[i].0@ != #[trigger] runs[j].0@
}

/// No two of `ids` read the same.
pub open spec fn views_distinct(ids: Seq<String>) -> bool {
    forall|i: int, j: int| 0 <= i < j < ids.len() ==> #[trigger] ids[i]@ != #[trigger] ids[j]@
}

/// No occurrence is listed twice as consumed, and none has two failure reasons.
pub open spec fn progress_keyed(run: Run) -> bool {
    &&& views_distinct(run.consumed@)
    &&& forall|i: int, j: int|
        0 <= i < j < run.failures@.len() ==> #[trigger] run.failures@[i].0@ != #[trigger] run.failures@[j].0@
}

/// No playlist id has two runs, and every run's progress is keyed by occurrence.
pub open spec fn runs_keyed(runs: Seq<(String, Run)>) -> bool {
    &&& run_ids_distinct(runs)
    &&& forall|k: int| 0 <= k < runs.len() ==> progress_keyed(#[trigger] runs[k].1)
}

/// `new` is `old` with a fresh run stored under `id`: in place of the first
/// run with that id, or appended.

pub open spec fn run_inserted(old: Seq<(String, Run)>, new: Seq<(String, Run)>, id: Seq<char>) -> bool {
    let p = run_pos(old, id);
    if p >= 0 {
        &&& new.len() == old.len()
        &&& forall|k: int| 0 <= k < old.len() && k != p ==> #[trigger] new[k] == old[k]
        &&& new[p].0@ == id && fresh_run(new[p].1)
    } else {
        &&& new.len() == old.len() + 1
        &&& forall|k: int| 0 <= k < old.len() ==> #[trigger] new[k] == old[k]
        &&& new[old.len() as int].0@ == id && fresh_run(new[old.len() as int].1)
    }
}

fn insert_fresh_run(runs: &mut Vec<(String, Run)>, id: String)
    ensures
        run_inserted(old(runs)@, final(runs)@, id@),
        runs_keyed(old(runs)@) ==> runs_keyed(final(runs)@),
{
    let run = Run { run_id: 0, consumed: Vec::new(), failures: Vec::new() };
    let ghost before = runs@;
    let ghost key = id@;
    proof {
        lemma_first_pos(runs@, |r: (String, Run)| r.0@ == id@);
    }
    match find_run(runs, id.as_str()) {
        Some(p) => {
            runs.set(p, (id, run));
            assert(runs@[p as int].0@ == before[p as int].0@);
        },
        None => {
            runs.push((id, run));
            assert(forall|j: int| 0 <= j < before.len() ==> before[j].0@ != key);
        },
    }
}

pub open spec fn fail_pos(failures: Seq<(String, String)>, entry_id: Seq<char>) -> int {
    first_pos(failures, |f: (String, String)| f.0@ == entry_id)
}

/// The current occurrence is occurrence `entry_id` of playlist `id`.
pub open spec fn current_at(current: Option<CurrentOccurrence>, id: Seq<char>, entry_id: Seq<char>) -> bool {
    match current {
        Some(c) => opt_view(c.playlist_id) == Some(id) && opt_view(c.entry_id) == Some(entry_id),
        None => false,
    }
}

fn current_is_at(current: &Option<CurrentOccurrence>, id: &str, entry_id: &str) -> (r: bool)
    ensures
        r == current_at(*current, id@, entry_id@),
{
    match current {
        Some(c) => {
            let in_list = match &c.playlist_id {
                Some(p) => same_text(p.as_str(), id),
                None => false,
            };
            let same_entry = match &c.entry_id {
                Some(e) => same_text(e.as_str(), entry_id),
                None => false,
            };
            in_list && same_entry
        },
        None => false,
    }
}

pub(crate) fn find_failure(failures: &Vec<(String, String)>, entry_id: &str) -> (r: Option<usize>)
    ensures
        match r {
            Some(i) => i < failures.len() && fail_pos(failures@, entry_id@) == i,
            None => fail_pos(failures@, entry_id@) == -1,
        },
        r is None ==> forall|j: int| 0 <= j < failures@.len() ==> #[trigger] failures@[j].0@ != entry_id@,
{
    let ghost f = |x: (String, String)| x.0@ == entry_id@;
    let mut i: usize = 0;
    while i < failures.len()
        invariant
            i <= failures.len(),
            f == (|x: (String, String)| x.0@ == entry_id@),
            forall|j: int| 0 <= j < i ==> !f(#[trigger] failures@[j]),
        decreases failures.len() - i,
    {
        if same_text(failures[i].0.as_str(), entry_id) {
            proof {
                lemma_first_pos_is(failures@, f, i as int);
            }
            return Some(i);
        }
        i = i + 1;
    }
    proof {
        lemma_first_pos_is(failures@, f, -1);
    }
    None
}

/// Where `undo_remove` puts an occurrence back: before its old follower,
/// else after its old predecessor, else at the end.
pub open spec fn undo_position(entries: Seq<Entry>, previous_id: Option<String>, following_id: Option<String>) -> int {
    match following_id {
        Some(f) if entry_pos(entries, f@) >= 0 => entry_pos(entries, f@),
        _ => match previous_id {
            Some(p) if entry_pos(entries, p@) >= 0 => entry_pos(entries, p@) + 1,
            _ => entries.len() as int,
        },
    }
}

/// `new` is the run `old` after `undo_remove` restored the progress it
/// recorded for the occurrence.
pub open spec fn progress_restored(old: Run, new: Run, removed: RemovedEntry) -> bool {
    let eid = removed.entry.entry_id@;
    &&& new.run_id == old.run_id
    &&& if old.run_id == removed.run_id && removed.consumed && !lists_id(old.consumed@, eid) {
        new.consumed@.len() == old.consumed@.len() + 1 && new.consumed@.drop_last() == old.consumed@
            && new.consumed@.last()@ == eid
    } else {
        new.consumed == old.consumed
    }
    &&& match removed.failure {
        Some(reason) if old.run_id == removed.run_id => {
            let p = fail_pos(old.failures@, eid);
            if p >= 0 {
                new.failures@ == old.failures@.update(p, (old.failures@[p].0, reason))
            } else {
                new.failures@.len() == old.failures@.len() + 1 && new.failures@.drop_last() == old.failures@
                    && new.failures@.last().0@ == eid && new.failures@.last().1 == reason
            }
        },
        _ => new.failures == old.failures,
    }
}

/// `ids` without any element equal to `id`.
pub open spec fn without_id(ids: Seq<String>, id: Seq<char>) -> Seq<String>
    decreases ids.len(),
{
    if ids.len() == 0 {
        seq![]
    } else {
        let w = without_id(ids.drop_last(), id);
        if ids.last()@ == id {
            w
        } else {
            w.push(ids.last())
        }
    }
}

fn remove_id(ids: &mut Vec<String>, id: &str)
    ensures
        final(ids)@ == without_id(old(ids)@, id@),
{
    let ghost s = ids@;
    let mut out: Vec<String> = Vec::new();
    let mut i: usize = 0;
    assert(s.take(0) =~= seq![]);
    while i < ids.len()
        invariant
            i <= ids.len(),
            ids@ == s,
            out@ == without_id(s.take(i as int), id@),
        decreases ids.len() - i,
    {
        assert(s.take(i as int + 1).drop_last() =~= s.take(i as int));
        if !same_text(ids[i].as_str(), id) {
            out.push(ids[i].clone());
        }
        i = i + 1;
    }
    assert(s.take(s.len() as int) =~= s);
    *ids = out;
}

/// Taking an id out keeps the others distinct, and adds none.
proof fn lemma_without_id_distinct(s: Seq<String>, id: Seq<char>)
    requires
        views_distinct(s),
    ensures
        views_distinct(without_id(s, id)),
        forall|i: int| 0 <= i < without_id(s, id).len() ==> lists_id(s, #[trigger] without_id(s, id)[i]@),
    decreases s.len(),
{
    if s.len() > 0 {
        let d = s.drop_last();
        assert forall|i: int, j: int| 0 <= i < j < d.len() implies #[trigger] d[i]@ != #[trigger] d[j]@ by {
            assert(d[i] == s[i] && d[j] == s[j]);
        }
        lemma_without_id_distinct(d, id);
        let w = without_id(d, id);
        assert forall|i: int| 0 <= i < w.len() implies lists_id(s, #[trigger] w[i]@) by {
            let k = choose|k: int| 0 <= k < d.len() && #[trigger] d[k]@ == w[i]@;
            assert(s[k] == d[k]);
        }
        if s.last()@ != id {
            let w2 = w.push(s.last());
            assert forall|i: int| 0 <= i < w.len() implies #[trigger] w[i]@ != s.last()@ by {
                let k = choose|k: int| 0 <= k < d.len() && #[trigger] d[k]@ == w[i]@;
                assert(s[k] == d[k]);
                assert(s[k]@ != s[s.len() - 1]@);
            }
            assert forall|i: int, j: int| 0 <= i < j < w2.len() implies #[trigger] w2[i]@ != #[trigger] w2[j]@ by {
                assert(w2[i] == w[i]);
                if j < w.len() {
                    assert(w2[j] == w[j]);
                }
            }
            assert forall|i: int| 0 <= i < w2.len() implies lists_id(s, #[trigger] w2[i]@) by {
                if i == w.len() {
                    assert(s[s.len() - 1]@ == w2[i]@);
                } else {
                    assert(w2[i] == w[i]);
                }
            }
        }
    }
}

/// Appending an id that is not yet listed keeps the list distinct.
proof fn lemma_push_distinct(old: Seq<String>, new: Seq<String>, e: Seq<char>)
    requires
        views_distinct(old),
        !lists_id(old, e),
        new.len() == old.len() + 1,
        new.drop_last() == old,
        new.last()@ == e,
    ensures
        views_distinct(new),
{
    assert forall|i: int, j: int| 0 <= i < j < new.len() implies #[trigger] new[i]@ != #[trigger] new[j]@ by {
        assert(new[i] == old[i]);
        if j < old.len() {
            assert(new[j] == old[j]);
        } else if new[i]@ == e {
            assert(lists_id(old, e));
        }
    }
}

/// Appending a failure for an occurrence that has none keeps failures keyed.
proof fn lemma_push_failure_keyed(prev: Seq<(String, String)>, new: Seq<(String, String)>, e: Seq<char>)
    requires
        forall|i: int, j: int| 0 <= i < j < prev.len() ==> #[trigger] prev[i].0@ != #[trigger] prev[j].0@,
        forall|j: int| 0 <= j < prev.len() ==> #[trigger] prev[j].0@ != e,
        new.len() == prev.len() + 1,
        new.drop_last() == prev,
        new.last().0@ == e,
    ensures
        forall|i: int, j: int| 0 <= i < j < new.len() ==> #[trigger] new[i].0@ != #[trigger] new[j].0@,
{
    assert forall|i: int, j: int| 0 <= i < j < new.len() implies #[trigger] new[i].0@ != #[trigger] new[j].0@ by {
        assert(new[i] == prev[i]);
        if j < prev.len() {
            assert(new[j] == prev[j]);
        }
    }
}

/// Recording progress keeps a run keyed by occurrence.
proof fn lemma_recorded_keyed(old: Run, new: Run, e: Seq<char>, before: Progress, after: Progress, reason: Seq<char>)
    requires
        progress_keyed(old),
        progress_recorded(old, new, e, before, after, reason),
        !before.failed ==> forall|j: int| 0 <= j < old.failures@.len() ==> #[trigger] old.failures@[j].0@ != e,
    ensures
        progress_keyed(new),
{
    if after.consumed && !lists_id(old.consumed@, e) {
        lemma_push_distinct(old.consumed@, new.consumed@, e);
    }
    if after.failed && !before.failed {
        lemma_push_failure_keyed(old.failures@, new.failures@, e);
    }
}

/// Restoring a removed occurrence's progress keeps a run keyed by occurrence.
proof fn lemma_restored_keyed(old: Run, new: Run, removed: RemovedEntry)
    requires
        progress_keyed(old),
        progress_restored(old, new, removed),
        removed.failure is Some && old.run_id == removed.run_id && fail_pos(old.failures@, removed.entry.entry_id@)
            == -1 ==> forall|j: int|
            0 <= j < old.failures@.len() ==> #[trigger] old.failures@[j].0@ != removed.entry.entry_id@,
    ensures
        progress_keyed(new),
{
    let eid = removed.entry.entry_id@;
    if old.run_id == removed.run_id && removed.consumed && !lists_id(old.consumed@, eid) {
        lemma_push_distinct(old.consumed@, new.consumed@, eid);
    }
    match removed.failure {
        Some(reason) if old.run_id == removed.run_id => {
            let p = fail_pos(old.failures@, eid);
            if p >= 0 {
                lemma_first_pos(old.failures@, |f: (String, String)| f.0@ == removed.entry.entry_id@);
                assert(new.failures@ == old.failures@.update(p, (old.failures@[p].0, reason)));
                let f = new.failures@;
                assert forall|i: int, j: int| 0 <= i < j < f.len() implies #[trigger] f[i].0@ != #[trigger] f[j].0@ by {
                    assert(f[i].0 == old.failures@[i].0 && f[j].0 == old.failures@[j].0);
                }
            } else {
                lemma_push_failure_keyed(old.failures@, new.failures@, eid);
            }
        },
        _ => {},
    }
}

/// Replacing one run's progress by a keyed one keeps the runs keyed.
proof fn lemma_runs_keyed_update(runs: Seq<(String, Run)>, k: int, run: Run)
    requires
        runs_keyed(runs),
        0 <= k < runs.len(),
        progress_keyed(run),
    ensures
        runs_keyed(runs.update(k, (runs[k].0, run))),
{
    let n = runs.update(k, (runs[k].0, run));
    assert forall|i: int, j: int| 0 <= i < j < n.len() implies #[trigger] n[i].0@ != #[trigger] n[j].0@ by {
        assert(n[i].0 == runs[i].0 && n[j].0 == runs[j].0);
    }
    assert forall|i: int| 0 <= i < n.len() implies progress_keyed(#[trigger] n[i].1) by {
        if i != k {
            assert(n[i] == runs[i]);
        }
    }
}

/// What `validate` finds of a catalog: nothing wrong, a missing record, or
/// the first inconsistency, by its message.
pub enum Verdict {
    Valid,
    Missing,
    Invalid(Seq<char>),
}

/// The ids of every occurrence of `defs`, playlist after playlist.
pub open spec fn all_entry_ids(defs: Seq<PlaylistDefinition>) -> Seq<Seq<char>>
    decreases defs.len(),
{
    if defs.len() == 0 {
        seq![]
    } else {
        all_entry_ids(defs.drop_last()) + entry_ids(defs.last().entries@)
    }
}

/// What is wrong with occurrence `k` of playlist `i`, given the ones before.
pub open spec fn entry_error(defs: Seq<PlaylistDefinition>, i: int, k: int) -> Option<Seq<char>> {
    let e = defs[i].entries@[k];
    if e.track.content_hash@.len() == 0 {
        Some("playlist track has no content hash"@)
    } else if (all_entry_ids(defs.take(i)) + entry_ids(defs[i].entries@.take(k))).contains(e.entry_id@) {
        Some("duplicate entry id"@)
    } else {
        None
    }
}

/// The first thing wrong with the occurrences of playlist `i` from the `k`th on.
pub open spec fn first_entry_error(defs: Seq<PlaylistDefinition>, i: int, k: int) -> Option<Seq<char>>
    decreases defs[i].entries@.len() - k,
{
    if k < 0 || k >= defs[i].entries@.len() {
        None
    } else {
        match entry_error(defs, i, k) {
            Some(m) => Some(m),
            None => first_entry_error(defs, i, k + 1),
        }
    }
}

/// What is wrong with playlist `i` of `c`, given the ones before it.
pub open spec fn definition_error(c: Catalog, i: int) -> Option<Seq<char>> {
    let defs = c.definitions@;
    let d = defs[i];
    if exists|j: int| 0 <= j < i && #[trigger] defs[j].id@ == d.id@ {
        Some("duplicate playlist id or name"@)
    } else {
        match name_key(d.name@) {
            None => Some("invalid playlist name"@),
            Some(key) => if exists|j: int| 0 <= j < i && #[trigger] name_key(defs[j].name@) == Some(key) {
                Some("duplicate playlist id or name"@)
            } else if run_pos(c.runs@, d.id@) == -1 {
                Some("playlist has no run"@)
            } else {
                first_entry_error(defs, i, 0)
            },
        }
    }
}

/// The first thing wrong with the playlists of `c` from the `i`th on.
pub open spec fn first_definition_error(c: Catalog, i: int) -> Option<Seq<char>>
    decreases c.definitions@.len() - i,
{
    if i < 0 || i >= c.definitions@.len() {
        None
    } else {
        match definition_error(c, i) {
            Some(m) => Some(m),
            None => first_definition_error(c, i + 1),
        }
    }
}

/// Some playlist of `defs` has id `id`.
pub open spec fn defines(defs: Seq<PlaylistDefinition>, id: Seq<char>) -> bool {
    exists|j: int| 0 <= j < defs.len() && #[trigger] defs[j].id@ == id
}

/// A run or the active source names a playlist that does not exist.
pub open spec fn orphaned(c: Catalog) -> bool {
    ||| exists|k: int| 0 <= k < c.runs@.len() && !defines(c.definitions@, #[trigger] c.runs@[k].0@)
    ||| (c.active_id matches Some(a) && !defines(c.definitions@, a@))
}

/// What is wrong with the interrupted current occurrence of `c`.
pub open spec fn current_verdict(c: Catalog) -> Verdict {
    match c.current {
        None => Verdict::Valid,
        Some(cur) => match cur.origin {
            PlaybackOrigin::Normal => if cur.playlist_id is Some || cur.entry_id is Some || cur.queue_origin is None {
                Verdict::Invalid("normal current lacks normal identity"@)
            } else {
                Verdict::Valid
            },
            PlaybackOrigin::Playlist => match cur.playlist_id {
                None => Verdict::Invalid("playlist current lacks playlist id"@),
                Some(id) => {
                    let rp = run_pos(c.runs@, id@);
                    let dp = def_pos(c.definitions@, id@);
                    if cur.queue_origin is Some || cur.track_ref.content_hash@.len() == 0 {
                        Verdict::Invalid("invalid playlist current"@)
                    } else if rp == -1 {
                        Verdict::Missing
                    } else if c.runs@[rp].1.run_id != cur.run_id {
                        Verdict::Invalid("invalid playlist current"@)
                    } else if dp == -1 {
                        Verdict::Missing
                    } else if !has_entry(c.definitions@[dp].entries@, cur.entry_id) {
                        Verdict::Invalid("invalid playlist current"@)
                    } else {
                        Verdict::Valid
                    }
                },
            },
        },
    }
}

/// Everything `validate` checks, in its order.
pub open spec fn verdict(c: Catalog) -> Verdict {
    if c.schema_version != SCHEMA_VERSION {
        Verdict::Invalid("unsupported schema"@)
    } else {
        match first_definition_error(c, 0) {
            Some(m) => Verdict::Invalid(m),
            None => if orphaned(c) {
                Verdict::Invalid("orphan playlist state"@)
            } else {
                current_verdict(c)
            },
        }
    }
}

fn text_is_empty(s: &String) -> (r: bool)
    ensures
        r == (s@.len() == 0),
{
    chars_of(s.as_str()).len() == 0
}

fn defines_id(defs: &Vec<PlaylistDefinition>, id: &str) -> (r: bool)
    ensures
        r == defines(defs@, id@),
{
    let found = find_definition(defs, id);
    proof {
        let f = |d: PlaylistDefinition| d.id@ == id@;
        lemma_first_pos(defs@, f);
        if found is None {
            assert forall|j: int| 0 <= j < defs.len() implies #[trigger] defs@[j].id@ != id@ by {
                assert(!f(defs@[j]));
            }
        } else {
            assert(f(defs@[def_pos(defs@, id@)]));
        }
    }
    found.is_some()
}

/// Some entry of `es` is occurrence `entry_id`.
pub open spec fn has_entry(es: Seq<Entry>, entry_id: Option<String>) -> bool {
    match entry_id {
        Some(e) => entry_pos(es, e@) >= 0,
        None => false,
    }
}

pub(crate) fn copy_current(c: &CurrentOccurrence) -> (r: CurrentOccurrence)
    ensures
        r == *c,
{
    CurrentOccurrence {
        playlist_id: match &c.playlist_id {
            Some(p) => Some(p.clone()),
            None => None,
        },
        run_id: c.run_id,
        entry_id: match &c.entry_id {
            Some(e) => Some(e.clone()),
            None => None,
        },
        track_ref: c.track_ref.duplicate(),
        origin: c.origin,
        queue_origin: c.queue_origin,
    }
}

impl Default for Catalog {
    fn default() -> (r: Catalog)
        ensures
            r.schema_version == SCHEMA_VERSION,
            r.revision == 0,
            r.generation == 0,
            r.next_id == 1,
            r.active_id is None,
            r.definitions@.len() == 0,
            r.runs@.len() == 0,
            r.current is None,
            r.normal is None,
    {
        Catalog {
            schema_version: SCHEMA_VERSION,
            revision: 0,
            generation: 0,
            next_id: 1,
            active_id: None,
            definitions: Vec::new(),
            runs: Vec::new(),
            current: None,
            normal: None,
        }
    }
}

impl Catalog {
    /// The definition with `id` (the first, should two share it).
    pub fn definition(&self, id: &str) -> (r: Result<&PlaylistDefinition, PlaylistError>)
        ensures
            match r {
                Ok(d) => def_pos(self.definitions@, id@) >= 0 && *d == self.definitions@[def_pos(
                    self.definitions@,
                    id@,
                )],
                Err(e) => def_pos(self.definitions@, id@) == -1 && e == PlaylistError::NotFound,
            },
    {
        match find_definition(&self.definitions, id) {
            Some(i) => Ok(&self.definitions[i]),
            None => Err(PlaylistError::NotFound),
        }
    }

    /// The run of playlist `id`.
    pub fn run(&self, id: &str) -> (r: Result<&Run, PlaylistError>)
        ensures
            match r {
                Ok(run) => run_pos(self.runs@, id@) >= 0 && *run == self.runs@[run_pos(self.runs@, id@)].1,
                Err(e) => run_pos(self.runs@, id@) == -1 && e == PlaylistError::NotFound,
            },
    {
        match find_run(&self.runs, id) {
            Some(i) => Ok(&self.runs[i].1),
            None => Err(PlaylistError::NotFound),
        }
    }


    /// The occurrences of playlist `id` its current run has not consumed.
    pub fn remaining(&self, id: &str) -> (r: Result<Vec<Entry>, PlaylistError>)
        ensures
            run_pos(self.runs@, id@) == -1 || def_pos(self.definitions@, id@) == -1 <==> r is Err,
            r is Err ==> r == Err::<Vec<Entry>, PlaylistError>(PlaylistError::NotFound),
            r matches Ok(v) ==> v@ == unconsumed(
                self.definitions@[def_pos(self.definitions@, id@)].entries@,
                self.runs@[run_pos(self.runs@, id@)].1.consumed@,
            ),
    {
        let run = match self.run(id) {
            Ok(run) => run,
            Err(e) => return Err(e),
        };
        let def = match self.definition(id) {
            Ok(d) => d,
            Err(e) => return Err(e),
        };
        Ok(unconsumed_entries(&def.entries, &run.consumed))
    }

    /// Replace the unconsumed occurrences, slot by slot, with `ordered`;
    /// consumed occurrences keep their places.
    pub fn reorder_remaining(&mut self, id: &str, ordered: &[String]) -> (r: Result<(), PlaylistError>)
        requires
            ({
                let rp = run_pos(old(self).runs@, id@);
                let dp = def_pos(old(self).definitions@, id@);
                rp >= 0 && dp >= 0 ==> {
                    let u = unconsumed(old(self).definitions@[dp].entries@, old(self).runs@[rp].1.consumed@);
                    exact_order(ordered@, u) ==> entry_ids(u).no_duplicates() && old(self).revision < u64::MAX
                }
            }),
        ensures
            runs_keyed(old(self).runs@) ==> runs_keyed(final(self).runs@),
            ({
                let rp = run_pos(old(self).runs@, id@);
                let dp = def_pos(old(self).definitions@, id@);
                if rp == -1 || dp == -1 {
                    &&& r == Err::<(), PlaylistError>(PlaylistError::NotFound)
                    &&& *final(self) == *old(self)
                } else {
                    let d = old(self).definitions@[dp];
                    let consumed = old(self).runs@[rp].1.consumed@;
                    let u = unconsumed(d.entries@, consumed);
                    if !exact_order(ordered@, u) {
                        &&& r matches Err(PlaylistError::InvalidInput { message })
                        &&& message@ == "ordered entries must be exactly the remaining occurrences"@
                        &&& *final(self) == *old(self)
                    } else {
                        let nd = final(self).definitions@[dp];
                        &&& final(self).definitions@.len() == old(self).definitions@.len()
                        &&& forall|k: int| 0 <= k < old(self).definitions@.len() && k != dp ==> #[trigger] final(self).definitions@[k] == old(self).definitions@[k]
                        &&& nd.id == d.id && nd.name == d.name
                        &&& reordered(d.entries@, consumed, ordered@, nd.entries@)
                        &&& final(self).runs == old(self).runs
                        &&& final(self).active_id == old(self).active_id
                        &&& final(self).current == old(self).current
                        &&& final(self).normal == old(self).normal
                        &&& final(self).schema_version == old(self).schema_version
                        &&& final(self).generation == old(self).generation
                        &&& final(self).next_id == old(self).next_id
                        &&& if d.revision == u64::MAX {
                            &&& r matches Err(PlaylistError::InvalidInput { message })
                            &&& message@ == "definition revision exhausted"@
                            &&& nd.revision == d.revision
                            &&& final(self).revision == old(self).revision
                        } else {
                            &&& r is Ok
                            &&& nd.revision == d.revision + 1
                            &&& final(self).revision == old(self).revision + 1
                        }
                    }
                }
            }),
    {
        let rp = match find_run(&self.runs, id) {
            Some(i) => i,
            None => return Err(PlaylistError::NotFound),
        };
        let dp = match find_definition(&self.definitions, id) {
            Some(i) => i,
            None => return Err(PlaylistError::NotFound),
        };
        let consumed = copy_ids(&self.runs[rp].1.consumed);
        let ghost old_entries = self.definitions@[dp as int].entries@;
        let u = unconsumed_entries(&self.definitions[dp].entries, &consumed);
        if !check_exact_order(ordered, &u) {
            return Err(PlaylistError::InvalidInput {
                message: "ordered entries must be exactly the remaining occurrences".to_owned(),
            });
        }
        proof {
            id_views(ordered@).unique_seq_to_set();
            entry_ids(u@).unique_seq_to_set();
        }
        let new_entries = refill(&self.definitions[dp].entries, &consumed, ordered, &u);
        self.definitions[dp].entries = new_entries;
        if self.definitions[dp].revision == u64::MAX {
            return Err(PlaylistError::InvalidInput { message: "definition revision exhausted".to_owned() });
        }
        self.definitions[dp].revision = self.definitions[dp].revision + 1;
        self.revision = self.revision + 1;
        Ok(())
    }


    /// Select the source for future claims, without starting playback or
    /// touching any run.
    pub fn select(&mut self, id: Option<String>) -> (r: Result<(), PlaylistError>)
        requires
            (match id {
                Some(x) => def_pos(old(self).definitions@, x@) >= 0,
                None => true,
            }) && opt_view(old(self).active_id) != opt_view(id) ==> old(self).revision < u64::MAX
                && old(self).generation < u64::MAX,
        ensures
            runs_keyed(old(self).runs@) ==> runs_keyed(final(self).runs@),
            match id {
                Some(x) => def_pos(old(self).definitions@, x@) == -1,
                None => false,
            } ==> r == Err::<(), PlaylistError>(PlaylistError::NotFound) && *final(self) == *old(self),
            r is Ok <==> match id {
                Some(x) => def_pos(old(self).definitions@, x@) >= 0,
                None => true,
            },
            r is Ok && opt_view(old(self).active_id) == opt_view(id) ==> *final(self) == *old(self),
            r is Ok && opt_view(old(self).active_id) != opt_view(id) ==> {
                &&& final(self).active_id == id
                &&& final(self).revision == old(self).revision + 1
                &&& final(self).generation == old(self).generation + 1
                &&& same_content(*final(self), *old(self))
            },
    {
        match &id {
            Some(x) => {
                if find_definition(&self.definitions, x.as_str()).is_none() {
                    return Err(PlaylistError::NotFound);
                }
            },
            None => {},
        }
        if !same_opt_text(&self.active_id, &id) {
            self.active_id = id;
            self.revision = self.revision + 1;
            self.generation = self.generation + 1;
        }
        Ok(())
    }

    /// Start a new run of playlist `id`: nothing consumed, nothing failed.
    pub fn restart(&mut self, id: &str) -> (r: Result<u64, PlaylistError>)
        requires
            run_pos(old(self).runs@, id@) >= 0 && old(self).runs@[run_pos(old(self).runs@, id@)].1.run_id
                < u64::MAX ==> old(self).revision < u64::MAX && old(self).generation < u64::MAX,
        ensures
            runs_keyed(old(self).runs@) ==> runs_keyed(final(self).runs@),
            ({
                let rp = run_pos(old(self).runs@, id@);
                if rp == -1 {
                    r == Err::<u64, PlaylistError>(PlaylistError::NotFound) && *final(self) == *old(self)
                } else if old(self).runs@[rp].1.run_id == u64::MAX {
                    &&& r matches Err(PlaylistError::InvalidInput { message })
                    &&& message@ == "run id exhausted"@
                    &&& *final(self) == *old(self)
                } else {
                    let run = final(self).runs@[rp].1;
                    &&& r == Ok::<u64, PlaylistError>(run.run_id)
                    &&& run.run_id == old(self).runs@[rp].1.run_id + 1
                    &&& run.consumed@.len() == 0
                    &&& run.failures@.len() == 0
                    &&& final(self).runs@ == old(self).runs@.update(rp, (old(self).runs@[rp].0, run))
                    &&& final(self).current == if current_in(old(self).current, id@) {
                        None
                    } else {
                        old(self).current
                    }
                    &&& final(self).revision == old(self).revision + 1
                    &&& final(self).generation == old(self).generation + 1
                    &&& final(self).definitions == old(self).definitions
                    &&& final(self).active_id == old(self).active_id
                    &&& final(self).normal == old(self).normal
                    &&& final(self).schema_version == old(self).schema_version
                    &&& final(self).next_id == old(self).next_id
                }
            }),
    {
        let rp = match find_run(&self.runs, id) {
            Some(i) => i,
            None => return Err(PlaylistError::NotFound),
        };
        if self.runs[rp].1.run_id == u64::MAX {
            return Err(PlaylistError::InvalidInput { message: "run id exhausted".to_owned() });
        }
        let new_run_id = self.runs[rp].1.run_id + 1;
        self.runs[rp].1 = Run { run_id: new_run_id, consumed: Vec::new(), failures: Vec::new() };
        if current_is_in(&self.current, id) {
            self.current = None;
        }
        self.revision = self.revision + 1;
        self.generation = self.generation + 1;
        Ok(new_run_id)
    }

    /// Move occurrence `entry_id` of playlist `id` to position `to`.
    pub fn move_entry(&mut self, id: &str, entry_id: &str, to: usize) -> (r: Result<(), PlaylistError>)
        requires
            ({
                let dp = def_pos(old(self).definitions@, id@);
                dp >= 0 && entry_pos(old(self).definitions@[dp].entries@, entry_id@) >= 0 && to
                    < old(self).definitions@[dp].entries@.len() && old(self).definitions@[dp].revision
                    < u64::MAX ==> old(self).revision < u64::MAX
            }),
        ensures
            runs_keyed(old(self).runs@) ==> runs_keyed(final(self).runs@),
            ({
                let dp = def_pos(old(self).definitions@, id@);
                if dp == -1 {
                    r == Err::<(), PlaylistError>(PlaylistError::NotFound) && *final(self) == *old(self)
                } else {
                    let d = old(self).definitions@[dp];
                    let at = entry_pos(d.entries@, entry_id@);
                    if at == -1 {
                        r == Err::<(), PlaylistError>(PlaylistError::NotFound) && *final(self) == *old(self)
                    } else if to >= d.entries@.len() {
                        &&& r matches Err(PlaylistError::InvalidInput { message })
                        &&& message@ == "destination is outside playlist"@
                        &&& *final(self) == *old(self)
                    } else {
                        let nd = final(self).definitions@[dp];
                        &&& final(self).definitions@.len() == old(self).definitions@.len()
                        &&& forall|k: int| 0 <= k < old(self).definitions@.len() && k != dp ==> #[trigger] final(self).definitions@[k] == old(self).definitions@[k]
                        &&& nd.id == d.id && nd.name == d.name
                        &&& nd.entries@ == d.entries@.remove(at).insert(to as int, d.entries@[at])
                        &&& same_content_but_definitions(*final(self), *old(self))
                        &&& final(self).generation == old(self).generation
                        &&& final(self).active_id == old(self).active_id
                        &&& if d.revision == u64::MAX {
                            &&& r matches Err(PlaylistError::InvalidInput { message })
                            &&& message@ == "definition revision exhausted"@
                            &&& nd.revision == d.revision
                            &&& final(self).revision == old(self).revision
                        } else {
                            &&& r is Ok
                            &&& nd.revision == d.revision + 1
                            &&& final(self).revision == old(self).revision + 1
                        }
                    }
                }
            }),
    {
        let dp = match find_definition(&self.definitions, id) {
            Some(i) => i,
            None => return Err(PlaylistError::NotFound),
        };
        let at = match find_entry(&self.definitions[dp].entries, entry_id) {
            Some(i) => i,
            None => return Err(PlaylistError::NotFound),
        };
        if to >= self.definitions[dp].entries.len() {
            return Err(PlaylistError::InvalidInput { message: "destination is outside playlist".to_owned() });
        }
        let entry = self.definitions[dp].entries.remove(at);
        self.definitions[dp].entries.insert(to, entry);
        if self.definitions[dp].revision == u64::MAX {
            return Err(PlaylistError::InvalidInput { message: "definition revision exhausted".to_owned() });
        }
        self.definitions[dp].revision = self.definitions[dp].revision + 1;
        self.revision = self.revision + 1;
        Ok(())
    }

    /// Delete playlist `id` and its run; the active playlist cannot be deleted.
    pub fn delete(&mut self, id: &str) -> (r: Result<(), PlaylistError>)
        requires
            opt_view(old(self).active_id) != Some(id@) && def_pos(old(self).definitions@, id@) >= 0
                ==> old(self).revision < u64::MAX,
        ensures
            runs_keyed(old(self).runs@) ==> runs_keyed(final(self).runs@),
            opt_view(old(self).active_id) == Some(id@) ==> r == Err::<(), PlaylistError>(PlaylistError::ActiveList)
                && *final(self) == *old(self),
            opt_view(old(self).active_id) != Some(id@) && def_pos(old(self).definitions@, id@) == -1 ==> r
                == Err::<(), PlaylistError>(PlaylistError::NotFound) && *final(self) == *old(self),
            opt_view(old(self).active_id) != Some(id@) && def_pos(old(self).definitions@, id@) >= 0 ==> {
                &&& r is Ok
                &&& final(self).definitions@ == old(self).definitions@.remove(def_pos(old(self).definitions@, id@))
                &&& final(self).runs@ == if run_pos(old(self).runs@, id@) >= 0 {
                    old(self).runs@.remove(run_pos(old(self).runs@, id@))
                } else {
                    old(self).runs@
                }
                &&& final(self).current == if current_in(old(self).current, id@) {
                    None
                } else {
                    old(self).current
                }
                &&& final(self).revision == old(self).revision + 1
                &&& final(self).generation == old(self).generation
                &&& final(self).active_id == old(self).active_id
                &&& final(self).normal == old(self).normal
                &&& final(self).schema_version == old(self).schema_version
                &&& final(self).next_id == old(self).next_id
            },
    {
        let is_active = match &self.active_id {
            Some(a) => same_text(a.as_str(), id),
            None => false,
        };
        if is_active {
            return Err(PlaylistError::ActiveList);
        }
        let dp = match find_definition(&self.definitions, id) {
            Some(i) => i,
            None => return Err(PlaylistError::NotFound),
        };
        self.definitions.remove(dp);
        match find_run(&self.runs, id) {
            Some(rp) => {
                self.runs.remove(rp);
            },
            None => {},
        }
        if current_is_in(&self.current, id) {
            self.current = None;
        }
        self.revision = self.revision + 1;
        Ok(())
    }


    /// The clean form of `name`, when it is usable and no playlist but
    /// `except` already has a name with the same key.
    fn valid_name(&self, name: &str, except: Option<&str>) -> (r: Result<String, PlaylistError>)
        ensures
            ({
                let ex = match except {
                    Some(e) => Some(e@),
                    None => None,
                };
                match name_key(clean_name(name@)) {
                    None => r matches Err(PlaylistError::InvalidInput { message }) && message@
                        == "playlist name must not be blank or contain control characters"@,
                    Some(key) => if name_taken(self.definitions@, key, ex) {
                        r matches Err(PlaylistError::InvalidInput { message }) && message@
                            == "playlist name already exists"@
                    } else {
                        r matches Ok(n) && n@ == clean_name(name@)
                    },
                }
            }),
    {
        let n = clean_name_of(name);
        let key = match normalized_name(n.as_str()) {
            Some(k) => k,
            None => {
                return Err(PlaylistError::InvalidInput {
                    message: "playlist name must not be blank or contain control characters".to_owned(),
                })
            },
        };
        if key_taken(&self.definitions, &key, except) {
            return Err(PlaylistError::InvalidInput { message: "playlist name already exists".to_owned() });
        }
        Ok(n)
    }

    /// A fresh id `"{kind}-{n}"` from the id counter.
    fn allocate(&mut self, kind: &str) -> (r: Result<String, PlaylistError>)
        ensures
            old(self).next_id == u64::MAX ==> {
                &&& r matches Err(PlaylistError::InvalidInput { message })
                &&& message@ == "id space exhausted"@
                &&& *final(self) == *old(self)
            },
            old(self).next_id < u64::MAX ==> {
                &&& r matches Ok(id)
                &&& id@ == alloc_id(kind@, old(self).next_id as nat)
                &&& *final(self) == (Catalog { next_id: (old(self).next_id + 1) as u64, ..*old(self) })
            },
    {
        let n = self.next_id;
        if n == u64::MAX {
            return Err(PlaylistError::InvalidInput { message: "id space exhausted".to_owned() });
        }
        self.next_id = n + 1;
        let mut out: Vec<char> = Vec::new();
        push_all(&mut out, kind);
        out.push('-');
        let d = decimal_chars(n);
        let mut i: usize = 0;
        while i < d.len()
            invariant
                i <= d.len(),
                out@ == kind@ + seq!['-'] + d@.take(i as int),
            decreases d.len() - i,
        {
            out.push(d[i]);
            i = i + 1;
            assert(out@ =~= kind@ + seq!['-'] + d@.take(i as int));
        }
        assert(d@.take(d.len() as int) =~= d@);
        Ok(string_of(out.as_slice()))
    }

    /// One new entry per track, each with a fresh id, in order.
    #[verifier::loop_isolation(false)]
    #[verifier::spinoff_prover]
    fn allocate_entries(&mut self, tracks: Vec<TrackRef>) -> (r: Result<Vec<Entry>, PlaylistError>)
        ensures
            old(self).next_id as int + tracks.len() <= u64::MAX ==> {
                &&& r matches Ok(es)
                &&& es.len() == tracks.len()
                &&& forall|k: int| 0 <= k < es.len() ==> #[trigger] es@[k].entry_id@ == alloc_id("entry"@, (old(self).next_id + k) as nat) && es@[k].track == tracks@[k]
                &&& *final(self) == (Catalog { next_id: (old(self).next_id + tracks.len()) as u64, ..*old(self) })
            },
            old(self).next_id as int + tracks.len() > u64::MAX ==> {
                &&& r matches Err(PlaylistError::InvalidInput { message })
                &&& message@ == "id space exhausted"@
                &&& *final(self) == (Catalog { next_id: u64::MAX, ..*old(self) })
            },
            tracks.len() == 0 ==> (r matches Ok(es) && es.len() == 0 && *final(self) == *old(self)),
    {
        let ghost t0 = tracks@;
        let ghost n0 = self.next_id;
        let mut tracks = tracks;
        let mut out: Vec<Entry> = Vec::new();
        assert(t0.skip(0) =~= t0);
        while tracks.len() > 0
            invariant
                tracks@ == t0.skip(out.len() as int),
                out.len() <= t0.len(),
                n0 == old(self).next_id,
                self.next_id == n0 + out.len(),
                *self == (Catalog { next_id: self.next_id, ..*old(self) }),
                forall|k: int| 0 <= k < out.len() ==> #[trigger] out@[k].entry_id@ == alloc_id("entry"@, (n0 + k) as nat) && out@[k].track == t0[k],
            decreases tracks.len(),
        {
            let id = match self.allocate("entry") {
                Ok(id) => id,
                Err(e) => return Err(e),
            };
            let t = tracks.remove(0);
            assert(t == t0[out.len() as int]);
            let ghost prev = out@;
            out.push(Entry { entry_id: id, track: t });
            assert(forall|k: int| 0 <= k < prev.len() ==> out@[k] == #[trigger] prev[k]);
            assert(tracks@ =~= t0.skip(out.len() as int));
        }
        Ok(out)
    }

    /// Create playlist `name` with one fresh occurrence per track, and an
    /// empty run for it.
    pub fn create(&mut self, name: &str, tracks: Vec<TrackRef>) -> (r: Result<String, PlaylistError>)
        requires
            ({
                match name_key(clean_name(name@)) {
                    Some(key) => !name_taken(old(self).definitions@, key, None) && old(self).next_id as int + 1
                        + tracks.len() <= u64::MAX ==> old(self).revision < u64::MAX,
                    None => true,
                }
            }),
        ensures
            runs_keyed(old(self).runs@) ==> runs_keyed(final(self).runs@),
            ({
                let n0 = old(self).next_id;
                match name_key(clean_name(name@)) {
                    None => r matches Err(PlaylistError::InvalidInput { message }) && message@
                        == "playlist name must not be blank or contain control characters"@ && *final(self)
                        == *old(self),
                    Some(key) => if name_taken(old(self).definitions@, key, None) {
                        r matches Err(PlaylistError::InvalidInput { message }) && message@
                            == "playlist name already exists"@ && *final(self) == *old(self)
                    } else if n0 == u64::MAX {
                        r matches Err(PlaylistError::InvalidInput { message }) && message@
                            == "id space exhausted"@ && *final(self) == *old(self)
                    } else if n0 as int + 1 + tracks.len() > u64::MAX {
                        &&& r matches Err(PlaylistError::InvalidInput { message })
                        &&& message@ == "id space exhausted"@
                        &&& *final(self) == (Catalog { next_id: u64::MAX, ..*old(self) })
                    } else {
                        let d = final(self).definitions@.last();
                        &&& r matches Ok(id)
                        &&& id@ == alloc_id("playlist"@, n0 as nat)
                        &&& final(self).definitions@.drop_last() == old(self).definitions@
                        &&& final(self).definitions@.len() == old(self).definitions@.len() + 1
                        &&& d.id@ == id@ && d.name@ == clean_name(name@) && d.revision == 0
                        &&& d.entries@.len() == tracks.len()
                        &&& forall|k: int| 0 <= k < tracks.len() ==> #[trigger] d.entries@[k].entry_id@ == alloc_id("entry"@, (n0 + 1 + k) as nat) && d.entries@[k].track == tracks@[k]
                        &&& run_inserted(old(self).runs@, final(self).runs@, id@)
                        &&& final(self).next_id == n0 + 1 + tracks.len()
                        &&& final(self).revision == old(self).revision + 1
                        &&& final(self).generation == old(self).generation
                        &&& final(self).active_id == old(self).active_id
                        &&& final(self).current == old(self).current
                        &&& final(self).normal == old(self).normal
                        &&& final(self).schema_version == old(self).schema_version
                    },
                }
            }),
    {
        let clean = match self.valid_name(name, None) {
            Ok(n) => n,
            Err(e) => return Err(e),
        };
        let id = match self.allocate("playlist") {
            Ok(id) => id,
            Err(e) => return Err(e),
        };
        let entries = match self.allocate_entries(tracks) {
            Ok(es) => es,
            Err(e) => return Err(e),
        };
        self.definitions.push(PlaylistDefinition { id: id.clone(), name: clean, revision: 0, entries });
        insert_fresh_run(&mut self.runs, id.clone());
        self.revision = self.revision + 1;
        Ok(id)
    }


    /// The first copy name, `base` then `"{base} 2"`, `"{base} 3"` and so on,
    /// that no playlist's name clashes with; there must be one.
    fn unique_copy_name(&self, base: &str) -> (r: String)
        requires
            first_free_copy(self.definitions@, base@, 1) is Some,
        ensures
            first_free_copy(self.definitions@, base@, 1) == Some(r@),
    {
        let mut n: u32 = 1;
        loop
            invariant
                1 <= n <= 0x7fff_ffff,
                first_free_copy(self.definitions@, base@, 1) == first_free_copy(self.definitions@, base@, n as nat),
                first_free_copy(self.definitions@, base@, n as nat) is Some,
            decreases 0x8000_0000 - n,
        {
            let candidate = copy_candidate_of(base, n);
            if self.valid_name(candidate.as_str(), None).is_ok() {
                return candidate;
            }
            n = n + 1;
        }
    }

    /// Whether playlist `id` can be copied: it is missing (and a copy is
    /// refused as not found), or some copy name is still free. This is what
    /// [`Catalog::duplicate`] needs of the catalog to finish.
    pub fn copy_name_free(&self, id: &str) -> (r: bool)
        ensures
            r == ({
                let dp = def_pos(self.definitions@, id@);
                dp >= 0 ==> first_free_copy(self.definitions@, self.definitions@[dp].name@ + " copy"@, 1) is Some
            }),
    {
        let dp = match find_definition(&self.definitions, id) {
            Some(i) => i,
            None => return true,
        };
        let mut base: Vec<char> = Vec::new();
        push_all(&mut base, self.definitions[dp].name.as_str());
        push_all(&mut base, " copy");
        let base = string_of(base.as_slice());
        assert(base@ =~= self.definitions@[dp as int].name@ + " copy"@);
        let mut n: u32 = 1;
        while n <= 0x7fff_ffff
            invariant
                1 <= n <= 0x8000_0000,
                dp as int == def_pos(self.definitions@, id@),
                base@ == self.definitions@[dp as int].name@ + " copy"@,
                first_free_copy(self.definitions@, base@, 1) == first_free_copy(self.definitions@, base@, n as nat),
            decreases 0x8000_0000 - n,
        {
            let candidate = copy_candidate_of(base.as_str(), n);
            if self.valid_name(candidate.as_str(), None).is_ok() {
                return true;
            }
            n = n + 1;
        }
        false
    }

    /// Copy playlist `id` under the first free `"{name} copy"` name, with
    /// fresh occurrence ids for the same tracks and a fresh run.
    pub fn duplicate(&mut self, id: &str) -> (r: Result<String, PlaylistError>)
        requires
            ({
                let dp = def_pos(old(self).definitions@, id@);
                dp >= 0 ==> first_free_copy(old(self).definitions@, old(self).definitions@[dp].name@ + " copy"@, 1) is Some
            }),
            ({
                let dp = def_pos(old(self).definitions@, id@);
                dp >= 0 && old(self).next_id as int + 1 + old(self).definitions@[dp].entries@.len() <= u64::MAX
                    ==> old(self).revision < u64::MAX
            }),
        ensures
            runs_keyed(old(self).runs@) ==> runs_keyed(final(self).runs@),
            ({
                let dp = def_pos(old(self).definitions@, id@);
                let n0 = old(self).next_id;
                if dp == -1 {
                    r == Err::<String, PlaylistError>(PlaylistError::NotFound) && *final(self) == *old(self)
                } else {
                    let src = old(self).definitions@[dp];
                    let name = first_free_copy(old(self).definitions@, src.name@ + " copy"@, 1)->0;
                    if n0 == u64::MAX {
                            r matches Err(PlaylistError::InvalidInput { message }) && message@
                                == "id space exhausted"@ && *final(self) == *old(self)
                        } else if n0 as int + 1 + src.entries@.len() > u64::MAX {
                            &&& r matches Err(PlaylistError::InvalidInput { message })
                            &&& message@ == "id space exhausted"@
                            &&& *final(self) == (Catalog { next_id: u64::MAX, ..*old(self) })
                        } else {
                            let d = final(self).definitions@.last();
                            &&& r matches Ok(new_id)
                            &&& new_id@ == alloc_id("playlist"@, n0 as nat)
                            &&& final(self).definitions@.drop_last() == old(self).definitions@
                            &&& final(self).definitions@.len() == old(self).definitions@.len() + 1
                            &&& d.id@ == new_id@ && d.name@ == name && d.revision == 0
                            &&& d.entries@.len() == src.entries@.len()
                            &&& forall|k: int| 0 <= k < d.entries@.len() ==> #[trigger] d.entries@[k].entry_id@ == alloc_id("entry"@, (n0 + 1 + k) as nat) && d.entries@[k].track == src.entries@[k].track
                            &&& run_inserted(old(self).runs@, final(self).runs@, new_id@)
                            &&& final(self).next_id == n0 + 1 + src.entries@.len()
                            &&& final(self).revision == old(self).revision + 1
                            &&& final(self).generation == old(self).generation
                            &&& final(self).active_id == old(self).active_id
                            &&& final(self).current == old(self).current
                            &&& final(self).normal == old(self).normal
                            &&& final(self).schema_version == old(self).schema_version
                        }
                }
            }),
    {
        let dp = match find_definition(&self.definitions, id) {
            Some(i) => i,
            None => return Err(PlaylistError::NotFound),
        };
        let mut base: Vec<char> = Vec::new();
        push_all(&mut base, self.definitions[dp].name.as_str());
        push_all(&mut base, " copy");
        let base = string_of(base.as_slice());
        let name = self.unique_copy_name(base.as_str());
        let mut tracks: Vec<TrackRef> = Vec::new();
        let mut k: usize = 0;
        while k < self.definitions[dp].entries.len()
            invariant
                dp < self.definitions.len(),
                k <= self.definitions@[dp as int].entries@.len(),
                tracks@.len() == k,
                forall|j: int| 0 <= j < k ==> #[trigger] tracks@[j] == self.definitions@[dp as int].entries@[j].track,
            decreases self.definitions@[dp as int].entries@.len() - k,
        {
            tracks.push(self.definitions[dp].entries[k].track.duplicate());
            k = k + 1;
        }
        let new_id = match self.allocate("playlist") {
            Ok(i) => i,
            Err(e) => return Err(e),
        };
        let entries = match self.allocate_entries(tracks) {
            Ok(es) => es,
            Err(e) => return Err(e),
        };
        self.definitions.push(PlaylistDefinition { id: new_id.clone(), name, revision: 0, entries });
        insert_fresh_run(&mut self.runs, new_id.clone());
        self.revision = self.revision + 1;
        Ok(new_id)
    }

    /// Append one fresh occurrence per track to playlist `id`; returns the
    /// new entry ids.
    pub fn append(&mut self, id: &str, tracks: Vec<TrackRef>) -> (r: Result<Vec<String>, PlaylistError>)
        requires
            ({
                let dp = def_pos(old(self).definitions@, id@);
                dp >= 0 && old(self).next_id as int + tracks.len() <= u64::MAX && old(self).definitions@[dp].revision
                    < u64::MAX ==> old(self).revision < u64::MAX
            }),
        ensures
            runs_keyed(old(self).runs@) ==> runs_keyed(final(self).runs@),
            ({
                let dp = def_pos(old(self).definitions@, id@);
                let n0 = old(self).next_id;
                if dp == -1 {
                    r == Err::<Vec<String>, PlaylistError>(PlaylistError::NotFound) && *final(self) == *old(self)
                } else if n0 as int + tracks.len() > u64::MAX {
                    &&& r matches Err(PlaylistError::InvalidInput { message })
                    &&& message@ == "id space exhausted"@
                    &&& *final(self) == (Catalog { next_id: u64::MAX, ..*old(self) })
                } else {
                    let d = old(self).definitions@[dp];
                    let nd = final(self).definitions@[dp];
                    &&& final(self).definitions@.len() == old(self).definitions@.len()
                    &&& forall|k: int| 0 <= k < old(self).definitions@.len() && k != dp ==> #[trigger] final(self).definitions@[k] == old(self).definitions@[k]
                    &&& nd.id == d.id && nd.name == d.name
                    &&& nd.entries@.len() == d.entries@.len() + tracks.len()
                    &&& nd.entries@.take(d.entries@.len() as int) == d.entries@
                    &&& forall|k: int| 0 <= k < tracks.len() ==> #[trigger] nd.entries@[d.entries@.len() + k].entry_id@ == alloc_id("entry"@, (n0 + k) as nat) && nd.entries@[d.entries@.len() + k].track == tracks@[k]
                    &&& final(self).next_id == n0 + tracks.len()
                    &&& same_content_but_definitions(*final(self), (Catalog { next_id: final(self).next_id, ..*old(self) }))
                    &&& final(self).generation == old(self).generation
                    &&& final(self).active_id == old(self).active_id
                    &&& if d.revision == u64::MAX {
                        &&& r matches Err(PlaylistError::InvalidInput { message })
                        &&& message@ == "definition revision exhausted"@
                        &&& nd.revision == d.revision
                        &&& final(self).revision == old(self).revision
                    } else {
                        &&& r matches Ok(ids)
                        &&& ids.len() == tracks.len()
                        &&& forall|k: int| 0 <= k < tracks.len() ==> #[trigger] ids@[k]@ == alloc_id("entry"@, (n0 + k) as nat)
                        &&& nd.revision == d.revision + 1
                        &&& final(self).revision == old(self).revision + 1
                    }
                }
            }),
    {
        let dp = match find_definition(&self.definitions, id) {
            Some(i) => i,
            None => return Err(PlaylistError::NotFound),
        };
        let entries = match self.allocate_entries(tracks) {
            Ok(es) => es,
            Err(e) => return Err(e),
        };
        let mut ids: Vec<String> = Vec::new();
        let mut i: usize = 0;
        while i < entries.len()
            invariant
                i <= entries.len(),
                ids.len() == i,
                forall|k: int| 0 <= k < i ==> #[trigger] ids@[k]@ == entries@[k].entry_id@,
            decreases entries.len() - i,
        {
            ids.push(entries[i].entry_id.clone());
            i = i + 1;
        }
        let ghost before = self.definitions@[dp as int].entries@;
        let mut entries = entries;
        self.definitions[dp].entries.append(&mut entries);
        if self.definitions[dp].revision == u64::MAX {
            return Err(PlaylistError::InvalidInput { message: "definition revision exhausted".to_owned() });
        }
        self.definitions[dp].revision = self.definitions[dp].revision + 1;
        self.revision = self.revision + 1;
        Ok(ids)
    }

    /// Rename playlist `id`; the clean name must not clash with another's.
    pub fn rename(&mut self, id: &str, name: &str) -> (r: Result<(), PlaylistError>)
        requires
            ({
                let dp = def_pos(old(self).definitions@, id@);
                match name_key(clean_name(name@)) {
                    Some(key) => !name_taken(old(self).definitions@, key, Some(id@)) && dp >= 0
                        && old(self).definitions@[dp].revision < u64::MAX ==> old(self).revision < u64::MAX,
                    None => true,
                }
            }),
        ensures
            runs_keyed(old(self).runs@) ==> runs_keyed(final(self).runs@),
            ({
                let dp = def_pos(old(self).definitions@, id@);
                match name_key(clean_name(name@)) {
                    None => r matches Err(PlaylistError::InvalidInput { message }) && message@
                        == "playlist name must not be blank or contain control characters"@ && *final(self)
                        == *old(self),
                    Some(key) => if name_taken(old(self).definitions@, key, Some(id@)) {
                        r matches Err(PlaylistError::InvalidInput { message }) && message@
                            == "playlist name already exists"@ && *final(self) == *old(self)
                    } else if dp == -1 {
                        r == Err::<(), PlaylistError>(PlaylistError::NotFound) && *final(self) == *old(self)
                    } else {
                        let d = old(self).definitions@[dp];
                        let nd = final(self).definitions@[dp];
                        &&& final(self).definitions@.len() == old(self).definitions@.len()
                        &&& forall|k: int| 0 <= k < old(self).definitions@.len() && k != dp ==> #[trigger] final(self).definitions@[k] == old(self).definitions@[k]
                        &&& nd.id == d.id && nd.entries == d.entries
                        &&& nd.name@ == clean_name(name@)
                        &&& same_content_but_definitions(*final(self), *old(self))
                        &&& final(self).generation == old(self).generation
                        &&& final(self).active_id == old(self).active_id
                        &&& if d.revision == u64::MAX {
                            &&& r matches Err(PlaylistError::InvalidInput { message })
                            &&& message@ == "definition revision exhausted"@
                            &&& nd.revision == d.revision
                            &&& final(self).revision == old(self).revision
                        } else {
                            &&& r is Ok
                            &&& nd.revision == d.revision + 1
                            &&& final(self).revision == old(self).revision + 1
                        }
                    },
                }
            }),
    {
        let clean = match self.valid_name(name, Some(id)) {
            Ok(n) => n,
            Err(e) => return Err(e),
        };
        let dp = match find_definition(&self.definitions, id) {
            Some(i) => i,
            None => return Err(PlaylistError::NotFound),
        };
        self.definitions[dp].name = clean;
        if self.definitions[dp].revision == u64::MAX {
            return Err(PlaylistError::InvalidInput { message: "definition revision exhausted".to_owned() });
        }
        self.definitions[dp].revision = self.definitions[dp].revision + 1;
        self.revision = self.revision + 1;
        Ok(())
    }


    /// Remove occurrence `entry_id` from playlist `id`, returning what
    /// `undo_remove` needs to restore exactly it.
    pub fn remove(&mut self, id: &str, entry_id: &str) -> (r: Result<RemovedEntry, PlaylistError>)
        requires
            ({
                let rp = run_pos(old(self).runs@, id@);
                let dp = def_pos(old(self).definitions@, id@);
                rp >= 0 && dp >= 0 && entry_pos(old(self).definitions@[dp].entries@, entry_id@) >= 0
                    && old(self).definitions@[dp].revision < u64::MAX ==> old(self).revision < u64::MAX
            }),
        ensures
            runs_keyed(old(self).runs@) ==> runs_keyed(final(self).runs@),
            ({
                let rp = run_pos(old(self).runs@, id@);
                let dp = def_pos(old(self).definitions@, id@);
                if rp == -1 || dp == -1 || entry_pos(old(self).definitions@[dp].entries@, entry_id@) == -1 {
                    r matches Err(PlaylistError::NotFound) && *final(self) == *old(self)
                } else {
                    let d = old(self).definitions@[dp];
                    let run = old(self).runs@[rp].1;
                    let at = entry_pos(d.entries@, entry_id@);
                    let nd = final(self).definitions@[dp];
                    &&& final(self).definitions@.len() == old(self).definitions@.len()
                    &&& forall|k: int| 0 <= k < old(self).definitions@.len() && k != dp ==> #[trigger] final(self).definitions@[k] == old(self).definitions@[k]
                    &&& nd.id == d.id && nd.name == d.name
                    &&& nd.entries@ == d.entries@.remove(at)
                    &&& final(self).current == if current_at(old(self).current, id@, entry_id@) {
                        None
                    } else {
                        old(self).current
                    }
                    &&& final(self).runs == old(self).runs
                    &&& final(self).normal == old(self).normal
                    &&& final(self).schema_version == old(self).schema_version
                    &&& final(self).next_id == old(self).next_id
                    &&& final(self).generation == old(self).generation
                    &&& final(self).active_id == old(self).active_id
                    &&& if d.revision == u64::MAX {
                        &&& r matches Err(PlaylistError::InvalidInput { message })
                        &&& message@ == "definition revision exhausted"@
                        &&& nd.revision == d.revision
                        &&& final(self).revision == old(self).revision
                    } else {
                        &&& r matches Ok(removed)
                        &&& removed.entry == d.entries@[at]
                        &&& opt_view(removed.previous_id) == if at > 0 {
                            Some(d.entries@[at - 1].entry_id@)
                        } else {
                            None
                        }
                        &&& opt_view(removed.following_id) == if at + 1 < d.entries@.len() {
                            Some(d.entries@[at + 1].entry_id@)
                        } else {
                            None
                        }
                        &&& removed.consumed == lists_id(run.consumed@, entry_id@)
                        &&& opt_view(removed.failure) == if fail_pos(run.failures@, entry_id@) >= 0 {
                            Some(run.failures@[fail_pos(run.failures@, entry_id@)].1@)
                        } else {
                            None
                        }
                        &&& removed.run_id == run.run_id
                        &&& nd.revision == d.revision + 1
                        &&& final(self).revision == old(self).revision + 1
                    }
                }
            }),
    {
        let rp = match find_run(&self.runs, id) {
            Some(i) => i,
            None => return Err(PlaylistError::NotFound),
        };
        let dp = match find_definition(&self.definitions, id) {
            Some(i) => i,
            None => return Err(PlaylistError::NotFound),
        };
        let at = match find_entry(&self.definitions[dp].entries, entry_id) {
            Some(i) => i,
            None => return Err(PlaylistError::NotFound),
        };
        let consumed = contains_id(&self.runs[rp].1.consumed, entry_id);
        let failure = match find_failure(&self.runs[rp].1.failures, entry_id) {
            Some(f) => Some(self.runs[rp].1.failures[f].1.clone()),
            None => None,
        };
        let run_id = self.runs[rp].1.run_id;
        let previous_id = if at > 0 {
            Some(self.definitions[dp].entries[at - 1].entry_id.clone())
        } else {
            None
        };
        let following_id = if at + 1 < self.definitions[dp].entries.len() {
            Some(self.definitions[dp].entries[at + 1].entry_id.clone())
        } else {
            None
        };
        let entry = self.definitions[dp].entries.remove(at);
        if current_is_at(&self.current, id, entry_id) {
            self.current = None;
        }
        if self.definitions[dp].revision == u64::MAX {
            return Err(PlaylistError::InvalidInput { message: "definition revision exhausted".to_owned() });
        }
        self.definitions[dp].revision = self.definitions[dp].revision + 1;
        self.revision = self.revision + 1;
        Ok(RemovedEntry { entry, previous_id, following_id, consumed, failure, run_id })
    }

    /// Put back exactly the removed occurrence, anchored on its neighbours
    /// that are still present, and its progress if its run is still current.
    pub fn undo_remove(&mut self, id: &str, removed: RemovedEntry) -> (r: Result<(), PlaylistError>)
        requires
            ({
                let rp = run_pos(old(self).runs@, id@);
                let dp = def_pos(old(self).definitions@, id@);
                dp >= 0 && entry_pos(old(self).definitions@[dp].entries@, removed.entry.entry_id@) == -1
                    && rp >= 0 && old(self).definitions@[dp].revision < u64::MAX ==> old(self).revision
                    < u64::MAX
            }),
        ensures
            runs_keyed(old(self).runs@) ==> runs_keyed(final(self).runs@),
            ({
                let rp = run_pos(old(self).runs@, id@);
                let dp = def_pos(old(self).definitions@, id@);
                if dp == -1 {
                    r matches Err(PlaylistError::NotFound) && *final(self) == *old(self)
                } else if entry_pos(old(self).definitions@[dp].entries@, removed.entry.entry_id@) >= 0 {
                    r matches Err(PlaylistError::DuplicateUndo) && *final(self) == *old(self)
                } else {
                    let d = old(self).definitions@[dp];
                    let nd = final(self).definitions@[dp];
                    let at = undo_position(d.entries@, removed.previous_id, removed.following_id);
                    &&& final(self).definitions@.len() == old(self).definitions@.len()
                    &&& forall|k: int| 0 <= k < old(self).definitions@.len() && k != dp ==> #[trigger] final(self).definitions@[k] == old(self).definitions@[k]
                    &&& nd.id == d.id && nd.name == d.name
                    &&& nd.entries@ == d.entries@.insert(at, removed.entry)
                    &&& final(self).current == old(self).current
                    &&& final(self).normal == old(self).normal
                    &&& final(self).schema_version == old(self).schema_version
                    &&& final(self).next_id == old(self).next_id
                    &&& final(self).generation == old(self).generation
                    &&& final(self).active_id == old(self).active_id
                    &&& if rp == -1 {
                        &&& r matches Err(PlaylistError::NotFound)
                        &&& nd.revision == d.revision
                        &&& final(self).runs == old(self).runs
                        &&& final(self).revision == old(self).revision
                    } else {
                        &&& final(self).runs@.len() == old(self).runs@.len()
                        &&& forall|k: int| 0 <= k < old(self).runs@.len() && k != rp ==> #[trigger] final(self).runs@[k] == old(self).runs@[k]
                        &&& final(self).runs@[rp].0 == old(self).runs@[rp].0
                        &&& progress_restored(old(self).runs@[rp].1, final(self).runs@[rp].1, removed)
                        &&& if d.revision == u64::MAX {
                            &&& r matches Err(PlaylistError::InvalidInput { message })
                            &&& message@ == "definition revision exhausted"@
                            &&& nd.revision == d.revision
                            &&& final(self).revision == old(self).revision
                        } else {
                            &&& r is Ok
                            &&& nd.revision == d.revision + 1
                            &&& final(self).revision == old(self).revision + 1
                        }
                    }
                }
            }),
    {
        let dp = match find_definition(&self.definitions, id) {
            Some(i) => i,
            None => return Err(PlaylistError::NotFound),
        };
        if find_entry(&self.definitions[dp].entries, removed.entry.entry_id.as_str()).is_some() {
            return Err(PlaylistError::DuplicateUndo);
        }
        let following = match &removed.following_id {
            Some(f) => find_entry(&self.definitions[dp].entries, f.as_str()),
            None => None,
        };
        let at = match following {
            Some(i) => i,
            None => {
                let previous = match &removed.previous_id {
                    Some(p) => find_entry(&self.definitions[dp].entries, p.as_str()),
                    None => None,
                };
                match previous {
                    Some(i) => i + 1,
                    None => self.definitions[dp].entries.len(),
                }
            },
        };
        let eid = removed.entry.entry_id.clone();
        let ghost removed0 = removed;
        let ghost old_entries = self.definitions@[dp as int].entries@;
        assert(at == undo_position(old_entries, removed0.previous_id, removed0.following_id));
        let entry = removed.entry;
        self.definitions[dp].entries.insert(at, entry);
        assert(self.definitions@[dp as int].entries@ == old_entries.insert(at as int, removed0.entry));
        let rp = match find_run(&self.runs, id) {
            Some(i) => i,
            None => return Err(PlaylistError::NotFound),
        };
        let ghost old_run = self.runs@[rp as int].1;
        let ghost runs0 = self.runs@;
        if self.runs[rp].1.run_id == removed.run_id {
            if removed.consumed && !contains_id(&self.runs[rp].1.consumed, eid.as_str()) {
                self.runs[rp].1.consumed.push(eid.clone());
            }
            match removed.failure {
                Some(reason) => {
                    match find_failure(&self.runs[rp].1.failures, eid.as_str()) {
                        Some(f) => {
                            let key = self.runs[rp].1.failures[f].0.clone();
                            let ghost before = self.runs@[rp as int].1.failures@;
                            self.runs[rp].1.failures.set(f, (key, reason));
                            assert(self.runs@[rp as int].1.failures@ == before.update(f as int, (before[f as int].0, removed0.failure->0)));
                        },
                        None => {
                            let ghost before = self.runs@[rp as int].1.failures@;
                            self.runs[rp].1.failures.push((eid, reason));
                            assert(self.runs@[rp as int].1.failures@.drop_last() == before);
                            assert(self.runs@[rp as int].1.failures@.last().1 == removed0.failure->0);
                        },
                    }
                },
                None => {},
            }
        }
        assert(self.runs@[rp as int].1.run_id == old_run.run_id);
        assert(old_run.run_id == removed0.run_id && removed0.consumed && !lists_id(old_run.consumed@, removed0.entry.entry_id@) ==> self.runs@[rp as int].1.consumed@.drop_last() == old_run.consumed@);
        assert(!(old_run.run_id == removed0.run_id && removed0.consumed && !lists_id(old_run.consumed@, removed0.entry.entry_id@)) ==> self.runs@[rp as int].1.consumed == old_run.consumed);
        assert(removed0.failure is None ==> self.runs@[rp as int].1.failures == old_run.failures);
        assert(progress_restored(old_run, self.runs@[rp as int].1, removed0));
        proof {
            assert(self.runs@ =~= runs0.update(rp as int, (runs0[rp as int].0, self.runs@[rp as int].1)));
            if runs_keyed(runs0) {
                lemma_restored_keyed(old_run, self.runs@[rp as int].1, removed0);
                lemma_runs_keyed_update(runs0, rp as int, self.runs@[rp as int].1);
            }
        }
        if self.definitions[dp].revision == u64::MAX {
            return Err(PlaylistError::InvalidInput { message: "definition revision exhausted".to_owned() });
        }
        self.definitions[dp].revision = self.definitions[dp].revision + 1;
        self.revision = self.revision + 1;
        Ok(())
    }


    /// On app restart the playing occurrence was already consumed: hand it
    /// back, and un-consume it, only if its membership and run still hold.
    pub fn resume_after_restart(&mut self) -> (r: Option<CurrentOccurrence>)
        requires
            old(self).current is Some ==> old(self).revision < u64::MAX,
        ensures
            runs_keyed(old(self).runs@) ==> runs_keyed(final(self).runs@),
            match old(self).current {
                None => r is None && *final(self) == *old(self),
                Some(c) => if c.origin == PlaybackOrigin::Normal {
                    &&& r == Some(c)
                    &&& *final(self) == (Catalog { current: None, revision: (old(self).revision + 1) as u64, ..*old(self) })
                } else {
                    match c.playlist_id {
                        None => r is None && *final(self) == *old(self),
                        Some(id) => {
                            let rp = run_pos(old(self).runs@, id@);
                            let dp = def_pos(old(self).definitions@, id@);
                            if rp == -1 {
                                r is None && *final(self) == *old(self)
                            } else if old(self).runs@[rp].1.run_id != c.run_id {
                                r is None && *final(self) == (Catalog { current: None, revision: (old(self).revision + 1) as u64, ..*old(self) })
                            } else if dp == -1 {
                                r is None && *final(self) == *old(self)
                            } else if !has_entry(old(self).definitions@[dp].entries@, c.entry_id) {
                                r is None && *final(self) == (Catalog { current: None, revision: (old(self).revision + 1) as u64, ..*old(self) })
                            } else {
                                let run = old(self).runs@[rp].1;
                                &&& r == Some(c)
                                &&& final(self).current is None
                                &&& final(self).revision == old(self).revision + 1
                                &&& final(self).runs@.len() == old(self).runs@.len()
                                &&& forall|k: int| 0 <= k < old(self).runs@.len() && k != rp ==> #[trigger] final(self).runs@[k] == old(self).runs@[k]
                                &&& final(self).runs@[rp].0 == old(self).runs@[rp].0
                                &&& final(self).runs@[rp].1.run_id == run.run_id
                                &&& final(self).runs@[rp].1.failures == run.failures
                                &&& final(self).runs@[rp].1.consumed@ == without_id(run.consumed@, c.entry_id->0@)
                                &&& final(self).definitions == old(self).definitions
                                &&& final(self).generation == old(self).generation
                                &&& final(self).active_id == old(self).active_id
                                &&& final(self).normal == old(self).normal
                                &&& final(self).schema_version == old(self).schema_version
                                &&& final(self).next_id == old(self).next_id
                            }
                        },
                    }
                },
            },
    {
        let current = match &self.current {
            Some(c) => copy_current(c),
            None => return None,
        };
        if current.origin == PlaybackOrigin::Normal {
            self.current = None;
            self.revision = self.revision + 1;
            return Some(current);
        }
        let id = match &current.playlist_id {
            Some(p) => p.clone(),
            None => return None,
        };
        let rp = match find_run(&self.runs, id.as_str()) {
            Some(i) => i,
            None => return None,
        };
        if self.runs[rp].1.run_id != current.run_id {
            self.current = None;
            self.revision = self.revision + 1;
            return None;
        }
        let dp = match find_definition(&self.definitions, id.as_str()) {
            Some(i) => i,
            None => return None,
        };
        let eid = match &current.entry_id {
            Some(e) => e.clone(),
            None => {
                self.current = None;
                self.revision = self.revision + 1;
                return None;
            },
        };
        if find_entry(&self.definitions[dp].entries, eid.as_str()).is_none() {
            self.current = None;
            self.revision = self.revision + 1;
            return None;
        }
        let ghost runs0 = self.runs@;
        remove_id(&mut self.runs[rp].1.consumed, eid.as_str());
        proof {
            assert(self.runs@ =~= runs0.update(rp as int, (runs0[rp as int].0, self.runs@[rp as int].1)));
            if runs_keyed(runs0) {
                lemma_without_id_distinct(runs0[rp as int].1.consumed@, eid@);
                lemma_runs_keyed_update(runs0, rp as int, self.runs@[rp as int].1);
            }
        }
        self.current = None;
        self.revision = self.revision + 1;
        Some(current)
    }

    /// Apply one engine or resolver observation to the catalog occurrence it
    /// is about. The occurrence's membership and run come from the catalog,
    /// not from the event; a failure counts only with a non-blank reason,
    /// which is kept the first time. Returns whether the observation was
    /// accepted.
    pub fn observe_progress(&mut self, claim: Option<&Claim>, observation: Observation, reason: Option<&str>) -> (r: bool)
        requires
            ({
                let cv = claim_view(claim);
                match identity_of(cv, observation@) {
                    Some(ident) => {
                        let before = progress_of(*old(self), ident);
                        let u = observe_spec(
                            target_of(*old(self), ident),
                            before,
                            cv,
                            with_reason(observation@, reason_given(reason)),
                        );
                        u.accepted is Some && u.progress != before ==> old(self).revision < u64::MAX
                    },
                    None => true,
                }
            }),
        ensures
            runs_keyed(old(self).runs@) ==> runs_keyed(final(self).runs@),
            ({
                let cv = claim_view(claim);
                match identity_of(cv, observation@) {
                    None => !r && *final(self) == *old(self),
                    Some(ident) => {
                        let before = progress_of(*old(self), ident);
                        let u = observe_spec(
                            target_of(*old(self), ident),
                            before,
                            cv,
                            with_reason(observation@, reason_given(reason)),
                        );
                        let rp = run_pos(old(self).runs@, ident.playlist);
                        if u.accepted is None {
                            !r && *final(self) == *old(self)
                        } else if u.progress == before {
                            r && *final(self) == *old(self)
                        } else {
                            &&& r
                            &&& rp >= 0
                            &&& final(self).runs@ == old(self).runs@.update(rp, (old(self).runs@[rp].0, final(self).runs@[rp].1))
                            &&& progress_recorded(
                                old(self).runs@[rp].1,
                                final(self).runs@[rp].1,
                                ident.entry,
                                before,
                                u.progress,
                                reason_text(reason),
                            )
                            &&& *final(self) == (Catalog {
                                runs: final(self).runs,
                                revision: (old(self).revision + 1) as u64,
                                ..*old(self)
                            })
                        }
                    },
                }
            }),
    {
        let (pid, eid): (String, String) = match &observation {
            Observation::Unavailable { occurrence, .. } => (occurrence.playlist.clone(), occurrence.entry.clone()),
            _ => match claim {
                Some(c) => (c.occurrence.playlist.clone(), c.occurrence.entry.clone()),
                None => return false,
            },
        };
        let present = match reason {
            Some(text) => {
                let cs = chars_of(text);
                trim_chars(cs.as_slice()).len() > 0
            },
            None => false,
        };
        let obs = match observation {
            Observation::Failed { index, .. } => Observation::Failed { index, reason_present: present },
            Observation::Unavailable { occurrence, .. } => Observation::Unavailable {
                occurrence,
                reason_present: present,
            },
            other => other,
        };
        let dp = find_definition(&self.definitions, pid.as_str());
        let rp = find_run(&self.runs, pid.as_str());
        let target: Option<Occurrence> = match dp {
            Some(d) => match rp {
                Some(k) => {
                    if find_entry(&self.definitions[d].entries, eid.as_str()).is_some() {
                        Some(Occurrence { playlist: pid.clone(), run: self.runs[k].1.run_id, entry: eid.clone() })
                    } else {
                        None
                    }
                },
                None => None,
            },
            None => None,
        };
        let before = match rp {
            Some(k) => Progress {
                consumed: contains_id(&self.runs[k].1.consumed, eid.as_str()),
                failed: find_failure(&self.runs[k].1.failures, eid.as_str()).is_some(),
            },
            None => Progress { consumed: false, failed: false },
        };
        let target_ref: Option<&Occurrence> = match &target {
            Some(t) => Some(t),
            None => None,
        };
        let update = observe(target_ref, before, claim, &obs);
        if update.accepted.is_none() {
            return false;
        }
        if update.progress == before {
            return true;
        }
        let ghost ident = OccurrenceView { playlist: pid@, run: 0, entry: eid@ };
        assert(obs@ == with_reason(observation@, reason_given(reason)));
        assert(identity_of(claim_view(claim), observation@) matches Some(i) && i.playlist == pid@ && i.entry == eid@);
        assert(before == progress_of(*old(self), ident));
        assert(target_ref matches Some(t) ==> Some(t@) == target_of(*old(self), ident));
        assert(target_ref is None ==> target_of(*old(self), ident) is None);
        let k = match rp {
            Some(k) => k,
            None => return true,
        };
        let ghost old_self = *self;
        if update.progress.consumed && !before.consumed {
            self.runs[k].1.consumed.push(eid.clone());
        }
        if update.progress.failed && !before.failed {
            let why: String = match reason {
                Some(text) => text.to_owned(),
                None => String::new(),
            };
            self.runs[k].1.failures.push((eid, why));
        }
        self.revision = self.revision + 1;
        assert(self.runs@ == old_self.runs@.update(k as int, (old_self.runs@[k as int].0, self.runs@[k as int].1)));
        assert(update.progress.consumed && !before.consumed ==> self.runs@[k as int].1.consumed@.drop_last() == old_self.runs@[k as int].1.consumed@);
        assert(update.progress.failed && !before.failed ==> self.runs@[k as int].1.failures@.drop_last() == old_self.runs@[k as int].1.failures@);
        assert(progress_recorded(old_self.runs@[k as int].1, self.runs@[k as int].1, eid@, before, update.progress, reason_text(reason)));
        proof {
            if runs_keyed(old_self.runs@) {
                lemma_recorded_keyed(old_self.runs@[k as int].1, self.runs@[k as int].1, eid@, before, update.progress, reason_text(reason));
                lemma_runs_keyed_update(old_self.runs@, k as int, self.runs@[k as int].1);
            }
        }
        true
    }

    /// Record that occurrence `entry` of run `run` of playlist `id` could not
    /// be played, for `reason`. Returns whether it was accepted.
    pub fn unavailable(&mut self, id: &str, run: u64, entry: &str, reason: &str) -> (r: bool)
        requires
            ({
                let ident = OccurrenceView { playlist: id@, run, entry: entry@ };
                let before = progress_of(*old(self), ident);
                let u = observe_spec(
                    target_of(*old(self), ident),
                    before,
                    None,
                    ObservationView::Unavailable { occurrence: ident, reason_present: trimmed(reason@).len() > 0 },
                );
                u.accepted is Some && u.progress != before ==> old(self).revision < u64::MAX
            }),
        ensures
            runs_keyed(old(self).runs@) ==> runs_keyed(final(self).runs@),
            ({
                let ident = OccurrenceView { playlist: id@, run, entry: entry@ };
                let before = progress_of(*old(self), ident);
                let accepted = target_of(*old(self), ident) == Some(ident) && trimmed(reason@).len() > 0;
                let rp = run_pos(old(self).runs@, id@);
                &&& r == accepted
                &&& !accepted || (before.consumed && before.failed) ==> *final(self) == *old(self)
                &&& accepted && !(before.consumed && before.failed) ==> {
                    &&& final(self).runs@ == old(self).runs@.update(rp, (old(self).runs@[rp].0, final(self).runs@[rp].1))
                    &&& progress_recorded(
                        old(self).runs@[rp].1,
                        final(self).runs@[rp].1,
                        entry@,
                        before,
                        Progress { consumed: true, failed: true },
                        reason@,
                    )
                    &&& *final(self) == (Catalog {
                        runs: final(self).runs,
                        revision: (old(self).revision + 1) as u64,
                        ..*old(self)
                    })
                }
            }),
    {
        let occurrence = Occurrence { playlist: id.to_owned(), run, entry: entry.to_owned() };
        self.observe_progress(None, Observation::Unavailable { occurrence, reason_present: false }, Some(reason))
    }

    /// Whether the catalog is consistent, or the first thing wrong with it:
    /// the schema, then each playlist in turn (unique id and name, a run,
    /// occurrences with a content hash and ids unique across the catalog),
    /// then orphaned runs or source, then the interrupted current.
    #[verifier::loop_isolation(false)]
    pub fn validate(&self) -> (r: Result<(), PlaylistError>)
        ensures
            match verdict(*self) {
                Verdict::Valid => r is Ok,
                Verdict::Missing => r == Err::<(), PlaylistError>(PlaylistError::NotFound),
                Verdict::Invalid(m) => r matches Err(PlaylistError::InvalidInput { message }) && message@ == m,
            },
    {
        if self.schema_version != SCHEMA_VERSION {
            return Err(PlaylistError::InvalidInput { message: "unsupported schema".to_owned() });
        }
        let ghost c = *self;
        let ghost defs = self.definitions@;
        let mut keys: Vec<String> = Vec::new();
        let mut seen: Vec<String> = Vec::new();
        let mut i: usize = 0;
        assert(defs.take(0) =~= seq![]);
        while i < self.definitions.len()
            invariant
                c == *self,
                defs == self.definitions@,
                i <= defs.len(),
                keys.len() == i,
                forall|j: int| 0 <= j < i ==> name_key(#[trigger] defs[j].name@) == Some(keys@[j]@),
                id_views(seen@) == all_entry_ids(defs.take(i as int)),
                first_definition_error(c, 0) == first_definition_error(c, i as int),
            decreases defs.len() - i,
        {
            let d = &self.definitions[i];
            let mut j: usize = 0;
            while j < i
                invariant
                    j <= i < defs.len(),
                    defs == self.definitions@,
                    *d == defs[i as int],
                    forall|q: int| 0 <= q < j ==> #[trigger] defs[q].id@ != d.id@,
                decreases i - j,
            {
                if same_text(self.definitions[j].id.as_str(), d.id.as_str()) {
                    proof {
                        assert(defs[j as int].id@ == d.id@);
                        assert(definition_error(c, i as int) == Some("duplicate playlist id or name"@));
                        reveal_with_fuel(first_definition_error, 2);
                    }
                    return Err(PlaylistError::InvalidInput { message: "duplicate playlist id or name".to_owned() });
                }
                j = j + 1;
            }
            let key = match normalized_name(d.name.as_str()) {
                Some(k) => k,
                None => {
                    proof {
                        assert(definition_error(c, i as int) == Some("invalid playlist name"@));
                        reveal_with_fuel(first_definition_error, 2);
                    }
                    return Err(PlaylistError::InvalidInput { message: "invalid playlist name".to_owned() });
                },
            };
            let mut j: usize = 0;
            while j < i
                invariant
                    j <= i < defs.len(),
                    keys.len() == i,
                    forall|q: int| 0 <= q < i ==> name_key(#[trigger] defs[q].name@) == Some(keys@[q]@),
                    forall|q: int| 0 <= q < j ==> #[trigger] keys@[q]@ != key@,
                decreases i - j,
            {
                if keys[j] == key {
                    proof {
                        assert(name_key(defs[j as int].name@) == Some(key@));
                        assert(definition_error(c, i as int) == Some("duplicate playlist id or name"@));
                        reveal_with_fuel(first_definition_error, 2);
                    }
                    return Err(PlaylistError::InvalidInput { message: "duplicate playlist id or name".to_owned() });
                }
                j = j + 1;
            }
            proof {
                assert forall|q: int| 0 <= q < i implies #[trigger] name_key(defs[q].name@) != Some(key@) by {
                    assert(keys@[q]@ != key@);
                }
            }
            if find_run(&self.runs, d.id.as_str()).is_none() {
                proof {
                    assert(definition_error(c, i as int) == Some("playlist has no run"@));
                    reveal_with_fuel(first_definition_error, 2);
                }
                return Err(PlaylistError::InvalidInput { message: "playlist has no run".to_owned() });
            }
            assert(definition_error(c, i as int) == first_entry_error(defs, i as int, 0));
            let ghost es = d.entries@;
            let mut k: usize = 0;
            assert(es.take(0) =~= seq![]);
            assert(all_entry_ids(defs.take(i as int)) + entry_ids(es.take(0)) =~= all_entry_ids(defs.take(i as int)));
            while k < d.entries.len()
                invariant
                    i < defs.len(),
                    *d == defs[i as int],
                    es == d.entries@,
                    k <= es.len(),
                    id_views(seen@) == all_entry_ids(defs.take(i as int)) + entry_ids(es.take(k as int)),
                    first_entry_error(defs, i as int, 0) == first_entry_error(defs, i as int, k as int),
                decreases es.len() - k,
            {
                let e = &d.entries[k];
                if text_is_empty(&e.track.content_hash) {
                    proof {
                        assert(entry_error(defs, i as int, k as int) == Some("playlist track has no content hash"@));
                        reveal_with_fuel(first_entry_error, 2);
                        reveal_with_fuel(first_definition_error, 2);
                    }
                    return Err(PlaylistError::InvalidInput { message: "playlist track has no content hash".to_owned() });
                }
                if contains_id(&seen, e.entry_id.as_str()) {
                    proof {
                        let q = choose|q: int| 0 <= q < seen@.len() && #[trigger] seen@[q]@ == e.entry_id@;
                        assert(id_views(seen@)[q] == e.entry_id@);
                        assert(entry_error(defs, i as int, k as int) == Some("duplicate entry id"@));
                        reveal_with_fuel(first_entry_error, 2);
                        reveal_with_fuel(first_definition_error, 2);
                    }
                    return Err(PlaylistError::InvalidInput { message: "duplicate entry id".to_owned() });
                }
                proof {
                    if id_views(seen@).contains(e.entry_id@) {
                        let q = choose|q: int| 0 <= q < id_views(seen@).len() && id_views(seen@)[q] == e.entry_id@;
                        assert(seen@[q]@ == e.entry_id@);
                    }
                    assert(entry_error(defs, i as int, k as int) is None);
                }
                let ghost old_seen = seen@;
                seen.push(e.entry_id.clone());
                k = k + 1;
                proof {
                    assert(id_views(seen@) =~= id_views(old_seen).push(e.entry_id@));
                    assert(es.take(k as int).drop_last() =~= es.take(k as int - 1));
                    assert(entry_ids(es.take(k as int)) =~= entry_ids(es.take(k as int - 1)).push(es[k as int - 1].entry_id@));
                    assert(id_views(seen@) =~= all_entry_ids(defs.take(i as int)) + entry_ids(es.take(k as int)));
                }
            }
            proof {
                assert(first_entry_error(defs, i as int, k as int) is None);
                assert(definition_error(c, i as int) is None);
                assert(defs.take(i as int + 1).drop_last() =~= defs.take(i as int));
                assert(es.take(k as int) =~= es);
                assert(all_entry_ids(defs.take(i as int + 1)) == all_entry_ids(defs.take(i as int)) + entry_ids(es));
            }
            keys.push(key);
            i = i + 1;
        }
        assert(first_definition_error(c, 0) is None);
        let mut k: usize = 0;
        while k < self.runs.len()
            invariant
                c == *self,
                k <= self.runs.len(),
                forall|q: int| 0 <= q < k ==> defines(c.definitions@, #[trigger] c.runs@[q].0@),
            decreases self.runs.len() - k,
        {
            if !defines_id(&self.definitions, self.runs[k].0.as_str()) {
                return Err(PlaylistError::InvalidInput { message: "orphan playlist state".to_owned() });
            }
            k = k + 1;
        }
        match &self.active_id {
            Some(a) => {
                if !defines_id(&self.definitions, a.as_str()) {
                    return Err(PlaylistError::InvalidInput { message: "orphan playlist state".to_owned() });
                }
            },
            None => {},
        }
        assert(!orphaned(c));
        match &self.current {
            None => Ok(()),
            Some(cur) => match cur.origin {
                PlaybackOrigin::Normal => {
                    if cur.playlist_id.is_some() || cur.entry_id.is_some() || cur.queue_origin.is_none() {
                        Err(PlaylistError::InvalidInput { message: "normal current lacks normal identity".to_owned() })
                    } else {
                        Ok(())
                    }
                },
                PlaybackOrigin::Playlist => {
                    let id = match &cur.playlist_id {
                        Some(p) => p,
                        None => {
                            return Err(PlaylistError::InvalidInput {
                                message: "playlist current lacks playlist id".to_owned(),
                            })
                        },
                    };
                    if cur.queue_origin.is_some() || text_is_empty(&cur.track_ref.content_hash) {
                        return Err(PlaylistError::InvalidInput { message: "invalid playlist current".to_owned() });
                    }
                    let run = match self.run(id.as_str()) {
                        Ok(run) => run,
                        Err(e) => return Err(e),
                    };
                    if run.run_id != cur.run_id {
                        return Err(PlaylistError::InvalidInput { message: "invalid playlist current".to_owned() });
                    }
                    let def = match self.definition(id.as_str()) {
                        Ok(d) => d,
                        Err(e) => return Err(e),
                    };
                    let listed = match &cur.entry_id {
                        Some(e) => find_entry(&def.entries, e.as_str()).is_some(),
                        None => false,
                    };
                    if !listed {
                        return Err(PlaylistError::InvalidInput { message: "invalid playlist current".to_owned() });
                    }
                    Ok(())
                },
            },
        }
    }

    /// `Ok` when playlist `id`'s run is still `expected`.
    pub fn check_run(&self, id: &str, expected: u64) -> (r: Result<(), PlaylistError>)
        ensures
            run_pos(self.runs@, id@) == -1 ==> r == Err::<(), PlaylistError>(PlaylistError::NotFound),
            run_pos(self.runs@, id@) >= 0 ==> (r is Ok <==> self.runs@[run_pos(self.runs@, id@)].1.run_id
                == expected),
            run_pos(self.runs@, id@) >= 0 && r is Err ==> r == Err::<(), PlaylistError>(PlaylistError::Stale),
    {
        match self.run(id) {
            Ok(run) => {
                if run.run_id == expected {
                    Ok(())
                } else {
                    Err(PlaylistError::Stale)
                }
            },
            Err(e) => Err(e),
        }
    }
}

} // verus!

verus! {

/// Undoing a removal puts the occurrence back exactly where it was: taken
/// out at `at`, with its neighbours recorded, it is re-inserted at `at`.
pub proof fn lemma_undo_restores_position(es: Seq<Entry>, at: int, previous: Option<String>, following: Option<String>)
    requires
        entry_ids(es).no_duplicates(),
        0 <= at < es.len(),
        opt_view(previous) == if at > 0 {
            Some(es[at - 1].entry_id@)
        } else {
            None
        },
        opt_view(following) == if at + 1 < es.len() {
            Some(es[at + 1].entry_id@)
        } else {
            None
        },
    ensures
        es.remove(at).insert(undo_position(es.remove(at), previous, following), es[at]) == es,
{
    let r = es.remove(at);
    assert forall|a: int, b: int| 0 <= a < b < r.len() implies #[trigger] r[a].entry_id@ != #[trigger] r[b].entry_id@ by {
        let ia = if a < at { a } else { a + 1 };
        let ib = if b < at { b } else { b + 1 };
        assert(entry_ids(es)[ia] != entry_ids(es)[ib]);
    }
    if at + 1 < es.len() {
        let fo = following->0;
        let f = |e: Entry| e.entry_id@ == fo@;
        assert(r[at] == es[at + 1]);
        assert forall|j: int| 0 <= j < at implies !f(#[trigger] r[j]) by {
            assert(r[j].entry_id@ != r[at].entry_id@);
        }
        lemma_first_pos_is(r, f, at);
        assert(entry_pos(r, fo@) == at);
    } else if at > 0 {
        let pr = previous->0;
        let f = |e: Entry| e.entry_id@ == pr@;
        assert(r[at - 1] == es[at - 1]);
        assert forall|j: int| 0 <= j < at - 1 implies !f(#[trigger] r[j]) by {
            assert(r[j].entry_id@ != r[at - 1].entry_id@);
        }
        lemma_first_pos_is(r, f, at - 1);
        assert(entry_pos(r, pr@) == at - 1);
    } else {
        assert(undo_position(r, previous, following) == r.len());
    }
    assert(r.insert(at, es[at]) =~= es);
}

/// Undoing a removal restores the progress the run had recorded for the
/// occurrence: its consumption and its failure reason, nothing else.
pub proof fn lemma_undo_restores_progress(run: Run, removed: RemovedEntry, new: Run)
    requires
        removed.run_id == run.run_id,
        removed.consumed == lists_id(run.consumed@, removed.entry.entry_id@),
        opt_view(removed.failure) == if fail_pos(run.failures@, removed.entry.entry_id@) >= 0 {
            Some(run.failures@[fail_pos(run.failures@, removed.entry.entry_id@)].1@)
        } else {
            None
        },
        progress_restored(run, new, removed),
    ensures
        new.run_id == run.run_id,
        new.consumed == run.consumed,
        new.failures@.len() == run.failures@.len(),
        forall|k: int| 0 <= k < run.failures@.len() ==> #[trigger] new.failures@[k].0 == run.failures@[k].0
            && new.failures@[k].1@ == run.failures@[k].1@,
{
    let p = fail_pos(run.failures@, removed.entry.entry_id@);
    if p >= 0 {
        lemma_first_pos(run.failures@, |f: (String, String)| f.0@ == removed.entry.entry_id@);
    }
}

} // verus!
