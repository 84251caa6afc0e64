//! What the tag editor shows of a library track and what an edit request
//! turns into: embedded genres as automatic tags, the resolved year, the
//! effective tags with their origins, and the patch the store applies.
use vstd::prelude::*;

use crate::metadata::{resolution, resolve_year, Metadata, ResolutionView, YearCandidate, YearResolution};
use crate::tags::{
    effective_for, effective_sorted, effective_tags, key_of, lists_effective, lists_key, auto_live, tag_value,
    copy_tags, EffectiveTag, StoreError, Tag, TagKind, TagOrigin, TrackManualState, TrackTagPatch, YearState, MAX_SCALARS,
    MAX_TAGS, folded,
};
use crate::text::{decimal, decimal_chars, has_control, push_all, string_of};

verus! {

/// The metadata format a library entry must have been probed with for its
/// embedded tags to count.
pub const METADATA_VERSION: u32 = 1;

/// What the tag service reads of a library entry: the content hash and the
/// embedded metadata probed for it.
#[derive(Debug, PartialEq, Eq)]
pub struct LibraryEntry {
    pub hash: String,
    pub metadata_version: u32,
    pub metadata_error: Option<String>,
    pub embedded_metadata: Option<Metadata>,
}

#[derive(Debug, PartialEq, Eq)]
pub struct CommandError {
    pub code: String,
    pub message: String,
}

#[derive(Debug, PartialEq, Eq)]
pub struct Target {
    pub path: String,
    pub expected_hash: String,
}

#[derive(Debug, PartialEq, Eq)]
pub struct Patch {
    pub year_change: Option<YearState>,
    pub add: Vec<Tag>,
    pub remove: Vec<Tag>,
}

#[derive(Debug, PartialEq, Eq)]
pub struct UpdateRequest {
    pub targets: Vec<Target>,
    pub expected_revision: String,
    pub patch: Patch,
}

/// One tag as the editor shows it.
#[derive(Debug, PartialEq, Eq)]
pub struct TagView {
    pub key: String,
    pub kind: String,
    pub value: String,
    pub origin: String,
}

#[derive(Debug, PartialEq, Eq)]
pub struct ManualView {
    pub year: YearState,
    pub manual_additions: Vec<Tag>,
    pub suppressed_auto_tags: Vec<Tag>,
}

#[derive(Debug, PartialEq, Eq)]
pub struct TrackState {
    pub content_hash: Option<String>,
    pub effective: Vec<TagView>,
    pub manual: ManualView,
    pub auto_year: Option<u16>,
    pub year_status: String,
    pub metadata_status: String,
    pub candidates: Vec<YearCandidate>,
    pub diagnostics: Vec<String>,
}

/// The editor's view of the library, keyed by path.
#[derive(Debug, PartialEq, Eq)]
pub struct Snapshot {
    pub revision: String,
    pub ready: bool,
    pub store_status: String,
    pub tracks: Vec<(String, TrackState)>,
}

#[derive(Debug, PartialEq, Eq)]
pub struct UpdateResult {
    pub snapshot: Snapshot,
    pub changed: usize,
    pub no_op: usize,
}

/// An error whose message is its code.
pub fn error(code: &str) -> (r: CommandError)
    ensures
        r.code@ == code@,
        r.message@ == code@,
{
    CommandError { code: code.to_owned(), message: code.to_owned() }
}

/// The code a store error is reported by.
pub open spec fn store_error_code(e: StoreError) -> Seq<char> {
    match e {
        StoreError::ReadOnly(_) => "store_read_only"@,
        StoreError::Conflict => "stale_revision"@,
        StoreError::Busy => "busy"@,
        StoreError::InvalidPatch => "invalid_input"@,
        StoreError::Io(_) => "persist_failed"@,
    }
}

/// Report a store error by its code.
pub fn store_error(e: &StoreError) -> (r: CommandError)
    ensures
        r.code@ == store_error_code(*e),
        r.message@ == store_error_code(*e),
{
    match e {
        StoreError::ReadOnly(_) => error("store_read_only"),
        StoreError::Conflict => error("stale_revision"),
        StoreError::Busy => error("busy"),
        StoreError::InvalidPatch => error("invalid_input"),
        StoreError::Io(_) => error("persist_failed"),
    }
}

/// A value `Tag::new` accepts once trimmed and composed.
pub open spec fn usable_value(v: Seq<char>) -> bool {
    v.len() > 0 && !has_control(v) && v.len() <= MAX_SCALARS
}

/// The tag values of the genres that make usable tags, in order.
pub open spec fn genre_values(genres: Seq<String>) -> Seq<Seq<char>>
    decreases genres.len(),
{
    if genres.len() == 0 {
        seq![]
    } else {
        let rest = genre_values(genres.drop_last());
        let v = tag_value(genres.last()@);
        if usable_value(v) {
            rest.push(v)
        } else {
            rest
        }
    }
}

/// The entry was probed with the current format and without error.
pub open spec fn entry_current(e: LibraryEntry) -> bool {
    e.metadata_version == METADATA_VERSION && e.metadata_error is None
}

/// The values of an entry's automatic tags: its embedded genres, when its
/// metadata is current.
pub open spec fn auto_values(e: LibraryEntry) -> Seq<Seq<char>> {
    match e.embedded_metadata {
        Some(m) if entry_current(e) => genre_values(m.genres@),
        _ => seq![],
    }
}

/// `tags` are genre tags with exactly the values `values`.
pub open spec fn genre_tags(tags: Seq<Tag>, values: Seq<Seq<char>>) -> bool {
    tags.len() == values.len() && forall|k: int| 0 <= k < tags.len() ==> #[trigger] tags[k].kind == TagKind::Genre && tags[k].value@ == values[k]
}

/// The automatic tags of a library entry.
pub fn auto_tags(entry: &LibraryEntry) -> (r: Vec<Tag>)
    ensures
        genre_tags(r@, auto_values(*entry)),
{
    if entry.metadata_version != METADATA_VERSION || entry.metadata_error.is_some() {
        return Vec::new();
    }
    let m = match &entry.embedded_metadata {
        Some(m) => m,
        None => return Vec::new(),
    };
    let mut out: Vec<Tag> = Vec::new();
    let mut i: usize = 0;
    assert(m.genres@.take(0) =~= seq![]);
    while i < m.genres.len()
        invariant
            i <= m.genres.len(),
            genre_tags(out@, genre_values(m.genres@.take(i as int))),
        decreases m.genres.len() - i,
    {
        let ghost before = out@;
        assert(m.genres@.take(i as int + 1).drop_last() =~= m.genres@.take(i as int));
        match Tag::new(TagKind::Genre, m.genres[i].as_str()) {
            Ok(t) => {
                out.push(t);
            },
            Err(_) => {},
        }
        i = i + 1;
        assert(genre_tags(out@, genre_values(m.genres@.take(i as int))));
    }
    assert(m.genres@.take(m.genres.len() as int) =~= m.genres@);
    out
}

/// The contract of `effective_tags`: the effective tag of every key that is
/// live, once each, in display order.
pub open spec fn effective_result(auto: Seq<Tag>, manual: TrackManualState, r: Seq<EffectiveTag>) -> bool {
    &&& forall|k: int| 0 <= k < r.len() ==> effective_for(#[trigger] r[k], auto, manual, key_of(r[k].tag))
    &&& forall|a: int, b: int| 0 <= a < b < r.len() ==> key_of(#[trigger] r[a].tag) != key_of(#[trigger] r[b].tag)
    &&& effective_sorted(r)
    &&& forall|k: (TagKind, Seq<char>)|
        auto_live(auto, manual, k) || lists_key(manual.manual_additions@, k) ==> #[trigger] lists_effective(r, k)
}

pub open spec fn kind_name(k: TagKind) -> Seq<char> {
    match k {
        TagKind::Genre => "genre"@,
        TagKind::Custom => "custom"@,
    }
}

pub open spec fn origin_name(o: TagOrigin) -> Seq<char> {
    match o {
        TagOrigin::Embedded => "embedded"@,
        TagOrigin::Manual => "manual"@,
        TagOrigin::Both => "both"@,
    }
}

/// `v` shows effective tag `e`: key `"{kind}:{folded value}"`.
pub open spec fn shows(v: TagView, e: EffectiveTag) -> bool {
    &&& v.key@ == kind_name(e.tag.kind) + ":"@ + folded(e.tag.value@)
    &&& v.kind@ == kind_name(e.tag.kind)
    &&& v.value@ == e.tag.value@
    &&& v.origin@ == origin_name(e.origin)
}

/// `vs` show the tags `es`, one for one.
pub open spec fn shows_all(vs: Seq<TagView>, es: Seq<EffectiveTag>) -> bool {
    vs.len() == es.len() && forall|k: int| 0 <= k < vs.len() ==> #[trigger] shows(vs[k], es[k])
}

fn kind_text(k: TagKind) -> (r: &'static str)
    ensures
        r@ == kind_name(k),
{
    match k {
        TagKind::Genre => "genre",
        TagKind::Custom => "custom",
    }
}

fn origin_text(o: TagOrigin) -> (r: &'static str)
    ensures
        r@ == origin_name(o),
{
    match o {
        TagOrigin::Embedded => "embedded",
        TagOrigin::Manual => "manual",
        TagOrigin::Both => "both",
    }
}

/// How the editor shows one effective tag.
pub fn tag_view(e: &EffectiveTag) -> (r: TagView)
    ensures
        shows(r, *e),
{
    let key = e.tag.key();
    let kind = kind_text(e.tag.kind);
    let mut k: Vec<char> = Vec::new();
    push_all(&mut k, kind);
    push_all(&mut k, ":");
    push_all(&mut k, key.value.as_str());
    TagView {
        key: string_of(k.as_slice()),
        kind: kind.to_owned(),
        value: e.tag.value.clone(),
        origin: origin_text(e.origin).to_owned(),
    }
}

/// Where a track's metadata stands: probing failed, it is current, or it
/// is still to be probed.
pub open spec fn metadata_status(entry: Option<LibraryEntry>) -> Seq<char> {
    match entry {
        Some(e) if e.metadata_error is Some => "error"@,
        Some(e) if e.metadata_version == METADATA_VERSION && e.embedded_metadata is Some => "ready"@,
        _ => "pending"@,
    }
}

pub open spec fn year_status(r: ResolutionView) -> Seq<char> {
    match r {
        ResolutionView::Ready { .. } => "resolved"@,
        ResolutionView::Missing => "missing"@,
        ResolutionView::Future => "future"@,
        ResolutionView::Conflict => "conflict"@,
        ResolutionView::Invalid => "invalid"@,
    }
}

/// The embedded candidates of an entry, none without metadata.
pub open spec fn entry_candidates(entry: Option<LibraryEntry>) -> Seq<YearCandidate> {
    match entry {
        Some(e) => match e.embedded_metadata {
            Some(m) => m.year_candidates@,
            None => seq![],
        },
        None => seq![],
    }
}

/// The diagnostics an entry's metadata carries, then its probe error.
pub open spec fn entry_diagnostics(entry: Option<LibraryEntry>) -> Seq<Seq<char>> {
    let base = match entry {
        Some(e) => match e.embedded_metadata {
            Some(m) => m.diagnostics@.map_values(|d: String| d@),
            None => seq![],
        },
        None => seq![],
    };
    match entry {
        Some(e) => match e.metadata_error {
            Some(err) => base.push(err@),
            None => base,
        },
        None => base,
    }
}

/// The entry's metadata is current and was probed without error.
pub open spec fn metadata_ready(entry: Option<LibraryEntry>) -> bool {
    match entry {
        Some(e) => e.metadata_error is None && e.metadata_version == METADATA_VERSION && e.embedded_metadata is Some,
        None => false,
    }
}

/// The automatic year: the resolved one, and only for ready metadata.
pub open spec fn auto_year(entry: Option<LibraryEntry>, current_year: u16) -> Option<u16> {
    if metadata_ready(entry) {
        match resolution(entry_candidates(entry), current_year) {
            ResolutionView::Ready { year, .. } => Some(year),
            _ => None,
        }
    } else {
        None
    }
}

/// The year shown: set by hand, cleared by hand, or the automatic one.
pub open spec fn effective_year(year: YearState, auto: Option<u16>) -> Option<u16> {
    match year {
        YearState::Auto => auto,
        YearState::SetTo { value } => Some(value),
        YearState::Unset => None,
    }
}

/// The view of the effective year.
pub open spec fn year_view_ok(v: TagView, value: u16, manual: bool) -> bool {
    &&& v.key@ == "year:"@ + decimal(value as nat)
    &&& v.kind@ == "year"@
    &&& v.value@ == decimal(value as nat)
    &&& v.origin@ == if manual { "manual"@ } else { "embedded"@ }
}

/// The tags `r` shows: the automatic tags `auto` of the entry resolve with
/// the manual state to `res`; over the limit only the manual ones, `shown`,
/// are displayed and a diagnostic says so; the effective year comes first.
pub open spec fn tags_shown(
    r: TrackState,
    e: Option<LibraryEntry>,
    manual: TrackManualState,
    ey: Option<u16>,
    auto: Seq<Tag>,
    res: Seq<EffectiveTag>,
    shown: Seq<EffectiveTag>,
) -> bool {
    &&& genre_tags(auto, match e {
        Some(x) => auto_values(x),
        None => seq![],
    })
    &&& effective_result(auto, manual, res)
    &&& if res.len() > MAX_TAGS {
        effective_result(seq![], manual, shown)
    } else {
        shown == res
    }
    &&& r.diagnostics@.map_values(|d: String| d@) == if res.len() > MAX_TAGS {
        entry_diagnostics(e).push("too_many_effective_tags"@)
    } else {
        entry_diagnostics(e)
    }
    &&& match ey {
        Some(y) => r.effective@.len() == shown.len() + 1 && year_view_ok(r.effective@[0], y, manual.year is SetTo)
            && shows_all(r.effective@.skip(1), shown),
        None => shows_all(r.effective@, shown),
    }
}

fn year_view(value: u16, manual: bool) -> (r: TagView)
    ensures
        year_view_ok(r, value, manual),
{
    let d = decimal_chars(value as u64);
    let ds = string_of(d.as_slice());
    let mut k: Vec<char> = Vec::new();
    push_all(&mut k, "year:");
    push_all(&mut k, ds.as_str());
    TagView {
        key: string_of(k.as_slice()),
        kind: "year".to_owned(),
        value: ds,
        origin: if manual {
            "manual".to_owned()
        } else {
            "embedded".to_owned()
        },
    }
}

fn views_of(es: &Vec<EffectiveTag>) -> (r: Vec<TagView>)
    ensures
        shows_all(r@, es@),
{
    let mut out: Vec<TagView> = Vec::new();
    let mut i: usize = 0;
    while i < es.len()
        invariant
            i <= es.len(),
            out.len() == i,
            forall|k: int| 0 <= k < i ==> #[trigger] shows(out@[k], es@[k]),
        decreases es.len() - i,
    {
        out.push(tag_view(&es[i]));
        i = i + 1;
    }
    out
}

fn copy_candidates(cs: &Vec<YearCandidate>) -> (r: Vec<YearCandidate>)
    ensures
        r@ == cs@,
{
    let mut out: Vec<YearCandidate> = Vec::new();
    let mut i: usize = 0;
    while i < cs.len()
        invariant
            i <= cs.len(),
            out@ == cs@.take(i as int),
        decreases cs.len() - i,
    {
        out.push(cs[i].duplicate());
        i = i + 1;
        assert(out@ =~= cs@.take(i as int));
    }
    assert(cs@.take(cs.len() as int) =~= cs@);
    out
}

/// Everything `track_state` shows of one track.
pub open spec fn track_state_holds(r: TrackState, e: Option<LibraryEntry>, manual: TrackManualState, current_year: u16) -> bool {
    let ay = auto_year(e, current_year);
    let ey = effective_year(manual.year, ay);
    &&& r.content_hash matches Some(h) ==> (e matches Some(x) && h@ == x.hash@)
    &&& r.content_hash is None ==> e is None
    &&& r.metadata_status@ == metadata_status(e)
    &&& r.year_status@ == year_status(resolution(entry_candidates(e), current_year))
    &&& r.auto_year == ay
    &&& r.candidates@ == entry_candidates(e)
    &&& r.manual.year == manual.year
    &&& r.manual.manual_additions@ == manual.manual_additions@
    &&& r.manual.suppressed_auto_tags@ == manual.suppressed_auto_tags@
    &&& exists|auto: Seq<Tag>, res: Seq<EffectiveTag>, shown: Seq<EffectiveTag>|
        #[trigger] tags_shown(r, e, manual, ey, auto, res, shown)
}

/// Everything the editor shows of one track: where its metadata stands,
/// the automatic year and how it resolved, the manual state, and the
/// effective tags, the year first. An effective set over the limit is a
/// diagnosed error: only the manual tags are shown then.
pub fn track_state(entry: Option<&LibraryEntry>, manual: &TrackManualState, current_year: u16) -> (r: TrackState)
    ensures
        track_state_holds(
            r,
            match entry {
                Some(x) => Some(*x),
                None => None,
            },
            *manual,
            current_year,
        ),
{
    let ghost e = match entry {
        Some(x) => Some(*x),
        None => None::<LibraryEntry>,
    };
    let ghost manual_ghost = *manual;
    let candidates: Vec<YearCandidate> = match entry {
        Some(x) => match &x.embedded_metadata {
            Some(m) => copy_candidates(&m.year_candidates),
            None => Vec::new(),
        },
        None => Vec::new(),
    };
    let mut diagnostics: Vec<String> = Vec::new();
    match entry {
        Some(x) => match &x.embedded_metadata {
            Some(m) => {
                let mut i: usize = 0;
                while i < m.diagnostics.len()
                    invariant
                        i <= m.diagnostics.len(),
                        diagnostics@.map_values(|d: String| d@) == m.diagnostics@.take(i as int).map_values(|d: String| d@),
                    decreases m.diagnostics.len() - i,
                {
                    let ghost before = diagnostics@;
                    let d = m.diagnostics[i].clone();
                    assert(d@ == m.diagnostics@[i as int]@);
                    diagnostics.push(d);
                    i = i + 1;
                    assert(m.diagnostics@.take(i as int) =~= m.diagnostics@.take(i as int - 1).push(m.diagnostics@[i as int - 1]));
                    assert(diagnostics@.map_values(|d: String| d@) =~= before.map_values(|d: String| d@).push(m.diagnostics@[i as int - 1]@));
                    assert(diagnostics@.map_values(|d: String| d@) =~= m.diagnostics@.take(i as int).map_values(|d: String| d@));
                }
                assert(m.diagnostics@.take(m.diagnostics.len() as int) =~= m.diagnostics@);
            },
            None => {},
        },
        None => {},
    }
    let status: &str = match entry {
        Some(x) => {
            match &x.metadata_error {
                Some(err) => {
                    diagnostics.push(err.clone());
                    "error"
                },
                None => {
                    if x.metadata_version == METADATA_VERSION && x.embedded_metadata.is_some() {
                        "ready"
                    } else {
                        "pending"
                    }
                },
            }
        },
        None => "pending",
    };
    assert(diagnostics@.map_values(|d: String| d@) =~= entry_diagnostics(e));
    let resolved_year = resolve_year(candidates.as_slice(), current_year);
    let (ay, ys): (Option<u16>, &str) = match resolved_year {
        YearResolution::Ready { year, .. } => (Some(year), "resolved"),
        YearResolution::Missing => (None, "missing"),
        YearResolution::Future { .. } => (None, "future"),
        YearResolution::Conflict { .. } => (None, "conflict"),
        YearResolution::Invalid { .. } => (None, "invalid"),
    };
    let ready = match entry {
        Some(x) => x.metadata_error.is_none() && x.metadata_version == METADATA_VERSION && x.embedded_metadata.is_some(),
        None => false,
    };
    let ay = if ready {
        ay
    } else {
        None
    };
    let auto: Vec<Tag> = match entry {
        Some(x) => auto_tags(x),
        None => Vec::new(),
    };
    let res = effective_tags(auto.as_slice(), manual);
    let ghost res_v = res@;
    let too_many = res.len() > MAX_TAGS;
    let shown = if too_many {
        diagnostics.push("too_many_effective_tags".to_owned());
        let empty: Vec<Tag> = Vec::new();
        effective_tags(empty.as_slice(), manual)
    } else {
        res
    };
    let ghost shown_v = shown@;
    let tail = views_of(&shown);
    let ey = match manual.year {
        YearState::Auto => ay,
        YearState::SetTo { value } => Some(value),
        YearState::Unset => None,
    };
    let effective = match ey {
        Some(y) => {
            let manual_year = match manual.year {
                YearState::SetTo { .. } => true,
                _ => false,
            };
            let mut v: Vec<TagView> = Vec::new();
            v.push(year_view(y, manual_year));
            let mut i: usize = 0;
            let mut tail = tail;
            let ghost t0 = tail@;
            while tail.len() > 0
                invariant
                    v.len() == 1 + i,
                    year_view_ok(v@[0], y, manual_year),
                    tail@ == t0.skip(i as int),
                    i <= t0.len(),
                    forall|k: int| 0 <= k < i ==> #[trigger] v@[k + 1] == t0[k],
                decreases tail.len(),
            {
                let t = tail.remove(0);
                v.push(t);
                i = i + 1;
                assert(tail@ =~= t0.skip(i as int));
            }
            assert(v@.skip(1) =~= t0);
            v
        },
        None => tail,
    };
    let content_hash = match entry {
        Some(x) => Some(x.hash.clone()),
        None => None,
    };
    let r = TrackState {
        content_hash,
        effective,
        manual: ManualView {
            year: manual.year,
            manual_additions: copy_tags(&manual.manual_additions),
            suppressed_auto_tags: copy_tags(&manual.suppressed_auto_tags),
        },
        auto_year: ay,
        year_status: ys.to_owned(),
        metadata_status: status.to_owned(),
        candidates,
        diagnostics,
    };
    proof {
        let mg = manual_ghost;
        assert(genre_tags(auto@, match e {
            Some(x) => auto_values(x),
            None => seq![],
        }));
        assert(effective_result(auto@, mg, res_v));
        assert(if res_v.len() > MAX_TAGS {
            effective_result(seq![], mg, shown_v)
        } else {
            shown_v == res_v
        });
        assert(r.diagnostics@.map_values(|d: String| d@) == if res_v.len() > MAX_TAGS {
            entry_diagnostics(e).push("too_many_effective_tags"@)
        } else {
            entry_diagnostics(e)
        });
        let ey = effective_year(mg.year, auto_year(e, current_year));
        assert(tags_shown(r, e, mg, ey, auto@, res_v, shown_v));
        assert(track_state_holds(r, e, mg, current_year));
    }
    r
}

/// The revision the editor's snapshot carries: it changes with the
/// session, each publication of library data, the year and the store.
pub fn snapshot_revision(session: &str, epoch: u64, year: u16, store_revision: &str) -> (r: String)
    ensures
        r@ == session@ + "/"@ + decimal(epoch as nat) + "/"@ + decimal(year as nat) + "/"@ + store_revision@,
{
    let mut out: Vec<char> = Vec::new();
    push_all(&mut out, session);
    push_all(&mut out, "/");
    let e = decimal_chars(epoch);
    let es = string_of(e.as_slice());
    push_all(&mut out, es.as_str());
    push_all(&mut out, "/");
    let y = decimal_chars(year as u64);
    let ys = string_of(y.as_slice());
    push_all(&mut out, ys.as_str());
    push_all(&mut out, "/");
    push_all(&mut out, store_revision);
    string_of(out.as_slice())
}

/// The patch a request describes, each tag normalized as `Tag::new` would;
/// a tag it refuses makes the request invalid.
pub fn normalize_patch(patch: Patch) -> (r: Result<TrackTagPatch, CommandError>)
    ensures
        match r {
            Ok(p) => p.year_change == patch.year_change && p.add.len() == patch.add.len() && p.remove.len()
                == patch.remove.len() && (forall|k: int| 0 <= k < p.add.len() ==> #[trigger] p.add@[k].kind
                == patch.add@[k].kind && p.add@[k].value@ == tag_value(patch.add@[k].value@)) && (forall|k: int|
                0 <= k < p.remove.len() ==> #[trigger] p.remove@[k].kind == patch.remove@[k].kind
                && p.remove@[k].value@ == tag_value(patch.remove@[k].value@)),
            Err(e) => e.code@ == "invalid_input"@ && ((exists|k: int| 0 <= k < patch.add.len() && !usable_value(tag_value(#[trigger] patch.add@[k].value@)))
                || (exists|k: int| 0 <= k < patch.remove.len() && !usable_value(tag_value(#[trigger] patch.remove@[k].value@)))),
        },
        (forall|k: int| 0 <= k < patch.add.len() ==> usable_value(tag_value(#[trigger] patch.add@[k].value@))) && (forall|k: int|
            0 <= k < patch.remove.len() ==> usable_value(tag_value(#[trigger] patch.remove@[k].value@))) ==> r is Ok,
{
    let add = match normalize_tags(&patch.add) {
        Ok(v) => v,
        Err(e) => return Err(e),
    };
    let remove = match normalize_tags(&patch.remove) {
        Ok(v) => v,
        Err(e) => return Err(e),
    };
    Ok(TrackTagPatch { year_change: patch.year_change, add, remove })
}

fn normalize_tags(tags: &Vec<Tag>) -> (r: Result<Vec<Tag>, CommandError>)
    ensures
        match r {
            Ok(v) => v.len() == tags.len() && forall|k: int| 0 <= k < v.len() ==> #[trigger] v@[k].kind == tags@[k].kind
                && v@[k].value@ == tag_value(tags@[k].value@),
            Err(e) => e.code@ == "invalid_input"@ && exists|k: int| 0 <= k < tags.len() && !usable_value(tag_value(#[trigger] tags@[k].value@)),
        },
        (forall|k: int| 0 <= k < tags.len() ==> usable_value(tag_value(#[trigger] tags@[k].value@))) ==> r is Ok,
{
    let mut out: Vec<Tag> = Vec::new();
    let mut i: usize = 0;
    while i < tags.len()
        invariant
            i <= tags.len(),
            out.len() == i,
            forall|k: int| 0 <= k < i ==> #[trigger] out@[k].kind == tags@[k].kind && out@[k].value@ == tag_value(tags@[k].value@),
        decreases tags.len() - i,
    {
        match Tag::new(tags[i].kind, tags[i].value.as_str()) {
            Ok(t) => out.push(t),
            Err(_) => {
                assert(!usable_value(tag_value(tags@[i as int].value@)));
                return Err(error("invalid_input"));
            },
        }
        i = i + 1;
    }
    Ok(out)
}

/// The library entry known at `path`: that of the first row for it, when
/// the row has one.
pub open spec fn entry_at(library: Seq<(String, Option<LibraryEntry>)>, path: Seq<char>) -> Option<LibraryEntry>
    decreases library.len(),
{
    if library.len() == 0 {
        None
    } else if library[0].0@ == path {
        library[0].1
    } else {
        entry_at(library.drop_first(), path)
    }
}

/// The hashes the targets `ts` name, checked in order: the first target
/// without a known entry is `identity_unavailable`, the first whose hash
/// or file fingerprint (`fingerprint_ok`) changed is `identity_changed`.
pub open spec fn checked_hashes(
    library: Seq<(String, Option<LibraryEntry>)>,
    ts: Seq<Target>,
    fingerprint_ok: Seq<bool>,
) -> Result<Seq<Seq<char>>, Seq<char>>
    decreases ts.len(),
{
    if ts.len() == 0 {
        Ok(seq![])
    } else {
        match checked_hashes(library, ts.drop_last(), fingerprint_ok) {
            Err(e) => Err(e),
            Ok(hs) => {
                let i = ts.len() - 1;
                match entry_at(library, ts[i].path@) {
                    None => Err("identity_unavailable"@),
                    Some(e) => if ts[i].expected_hash@ != e.hash@ || !fingerprint_ok[i] {
                        Err("identity_changed"@)
                    } else {
                        Ok(hs.push(e.hash@))
                    },
                }
            },
        }
    }
}

fn find_entry_at<'a>(library: &'a [(String, Option<LibraryEntry>)], path: &String) -> (r: Option<&'a LibraryEntry>)
    ensures
        match r {
            Some(e) => entry_at(library@, path@) == Some(*e),
            None => entry_at(library@, path@) is None,
        },
{
    let mut i: usize = 0;
    assert(library@.skip(0) =~= library@);
    while i < library.len()
        invariant
            i <= library.len(),
            entry_at(library@, path@) == entry_at(library@.skip(i as int), path@),
        decreases library.len() - i,
    {
        proof {
            let rest = library@.skip(i as int);
            assert(rest[0] == library@[i as int]);
            assert(rest.drop_first() =~= library@.skip(i as int + 1));
        }
        if library[i].0.as_str().to_owned() == path.as_str().to_owned() {
            return match &library[i].1 {
                Some(e) => Some(e),
                None => None,
            };
        }
        i = i + 1;
    }
    None
}

/// The hashes an edit request names, once it may go ahead: refused while
/// the library is not ready (`identity_unavailable`), when the revision the
/// editor saw is not `current_revision` (`stale_revision`), when it names no
/// track (`invalid_input`), and at the first target that fails
/// [`checked_hashes`]. `fingerprint_ok` says, per target, whether its file
/// still has the modification time and size its entry was hashed with.
#[verifier::loop_isolation(false)]
pub fn target_hashes(
    ready: bool,
    current_revision: &str,
    request: &UpdateRequest,
    library: &[(String, Option<LibraryEntry>)],
    fingerprint_ok: &[bool],
) -> (r: Result<Vec<String>, CommandError>)
    requires
        fingerprint_ok.len() == request.targets.len(),
    ensures
        !ready ==> (r matches Err(e) && e.code@ == "identity_unavailable"@),
        ready && request.expected_revision@ != current_revision@ ==> (r matches Err(e) && e.code@ == "stale_revision"@),
        ready && request.expected_revision@ == current_revision@ && request.targets.len() == 0 ==> (r matches Err(e)
            && e.code@ == "invalid_input"@),
        ready && request.expected_revision@ == current_revision@ && request.targets.len() > 0 ==> match checked_hashes(
            library@,
            request.targets@,
            fingerprint_ok@,
        ) {
            Ok(hs) => r matches Ok(v) && v@.map_values(|h: String| h@) == hs,
            Err(code) => r matches Err(e) && e.code@ == code,
        },
{
    if !ready {
        return Err(error("identity_unavailable"));
    }
    if request.expected_revision.as_str().to_owned() != current_revision.to_owned() {
        return Err(error("stale_revision"));
    }
    if request.targets.len() == 0 {
        return Err(error("invalid_input"));
    }
    let ts = &request.targets;
    let mut out: Vec<String> = Vec::new();
    let mut i: usize = 0;
    assert(ts@.take(0) =~= seq![]);
    assert(out@.map_values(|h: String| h@) =~= seq![]);
    while i < ts.len()
        invariant
            i <= ts.len(),
            fingerprint_ok.len() == ts.len(),
            checked_hashes(library@, ts@.take(i as int), fingerprint_ok@) == Ok::<Seq<Seq<char>>, Seq<char>>(
                out@.map_values(|h: String| h@),
            ),
        decreases ts.len() - i,
    {
        proof {
            let t = ts@.take(i as int + 1);
            assert(t.drop_last() =~= ts@.take(i as int));
            assert(t[i as int] == ts@[i as int]);
        }
        let target = &ts[i];
        let entry = match find_entry_at(library, &target.path) {
            Some(e) => e,
            None => {
                proof {
                    lemma_checked_err_stays(library@, ts@, fingerprint_ok@, i as int + 1, "identity_unavailable"@);
                }
                return Err(error("identity_unavailable"));
            },
        };
        if target.expected_hash.as_str().to_owned() != entry.hash.as_str().to_owned() || !fingerprint_ok[i] {
            proof {
                lemma_checked_err_stays(library@, ts@, fingerprint_ok@, i as int + 1, "identity_changed"@);
            }
            return Err(error("identity_changed"));
        }
        let ghost before = out@;
        out.push(entry.hash.clone());
        assert(out@.map_values(|h: String| h@) =~= before.map_values(|h: String| h@).push(entry.hash@));
        i = i + 1;
    }
    assert(ts@.take(ts.len() as int) =~= ts@);
    Ok(out)
}

/// Once a prefix of the targets fails, every longer prefix fails the same way.
proof fn lemma_checked_err_stays(
    library: Seq<(String, Option<LibraryEntry>)>,
    ts: Seq<Target>,
    fp: Seq<bool>,
    n: int,
    code: Seq<char>,
)
    requires
        0 < n <= ts.len(),
        checked_hashes(library, ts.take(n), fp) == Err::<Seq<Seq<char>>, Seq<char>>(code),
    ensures
        checked_hashes(library, ts, fp) == Err::<Seq<Seq<char>>, Seq<char>>(code),
    decreases ts.len() - n,
{
    if n == ts.len() {
        assert(ts.take(n) =~= ts);
    } else {
        assert(ts.take(n + 1).drop_last() =~= ts.take(n));
        lemma_checked_err_stays(library, ts, fp, n + 1, code);
    }
}

} // verus!
