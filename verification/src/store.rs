//! The library's pure bookkeeping around persisted state: timestamps,
//! restart restoration of the queue and folder cursor, map keys, and the
//! aggregation of flagged transitions.
use vstd::prelude::*;

use crate::playlists::{keys_distinct, lemma_keyed_store};
use crate::queue::{contains_path, paths_view};
use crate::text::{chars_of, push_all, push_padded, string_of, trim_chars, trimmed, zero_padded};

verus! {

pub open spec fn year_of_era(doe: int) -> int {
    (doe - doe / 1460 + doe / 36524 - doe / 146096) / 365
}

pub open spec fn day_of_year(doe: int) -> int {
    let yoe = year_of_era(doe);
    doe - (365 * yoe + yoe / 4 - yoe / 100)
}

proof fn lemma_era_bounds(doe: u32)
    by (bit_vector)
    requires
        doe < 146097u32,
    ensures
        doe / 1460 <= doe,
        doe - doe / 1460 + doe / 36524 >= doe / 146096,
        (doe - doe / 1460 + doe / 36524 - doe / 146096) / 365 <= 399,
        365 * ((doe - doe / 1460 + doe / 36524 - doe / 146096) / 365) + ((doe
            - doe / 1460 + doe / 36524 - doe / 146096) / 365) / 4 - ((doe - doe
            / 1460 + doe / 36524 - doe / 146096) / 365) / 100 <= doe,
        doe - (365 * ((doe - doe / 1460 + doe / 36524 - doe / 146096) / 365) + ((
        doe - doe / 1460 + doe / 36524 - doe / 146096) / 365) / 4 - ((doe - doe
            / 1460 + doe / 36524 - doe / 146096) / 365) / 100) <= 365,
{
}


proof fn lemma_month_bounds(doy: u32)
    by (bit_vector)
    requires
        doy <= 365u32,
    ensures
        (5 * doy + 2) / 153 <= 11,
        (153 * ((5 * doy + 2) / 153) + 2) / 5 <= doy,
        doy - (153 * ((5 * doy + 2) / 153) + 2) / 5 + 1 <= 31,
{
}

/// Days since 1970-01-01 (UTC) as a proleptic Gregorian `(year, month,
/// day)`, by the era/year-of-era/day-of-year decomposition.
pub open spec fn civil(days: int) -> (int, int, int) {
    let z = days + 719468;
    let era = z / 146097;
    let doe = z % 146097;
    let yoe = year_of_era(doe);
    let y = yoe + era * 400;
    let doy = day_of_year(doe);
    let mp = (5 * doy + 2) / 153;
    let d = doy - (153 * mp + 2) / 5 + 1;
    let m = if mp < 10 {
        mp + 3
    } else {
        mp - 9
    };
    (if m <= 2 {
        y + 1
    } else {
        y
    }, m, d)
}

/// The largest day count that `u64` seconds can reach.
pub const MAX_DAYS: u64 = 213_503_982_334_601;

/// Days since 1970-01-01 (UTC) → `(year, month, day)`.
pub fn civil_from_days(days: u64) -> (r: (i32, u32, u32))
    requires
        days <= MAX_DAYS,
    ensures
        r.0 == civil(days as int).0 as i32,
        r.1 == civil(days as int).1,
        r.2 == civil(days as int).2,
        1 <= r.1 <= 12,
        1 <= r.2 <= 31,
{
    let z = days + 719_468;
    let era = z / 146_097;
    let doe = (z % 146_097) as u32;
    proof {
        lemma_era_bounds(doe);
    }
    let yoe = (doe - doe / 1460 + doe / 36524 - doe / 146_096) / 365;
    let y = yoe as i64 + (era as i64) * 400;
    let doy = doe - (365 * yoe + yoe / 4 - yoe / 100);
    proof {
        lemma_month_bounds(doy);
    }
    let mp = (5 * doy + 2) / 153;
    let d = doy - (153 * mp + 2) / 5 + 1;
    let m = if mp < 10 {
        mp + 3
    } else {
        mp - 9
    };
    let year = if m <= 2 {
        y + 1
    } else {
        y
    };
    (year as i32, m, d)
}

/// `format!("{year:04}")`: the sign, then the magnitude zero-padded so that
/// sign and digits take at least four characters.
pub open spec fn year_text(year: int) -> Seq<char> {
    if year >= 0 {
        zero_padded(year as nat, 4)
    } else {
        seq!['-'] + zero_padded((-year) as nat, 3)
    }
}

/// `YYYY-MM-DDTHH:MM:SSZ` for `secs` seconds after the UNIX epoch.
pub open spec fn rfc3339(secs: nat) -> Seq<char> {
    let days = secs / 86400;
    let rem = secs % 86400;
    let c = civil(days as int);
    year_text((c.0 as i32) as int) + "-"@ + zero_padded(c.1 as nat, 2) + "-"@ + zero_padded(
        c.2 as nat,
        2,
    ) + "T"@ + zero_padded(rem / 3600, 2) + ":"@ + zero_padded((rem % 3600) / 60, 2) + ":"@
        + zero_padded(rem % 60, 2) + "Z"@
}

/// Seconds since UNIX epoch → `YYYY-MM-DDTHH:MM:SSZ` (UTC; leap seconds
/// ignored).
pub fn utc_rfc3339_from_unix_secs(secs: u64) -> (r: String)
    ensures
        r@ == rfc3339(secs as nat),
{
    let days = secs / 86_400;
    let rem = secs % 86_400;
    let hour = rem / 3_600;
    let minute = (rem % 3_600) / 60;
    let second = rem % 60;
    let (year, month, day) = civil_from_days(days);
    let mut out: Vec<char> = Vec::new();
    if year >= 0 {
        push_padded(&mut out, year as u64, 4);
    } else {
        push_all(&mut out, "-");
        let magnitude = -(year as i64);
        push_padded(&mut out, magnitude as u64, 3);
    }
    push_all(&mut out, "-");
    push_padded(&mut out, month as u64, 2);
    push_all(&mut out, "-");
    push_padded(&mut out, day as u64, 2);
    push_all(&mut out, "T");
    push_padded(&mut out, hour, 2);
    push_all(&mut out, ":");
    push_padded(&mut out, minute, 2);
    push_all(&mut out, ":");
    push_padded(&mut out, second, 2);
    push_all(&mut out, "Z");
    proof {
        reveal_strlit("-");
        reveal_strlit("T");
        reveal_strlit(":");
        reveal_strlit("Z");
    }
    assert(out@ =~= rfc3339(secs as nat));
    string_of(out.as_slice())
}


/// `SystemTime::now().duration_since(UNIX_EPOCH)` in whole seconds: the wall
/// clock, so nothing is promised of the value; `None` when the clock reads
/// before the epoch.
#[verifier::external_body]
fn unix_secs_now() -> (r: Option<u64>) {
    std::time::SystemTime::now().duration_since(std::time::UNIX_EPOCH).ok().map(|d| d.as_secs())
}

/// Current UTC time as RFC 3339 with second precision (the epoch when the
/// clock reads before it).
pub fn utc_rfc3339_now() -> (r: String)
    ensures
        exists|secs: u64| r@ == rfc3339(secs as nat),
{
    let secs = match unix_secs_now() {
        Some(s) => s,
        None => 0,
    };
    utc_rfc3339_from_unix_secs(secs)
}

/// `s` without its `-` and `:` characters.
pub open spec fn without_separators(s: Seq<char>) -> Seq<char>
    decreases s.len(),
{
    if s.len() == 0 {
        s
    } else if s.last() == '-' || s.last() == ':' {
        without_separators(s.drop_last())
    } else {
        without_separators(s.drop_last()).push(s.last())
    }
}

/// `2026-08-05T13:37:00Z` → `20260805T133700Z` for feedback ZIP filenames.
pub fn feedback_filename_stamp(sent_at: &str) -> (r: String)
    ensures
        r@ == without_separators(sent_at@),
{
    let v = chars_of(sent_at);
    let mut out: Vec<char> = Vec::new();
    let mut i: usize = 0;
    while i < v.len()
        invariant
            i <= v.len(),
            out@ == without_separators(v@.take(i as int)),
        decreases v.len() - i,
    {
        assert(v@.take(i as int + 1).drop_last() =~= v@.take(i as int));
        let c = v[i];
        if c != '-' && c != ':' {
            out.push(c);
        }
        i = i + 1;
    }
    assert(v@.take(v.len() as int) =~= v@);
    string_of(out.as_slice())
}

/// Playback state restored across a restart: the tracks already taken out of
/// `pending` but not finished playing (index 0 is the engine's active
/// track), and whether the transport was paused.
#[derive(Debug, Default, Clone, PartialEq)]
pub struct Session {
    pub in_flight: Vec<String>,
    pub paused: bool,
}

impl Session {
    pub fn new() -> (r: Session)
        ensures
            r.in_flight@.len() == 0,
            !r.paused,
    {
        Session { in_flight: Vec::new(), paused: false }
    }
}

/// User-configurable app settings.
#[derive(Debug, Default, Clone, PartialEq, Eq)]
pub struct Settings {
    /// The folder the listener picked; `None` until one is chosen.
    pub music_dir: Option<String>,
    /// When `false`, analysed non-Funkot tracks cannot be enqueued and are
    /// skipped by the folder drain.
    pub allow_non_funkot: bool,
}

/// Bar counts the user corrected by hand for one track. `None` sides were
/// never touched and follow the analyzer.
#[derive(Debug, Default, Clone, Copy, PartialEq, Eq)]
pub struct BarOverride {
    pub intro_bars: Option<u32>,
    /// The structural outro boundary, not the mix trigger.
    pub outro_structure_bars: Option<u32>,
    /// Manual Funkot / non-Funkot override; `None` follows analysis.
    pub funkot: Option<bool>,
}

/// Effective Funkot flag: the override when set, else the analysis.
pub fn effective_is_funkot(analysis_is_funkot: bool, override_funkot: Option<bool>) -> (r: bool)
    ensures
        r == match override_funkot {
            Some(v) => v,
            None => analysis_is_funkot,
        },
{
    match override_funkot {
        Some(v) => v,
        None => analysis_is_funkot,
    }
}

/// `a`, a TAB, then `b`.
pub open spec fn tab_joined(a: Seq<char>, b: Seq<char>) -> Seq<char> {
    a + seq!['\t'] + b
}

fn tab_join(a: &str, b: &str) -> (r: String)
    ensures
        r@ == tab_joined(a@, b@),
{
    let mut out: Vec<char> = Vec::new();
    push_all(&mut out, a);
    out.push('\t');
    push_all(&mut out, b);
    assert(out@ =~= tab_joined(a@, b@));
    string_of(out.as_slice())
}

/// The map key for a flagged transition pair: `"from_hash\tto_hash"`.
pub fn flag_key(from_hash: &str, to_hash: &str) -> (r: String)
    ensures
        r@ == tab_joined(from_hash@, to_hash@),
{
    tab_join(from_hash, to_hash)
}

/// The key of a dismissed track×role row: `"track_hash\trole"`.
pub fn dismiss_key(track_hash: &str, role: &str) -> (r: String)
    ensures
        r@ == tab_joined(track_hash@, role@),
{
    tab_join(track_hash, role)
}

/// `s` with the paths rejected by `keep`, and repeats of paths already in
/// `seen` or earlier in `s`, dropped.
pub open spec fn kept_paths(s: Seq<Seq<char>>, keep: Seq<bool>, seen: Seq<Seq<char>>) -> Seq<
    Seq<char>,
>
    decreases s.len(),
{
    if s.len() == 0 {
        Seq::empty()
    } else if keep[0] && !seen.contains(s[0]) {
        seq![s[0]] + kept_paths(s.drop_first(), keep.drop_first(), seen.push(s[0]))
    } else {
        kept_paths(s.drop_first(), keep.drop_first(), seen)
    }
}

proof fn lemma_kept_paths_step(s: Seq<Seq<char>>, keep: Seq<bool>, seen: Seq<Seq<char>>, i: int)
    requires
        0 <= i < s.len(),
        keep.len() == s.len(),
    ensures
        kept_paths(s.take(i + 1), keep.take(i + 1), seen) == if keep[i] && !(seen + kept_paths(
            s.take(i),
            keep.take(i),
            seen,
        )).contains(s[i]) {
            kept_paths(s.take(i), keep.take(i), seen).push(s[i])
        } else {
            kept_paths(s.take(i), keep.take(i), seen)
        },
    decreases i,
{
    let s1 = s.take(i + 1);
    let k1 = keep.take(i + 1);
    if i == 0 {
        assert(s1.drop_first() =~= Seq::<Seq<char>>::empty());
        assert(s.take(0) =~= Seq::<Seq<char>>::empty());
        assert(keep.take(0) =~= Seq::<bool>::empty());
        assert(seen + Seq::<Seq<char>>::empty() =~= seen);
        assert(k1[0] == keep[0]);
        assert(s1[0] == s[0]);
        assert(k1.drop_first() =~= Seq::<bool>::empty());
        assert(kept_paths(s1.drop_first(), k1.drop_first(), seen.push(s[0])) =~= Seq::<Seq<char>>::empty());
        assert(kept_paths(s1.drop_first(), k1.drop_first(), seen) =~= Seq::<Seq<char>>::empty());
        assert(kept_paths(s.take(0), keep.take(0), seen) =~= Seq::<Seq<char>>::empty());
        if keep[0] && !seen.contains(s[0]) {
            assert(kept_paths(s1, k1, seen) =~= seq![s[0]]);
            assert(Seq::<Seq<char>>::empty().push(s[0]) =~= seq![s[0]]);
        }
    } else {
        let t = s.drop_first();
        let kt = keep.drop_first();
        assert(s1.drop_first() =~= t.take(i));
        assert(k1.drop_first() =~= kt.take(i));
        assert(s.take(i).drop_first() =~= t.take(i - 1));
        assert(keep.take(i).drop_first() =~= kt.take(i - 1));
        assert(t[i - 1] == s[i]);
        assert(kt[i - 1] == keep[i]);
        if keep[0] && !seen.contains(s[0]) {
            let seen2 = seen.push(s[0]);
            lemma_kept_paths_step(t, kt, seen2, i - 1);
            let prev = kept_paths(t.take(i - 1), kt.take(i - 1), seen2);
            assert(kept_paths(s.take(i), keep.take(i), seen) =~= seq![s[0]] + prev);
            assert(seen + (seq![s[0]] + prev) =~= seen2 + prev);
            if keep[i] && !(seen2 + prev).contains(s[i]) {
                assert(seq![s[0]] + prev.push(s[i]) =~= (seq![s[0]] + prev).push(s[i]));
            }
        } else {
            lemma_kept_paths_step(t, kt, seen, i - 1);
        }
    }
}

/// Build the pending queue to restore after a restart: `in_flight` first,
/// then the saved queue, dropping paths `present_on_disk` rejects (moved or deleted
/// while the app was closed) and keeping only the first occurrence of a
/// path.
pub fn restored_pending<F: Fn(&String) -> bool>(
    in_flight: &[String],
    saved_queue: &[String],
    present_on_disk: F,
) -> (r: Vec<String>)
    requires
        forall|p: &String| call_requires(present_on_disk, (p,)),
        in_flight.len() + saved_queue.len() <= usize::MAX,
    ensures
        exists|keep: Seq<bool>|
            #![trigger kept_paths(paths_view(in_flight@ + saved_queue@), keep, Seq::empty())]
            keep.len() == in_flight@.len() + saved_queue@.len() && (forall|i: int|
                0 <= i < keep.len() ==> call_ensures(
                    present_on_disk,
                    (&(in_flight@ + saved_queue@)[i],),
                    #[trigger] keep[i],
                )) && paths_view(r@) == kept_paths(
                paths_view(in_flight@ + saved_queue@),
                keep,
                Seq::empty(),
            ),
{
    let ghost all = in_flight@ + saved_queue@;
    let ghost pv = paths_view(all);
    let ghost mut keep: Seq<bool> = Seq::empty();
    let mut out: Vec<String> = Vec::new();
    let total = in_flight.len() + saved_queue.len();
    let mut i: usize = 0;
    while i < total
        invariant
            total == all.len(),
            all == in_flight@ + saved_queue@,
            pv == paths_view(all),
            i <= total,
            keep.len() == i,
            forall|j: int| 0 <= j < i ==> call_ensures(present_on_disk, (&all[j],), #[trigger] keep[j]),
            paths_view(out@) == kept_paths(pv.take(i as int), keep, Seq::empty()),
            forall|p: &String| call_requires(present_on_disk, (p,)),
        decreases total - i,
    {
        let p = if i < in_flight.len() {
            &in_flight[i]
        } else {
            &saved_queue[i - in_flight.len()]
        };
        assert(*p == all[i as int]);
        let present = present_on_disk(p);
        let seen_before = contains_path(&out, p);
        let ghost keep_next = keep.push(present);
        proof {
            let s1 = pv.take(i as int + 1);
            lemma_kept_paths_step(s1, keep_next, Seq::empty(), i as int);
            assert(s1.take(i as int + 1) =~= s1);
            assert(s1.take(i as int) =~= pv.take(i as int));
            assert(keep_next.take(i as int + 1) =~= keep_next);
            assert(keep_next.take(i as int) =~= keep);
            assert(s1[i as int] == p@);
            assert(Seq::<Seq<char>>::empty() + paths_view(out@) =~= paths_view(out@));
        }
        if present && !seen_before {
            let ghost before = out@;
            out.push(p.clone());
            assert(paths_view(out@) =~= paths_view(before).push(p@));
        }
        proof {
            keep = keep_next;
        }
        i = i + 1;
    }
    assert(pv.take(total as int) =~= pv);
    assert(paths_view(out@) == kept_paths(pv, keep, Seq::empty()));
    out
}


/// Remove the *last* entry of `in_flight` equal to `revoked` (a revoke
/// always undoes the most recent reservation, never the playing track); a
/// no-op when there is none.
pub fn retire_revoked(in_flight: &mut Vec<String>, revoked: &String)
    ensures
        ({
            let old_v = paths_view(old(in_flight)@);
            if old_v.contains(revoked@) {
                exists|k: int|
                    0 <= k < old_v.len() && old_v[k] == revoked@ && (forall|j: int|
                        k < j < old_v.len() ==> old_v[j] != revoked@) && paths_view(
                        final(in_flight)@,
                    ) == old_v.remove(k)
            } else {
                paths_view(final(in_flight)@) == old_v
            }
        }),
{
    let ghost old_v = paths_view(in_flight@);
    let mut i = in_flight.len();
    while i > 0
        invariant
            i <= in_flight.len(),
            in_flight@ == old(in_flight)@,
            old_v == paths_view(in_flight@),
            forall|j: int| i <= j < old_v.len() ==> old_v[j] != revoked@,
        decreases i,
    {
        if in_flight[i - 1] == *revoked {
            let ghost k = i - 1;
            in_flight.remove(i - 1);
            assert(paths_view(in_flight@) =~= old_v.remove(k as int));
            assert(old_v[k as int] == revoked@);
            return;
        }
        i = i - 1;
    }
    assert(!old_v.contains(revoked@)) by {
        if old_v.contains(revoked@) {
            let k = choose|k: int| 0 <= k < old_v.len() && old_v[k] == revoked@;
        }
    }
}

/// The folder cursor to resume from after a restart: just after
/// `last_reserved`'s first occurrence in `tracks` (wrapping to 0), or 0 when
/// nothing was reserved or it is no longer in `tracks`.
pub fn restored_folder_pos(tracks: &[String], last_reserved: Option<&String>) -> (r: usize)
    ensures
        ({
            let t = paths_view(tracks@);
            match last_reserved {
                None => r == 0,
                Some(last) => if t.contains(last@) {
                    exists|idx: int|
                        #![trigger t[idx]]
                        0 <= idx < t.len() && t[idx] == last@ && (forall|j: int|
                            0 <= j < idx ==> t[j] != last@) && r == (if idx + 1 == t.len() {
                            0
                        } else {
                            idx + 1
                        })
                } else {
                    r == 0
                },
            }
        }),
{
    if last_reserved.is_none() {
        return 0;
    }
    let last = last_reserved.unwrap();
    let ghost t = paths_view(tracks@);
    let mut i: usize = 0;
    while i < tracks.len()
        invariant
            i <= tracks.len(),
            t == paths_view(tracks@),
            last_reserved == Some(last),
            forall|j: int| 0 <= j < i ==> t[j] != last@,
        decreases tracks.len() - i,
    {
        if tracks[i] == *last {
            assert(t[i as int] == last@);
            assert(t.contains(last@));
            let r = if i + 1 == tracks.len() {
                0
            } else {
                i + 1
            };
            let ghost idx = i as int;
            assert(0 <= idx < t.len() && t[idx] == last@ && (forall|j: int|
                0 <= j < idx ==> t[j] != last@) && r == (if idx + 1 == t.len() {
                0
            } else {
                idx + 1
            }));
            return r;
        }
        i = i + 1;
    }
    assert(!t.contains(last@)) by {
        if t.contains(last@) {
            let k = choose|k: int| 0 <= k < t.len() && t[k] == last@;
        }
    }
    0
}

/// What a feedback archive says about the app that sent it.
#[derive(Debug, PartialEq, Eq)]
pub struct FeedbackMeta {
    pub version_name: String,
    pub version_code: u32,
    pub funkot_core_git: String,
    pub device_model: String,
    pub sent_at: String,
}

/// A cached content hash, valid while the file keeps its mtime and size.
#[derive(Debug, PartialEq, Eq)]
pub struct HashIndexEntry {
    pub mtime_ms: u64,
    pub len: u64,
    pub hash: String,
    /// When true, `title`/`artist` were probed and may be stored (both None = no tags).
    pub tags_cached: bool,
    pub title: Option<String>,
    pub artist: Option<String>,
}

/// A library file's content hash and embedded title/artist.
#[derive(Debug, PartialEq, Eq)]
pub struct ResolvedLibraryFile {
    pub hash: String,
    pub title: Option<String>,
    pub artist: Option<String>,
}

/// What resolving a file can do without reading its content.
#[derive(Debug, PartialEq, Eq)]
pub enum CacheDecision {
    /// The entry matches the file and holds its tags.
    Cached(ResolvedLibraryFile),
    /// The entry matches the file but its tags were never read.
    ProbeTags { hash: String },
    /// The file must be hashed again.
    Rehash,
}

/// Position of the first index entry for `key`, or -1.
pub open spec fn entry_for(index: Seq<(String, HashIndexEntry)>, key: Seq<char>) -> int {
    crate::playlists::first_pos(index, |e: (String, HashIndexEntry)| e.0@ == key)
}

fn find_index_entry(index: &Vec<(String, HashIndexEntry)>, key: &str) -> (r: Option<usize>)
    ensures
        match r {
            Some(i) => i < index.len() && entry_for(index@, key@) == i,
            None => entry_for(index@, key@) == -1,
        },
        r is None ==> forall|j: int| 0 <= j < index@.len() ==> #[trigger] index@[j].0@ != key@,
        r matches Some(i) ==> index@[i as int].0@ == key@,
{
    let ghost f = |e: (String, HashIndexEntry)| e.0@ == key@;
    let mut i: usize = 0;
    while i < index.len()
        invariant
            i <= index.len(),
            f == (|e: (String, HashIndexEntry)| e.0@ == key@),
            forall|j: int| 0 <= j < i ==> !f(#[trigger] index@[j]),
        decreases index.len() - i,
    {
        if index[i].0.as_str().to_owned() == key.to_owned() {
            proof {
                crate::playlists::lemma_first_pos_is(index@, f, i as int);
            }
            return Some(i);
        }
        i = i + 1;
    }
    proof {
        crate::playlists::lemma_first_pos_is(index@, f, -1);
    }
    None
}

fn copy_opt(o: &Option<String>) -> (r: Option<String>)
    ensures
        r == *o,
{
    match o {
        Some(s) => Some(s.clone()),
        None => None,
    }
}

/// What the hash index allows for the file `key`, whose mtime and size are
/// `fingerprint` (when they could be read): its cached result when the
/// entry matches and holds tags, a tag probe when it matches without them,
/// else a fresh hash.
pub fn cache_decision(index: &Vec<(String, HashIndexEntry)>, key: &str, fingerprint: Option<(u64, u64)>) -> (r:
    CacheDecision)
    ensures
        ({
            let p = entry_for(index@, key@);
            match fingerprint {
                Some((mtime, len)) if p >= 0 && index@[p].1.mtime_ms == mtime && index@[p].1.len == len => {
                    let e = index@[p].1;
                    if e.tags_cached {
                        r == CacheDecision::Cached(
                            ResolvedLibraryFile { hash: e.hash, title: e.title, artist: e.artist },
                        )
                    } else {
                        r == CacheDecision::ProbeTags { hash: e.hash }
                    }
                },
                _ => r == CacheDecision::Rehash,
            }
        }),
{
    let (mtime, len) = match fingerprint {
        Some(f) => f,
        None => return CacheDecision::Rehash,
    };
    let p = match find_index_entry(index, key) {
        Some(p) => p,
        None => return CacheDecision::Rehash,
    };
    let e = &index[p].1;
    if e.mtime_ms != mtime || e.len != len {
        return CacheDecision::Rehash;
    }
    if e.tags_cached {
        CacheDecision::Cached(ResolvedLibraryFile { hash: e.hash.clone(), title: copy_opt(&e.title), artist: copy_opt(&e.artist) })
    } else {
        CacheDecision::ProbeTags { hash: e.hash.clone() }
    }
}

/// `new` is `old` with `entry` stored under `key`: in place of the first
/// entry with that key, or appended.
pub open spec fn index_stored(
    old: Seq<(String, HashIndexEntry)>,
    new: Seq<(String, HashIndexEntry)>,
    key: Seq<char>,
    entry: HashIndexEntry,
) -> bool {
    let p = entry_for(old, key);
    if p >= 0 {
        &&& new.len() == old.len()
        &&& forall|k: int| 0 <= k < old.len() && k != p ==> #[trigger] new[k] == old[k]
        &&& new[p].0@ == key && new[p].1 == entry
    } else {
        &&& new.len() == old.len() + 1
        &&& forall|k: int| 0 <= k < old.len() ==> #[trigger] new[k] == old[k]
        &&& new[old.len() as int].0@ == key && new[old.len() as int].1 == entry
    }
}

fn store_entry(index: &mut Vec<(String, HashIndexEntry)>, key: String, entry: HashIndexEntry)
    ensures
        index_stored(old(index)@, final(index)@, key@, entry),
        keys_distinct(old(index)@) ==> keys_distinct(final(index)@),
{
    let ghost prev = index@;
    let ghost k = key@;
    match find_index_entry(index, key.as_str()) {
        Some(p) => {
            index.set(p, (key, entry));
            proof {
                if keys_distinct(prev) {
                    lemma_keyed_store(prev, index@, k, p as int);
                }
            }
        },
        None => {
            index.push((key, entry));
            proof {
                if keys_distinct(prev) {
                    lemma_keyed_store(prev, index@, k, -1);
                }
            }
        },
    }
}

/// Finish a resolution whose cached hash still matched but whose tags had
/// never been read: `tags` is what probing found, if it succeeded. Found
/// tags are cached with the hash; a failed probe leaves the index alone.
pub fn resolve_with_probed_tags(
    index: &mut Vec<(String, HashIndexEntry)>,
    key: String,
    fingerprint: (u64, u64),
    hash: String,
    tags: Option<(Option<String>, Option<String>)>,
) -> (r: ResolvedLibraryFile)
    ensures
        r.hash == hash,
        keys_distinct(old(index)@) ==> keys_distinct(final(index)@),
        match tags {
            Some((title, artist)) => {
                &&& r.title == title && r.artist == artist
                &&& index_stored(old(index)@, final(index)@, key@, HashIndexEntry {
                    mtime_ms: fingerprint.0,
                    len: fingerprint.1,
                    hash,
                    tags_cached: true,
                    title,
                    artist,
                })
            },
            None => r.title is None && r.artist is None && final(index)@ == old(index)@,
        },
{
    match tags {
        Some((title, artist)) => {
            store_entry(index, key, HashIndexEntry {
                mtime_ms: fingerprint.0,
                len: fingerprint.1,
                hash: hash.clone(),
                tags_cached: true,
                title: copy_opt(&title),
                artist: copy_opt(&artist),
            });
            ResolvedLibraryFile { hash, title, artist }
        },
        None => ResolvedLibraryFile { hash, title: None, artist: None },
    }
}

/// Finish a resolution that hashed the file afresh: `tags` is what probing
/// found, if it succeeded. The index learns the new hash when the file's
/// mtime and size were read, with its tags when the probe succeeded.
pub fn resolve_rehashed(
    index: &mut Vec<(String, HashIndexEntry)>,
    key: String,
    fingerprint: Option<(u64, u64)>,
    hash: String,
    tags: Option<(Option<String>, Option<String>)>,
) -> (r: ResolvedLibraryFile)
    ensures
        r.hash == hash,
        keys_distinct(old(index)@) ==> keys_distinct(final(index)@),
        match tags {
            Some((title, artist)) => r.title == title && r.artist == artist,
            None => r.title is None && r.artist is None,
        },
        match fingerprint {
            Some((mtime, len)) => index_stored(old(index)@, final(index)@, key@, HashIndexEntry {
                mtime_ms: mtime,
                len,
                hash,
                tags_cached: tags is Some,
                title: r.title,
                artist: r.artist,
            }),
            None => final(index)@ == old(index)@,
        },
{
    let (title, artist, tags_cached) = match tags {
        Some((t, a)) => (t, a, true),
        None => (None, None, false),
    };
    match fingerprint {
        Some((mtime, len)) => {
            store_entry(index, key, HashIndexEntry {
                mtime_ms: mtime,
                len,
                hash: hash.clone(),
                tags_cached,
                title: copy_opt(&title),
                artist: copy_opt(&artist),
            });
        },
        None => {},
    }
    ResolvedLibraryFile { hash, title, artist }
}

} // verus!

verus! {

/// A tag a probe reports, as far as naming a track goes.
#[derive(Debug, PartialEq, Eq)]
pub enum NameTag {
    TrackTitle(String),
    Artist(String),
    Other,
}

/// The trimmed value of `t` when it is of the wanted kind.
pub open spec fn name_value(t: NameTag, want_title: bool) -> Option<Seq<char>> {
    match t {
        NameTag::TrackTitle(s) => if want_title {
            Some(trimmed(s@))
        } else {
            None
        },
        NameTag::Artist(s) => if want_title {
            None
        } else {
            Some(trimmed(s@))
        },
        NameTag::Other => None,
    }
}

/// The first non-blank trimmed title (or artist) among `tags`.
pub open spec fn first_name(tags: Seq<NameTag>, want_title: bool) -> Option<Seq<char>>
    decreases tags.len(),
{
    if tags.len() == 0 {
        None
    } else {
        match name_value(tags[0], want_title) {
            Some(v) => if v.len() > 0 {
                Some(v)
            } else {
                first_name(tags.skip(1), want_title)
            },
            None => first_name(tags.skip(1), want_title),
        }
    }
}

/// A track's title and artist from its embedded tags: the first non-blank
/// one of each, trimmed.
pub fn title_and_artist(tags: &[NameTag]) -> (r: (Option<String>, Option<String>))
    ensures
        match r.0 {
            Some(t) => first_name(tags@, true) == Some(t@),
            None => first_name(tags@, true) is None,
        },
        match r.1 {
            Some(a) => first_name(tags@, false) == Some(a@),
            None => first_name(tags@, false) is None,
        },
{
    let mut title: Option<String> = None;
    let mut artist: Option<String> = None;
    let mut i: usize = 0;
    assert(tags@.skip(0) =~= tags@);
    while i < tags.len()
        invariant
            i <= tags.len(),
            match title {
                Some(t) => first_name(tags@, true) == Some(t@),
                None => first_name(tags@, true) == first_name(tags@.skip(i as int), true),
            },
            match artist {
                Some(a) => first_name(tags@, false) == Some(a@),
                None => first_name(tags@, false) == first_name(tags@.skip(i as int), false),
            },
        decreases tags.len() - i,
    {
        let ghost rest = tags@.skip(i as int);
        assert(rest[0] == tags@[i as int]);
        assert(rest.skip(1) =~= tags@.skip(i as int + 1));
        match &tags[i] {
            NameTag::TrackTitle(s) => {
                if title.is_none() {
                    let cs = chars_of(s.as_str());
                    let t = trim_chars(cs.as_slice());
                    if t.len() > 0 {
                        title = Some(string_of(t.as_slice()));
                    }
                }
            },
            NameTag::Artist(s) => {
                if artist.is_none() {
                    let cs = chars_of(s.as_str());
                    let a = trim_chars(cs.as_slice());
                    if a.len() > 0 {
                        artist = Some(string_of(a.as_slice()));
                    }
                }
            },
            NameTag::Other => {},
        }
        i = i + 1;
    }
    assert(tags@.skip(tags.len() as int) =~= seq![]);
    (title, artist)
}

} // verus!

verus! {

/// Position of the first stored correction for `hash`, or -1.
pub open spec fn override_for(overrides: Seq<(String, BarOverride)>, hash: Seq<char>) -> int {
    crate::playlists::first_pos(overrides, |e: (String, BarOverride)| e.0@ == hash)
}

/// The correction for a track after a hand edit: each side given replaces
/// the stored one, a side left out keeps it.
pub open spec fn merged_override(prior: BarOverride, intro_bars: Option<u32>, outro_structure_bars: Option<u32>) -> BarOverride {
    BarOverride {
        intro_bars: match intro_bars {
            Some(n) => Some(n),
            None => prior.intro_bars,
        },
        outro_structure_bars: match outro_structure_bars {
            Some(n) => Some(n),
            None => prior.outro_structure_bars,
        },
        funkot: prior.funkot,
    }
}

/// Record a hand edit of a track's bars in the stored corrections, keyed by
/// content hash: the first entry for `hash` is updated in place, or a new
/// one is appended.
pub fn record_override(overrides: &mut Vec<(String, BarOverride)>, hash: String, intro_bars: Option<u32>, outro_structure_bars: Option<u32>)
    ensures
        ({
            let p = override_for(old(overrides)@, hash@);
            let prior = if p >= 0 {
                old(overrides)@[p].1
            } else {
                BarOverride { intro_bars: None, outro_structure_bars: None, funkot: None }
            };
            let merged = merged_override(prior, intro_bars, outro_structure_bars);
            if p >= 0 {
                &&& final(overrides)@.len() == old(overrides)@.len()
                &&& forall|k: int| 0 <= k < old(overrides)@.len() && k != p ==> #[trigger] final(overrides)@[k] == old(overrides)@[k]
                &&& final(overrides)@[p].0 == old(overrides)@[p].0 && final(overrides)@[p].1 == merged
            } else {
                &&& final(overrides)@.len() == old(overrides)@.len() + 1
                &&& final(overrides)@.drop_last() == old(overrides)@
                &&& final(overrides)@.last().0@ == hash@ && final(overrides)@.last().1 == merged
            }
        }),
        keys_distinct(old(overrides)@) ==> keys_distinct(final(overrides)@),
{
    let ghost f = |e: (String, BarOverride)| e.0@ == hash@;
    let mut i: usize = 0;
    while i < overrides.len()
        invariant
            i <= overrides.len(),
            f == (|e: (String, BarOverride)| e.0@ == hash@),
            overrides@ == old(overrides)@,
            forall|j: int| 0 <= j < i ==> !f(#[trigger] overrides@[j]),
        decreases overrides.len() - i,
    {
        if overrides[i].0.as_str().to_owned() == hash.as_str().to_owned() {
            proof {
                crate::playlists::lemma_first_pos_is(overrides@, f, i as int);
            }
            let prior = overrides[i].1;
            let merged = BarOverride {
                intro_bars: match intro_bars {
                    Some(n) => Some(n),
                    None => prior.intro_bars,
                },
                outro_structure_bars: match outro_structure_bars {
                    Some(n) => Some(n),
                    None => prior.outro_structure_bars,
                },
                funkot: prior.funkot,
            };
            let ghost prev = overrides@;
            overrides[i].1 = merged;
            proof {
                if keys_distinct(prev) {
                    lemma_keyed_store(prev, overrides@, hash@, i as int);
                }
            }
            return;
        }
        i = i + 1;
    }
    proof {
        crate::playlists::lemma_first_pos_is(overrides@, f, -1);
    }
    let ghost prev = overrides@;
    let ghost k = hash@;
    overrides.push((hash, BarOverride { intro_bars, outro_structure_bars, funkot: None }));
    proof {
        if keys_distinct(prev) {
            assert(forall|j: int| 0 <= j < prev.len() ==> !f(#[trigger] prev[j]));
            lemma_keyed_store(prev, overrides@, k, -1);
        }
    }
}

} // verus!
