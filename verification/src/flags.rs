//! Flagged transitions: the raw `from\tto` tallies and their aggregation
//! into track×role rows for the edit tab.
use vstd::prelude::*;

use crate::order::{lemma_lex_lt_asymmetric, lemma_lex_lt_transitive, lemma_lex_total, lex_lt, lex_lt_exec};
use crate::store::{dismiss_key, tab_joined};

verus! {

/// How often one transition pair was flagged, and when last.
#[derive(Clone, Copy, Debug, PartialEq, Eq)]
pub struct TransitionFlag {
    pub count: u32,
    /// Unix epoch milliseconds of the most recent flag press for this pair.
    pub last_flagged_ms: u64,
}

/// Display / confidence / bar metadata for one content hash, as the library
/// scan resolved it.
#[derive(Debug)]
pub struct FlagTrackMeta {
    pub title: String,
    pub artist: String,
    pub intro_low_confidence: bool,
    pub outro_low_confidence: bool,
    pub path: Option<String>,
    pub intro_bars: Option<u32>,
    pub outro_structure_bars: Option<u32>,
    /// Mix-trigger bars derived by the engine (read-only in the UI).
    pub outro_bars: Option<u32>,
    pub intro_manual: bool,
    pub outro_manual: bool,
    pub analyzed: bool,
}

/// One partner of a [`FlaggedTrackRow`] (the other side of a flagged pair).
#[derive(Debug)]
pub struct FlagPartner {
    pub track_hash: String,
    pub title: String,
    pub count: u32,
    pub missing: bool,
    /// Absolute path when the partner is still in the library.
    pub path: Option<String>,
}

/// One aggregated row: a track in one role (outgoing or incoming).
#[derive(Debug)]
pub struct FlaggedTrackRow {
    pub track_hash: String,
    /// `"outgoing"` or `"incoming"`.
    pub role: String,
    pub title: String,
    pub artist: String,
    pub count: u32,
    pub low_confidence: bool,
    pub missing: bool,
    pub partners: Vec<FlagPartner>,
    pub path: Option<String>,
    pub intro_bars: Option<u32>,
    pub outro_structure_bars: Option<u32>,
    /// Mix-trigger bars derived by the engine (read-only in the UI).
    pub outro_bars: Option<u32>,
    pub intro_manual: bool,
    pub outro_manual: bool,
    pub analyzed: bool,
}

/// The side of a flagged pair a track stands on.
#[derive(Clone, Copy, Debug, PartialEq, Eq, Structural)]
pub enum Role {
    /// The track the transition left.
    Outgoing,
    /// The track the transition entered.
    Incoming,
}

pub open spec fn role_name(r: Role) -> Seq<char> {
    match r {
        Role::Outgoing => "outgoing"@,
        Role::Incoming => "incoming"@,
    }
}

/// Outgoing rows sort before incoming ones.
pub open spec fn role_rank(r: Role) -> int {
    match r {
        Role::Outgoing => 0,
        Role::Incoming => 1,
    }
}

/// The title shown for a hash the library no longer has.
pub open spec fn missing_title() -> Seq<char> {
    "ライブラリにない曲"@
}

/// Index of the first TAB in `k`, or `k.len()` when there is none.
pub open spec fn first_tab(k: Seq<char>) -> int
    decreases k.len(),
{
    if k.len() == 0 {
        0
    } else if k[0] == '\t' {
        0
    } else {
        1 + first_tab(k.drop_first())
    }
}

/// The `(from, to)` pair a flag entry counts for: the key split at its first
/// TAB, when both sides are non-empty and the count is not zero.
pub open spec fn flag_pair(key: Seq<char>, count: u32) -> Option<(Seq<char>, Seq<char>)> {
    let t = first_tab(key);
    if t < key.len() && t > 0 && t + 1 < key.len() && count > 0 {
        Some((key.take(t), key.skip(t + 1)))
    } else {
        None
    }
}

/// What one flag entry adds: `(track, role, partner, count)` for each side.
pub open spec fn entry_contributions(key: Seq<char>, count: u32) -> Seq<
    (Seq<char>, Role, Seq<char>, u32),
> {
    match flag_pair(key, count) {
        Some((from, to)) => seq![(from, Role::Outgoing, to, count), (to, Role::Incoming, from, count)],
        None => seq![],
    }
}

/// The flag entries as `(key, count)` pairs.
pub open spec fn flag_entries(flags: Seq<(String, TransitionFlag)>) -> Seq<(Seq<char>, u32)> {
    flags.map_values(|e: (String, TransitionFlag)| (e.0@, e.1.count))
}

/// Every contribution of every entry, entry by entry.
pub open spec fn contributions(fs: Seq<(Seq<char>, u32)>) -> Seq<(Seq<char>, Role, Seq<char>, u32)>
    decreases fs.len(),
{
    if fs.len() == 0 {
        seq![]
    } else {
        contributions(fs.drop_last()) + entry_contributions(fs.last().0, fs.last().1)
    }
}

/// Sum of the counts contributed to `(track, role)`.
pub open spec fn key_sum(cs: Seq<(Seq<char>, Role, Seq<char>, u32)>, track: Seq<char>, role: Role) -> nat
    decreases cs.len(),
{
    if cs.len() == 0 {
        0
    } else {
        key_sum(cs.drop_last(), track, role) + if cs.last().0 == track && cs.last().1 == role {
            cs.last().3 as nat
        } else {
            0
        }
    }
}

/// Sum of the counts contributed to `(track, role)` with `partner` on the other side.
pub open spec fn partner_sum(
    cs: Seq<(Seq<char>, Role, Seq<char>, u32)>,
    track: Seq<char>,
    role: Role,
    partner: Seq<char>,
) -> nat
    decreases cs.len(),
{
    if cs.len() == 0 {
        0
    } else {
        partner_sum(cs.drop_last(), track, role, partner) + if cs.last().0 == track && cs.last().1
            == role && cs.last().2 == partner {
            cs.last().3 as nat
        } else {
            0
        }
    }
}

/// A sum as `u32::saturating_add` accumulates it.
pub open spec fn saturated(n: nat) -> u32 {
    if n > u32::MAX {
        u32::MAX
    } else {
        n as u32
    }
}

pub open spec fn has_key(cs: Seq<(Seq<char>, Role, Seq<char>, u32)>, track: Seq<char>, role: Role) -> bool {
    exists|j: int| 0 <= j < cs.len() && #[trigger] cs[j].0 == track && cs[j].1 == role
}

pub open spec fn has_partner(
    cs: Seq<(Seq<char>, Role, Seq<char>, u32)>,
    track: Seq<char>,
    role: Role,
    partner: Seq<char>,
) -> bool {
    exists|j: int|
        0 <= j < cs.len() && #[trigger] cs[j].0 == track && cs[j].1 == role && cs[j].2 == partner
}

/// The metadata of the first entry of `ms` keyed by `h`.
pub open spec fn meta_for(ms: Seq<(String, FlagTrackMeta)>, h: Seq<char>) -> Option<FlagTrackMeta>
    decreases ms.len(),
{
    if ms.len() == 0 {
        None
    } else if ms[0].0@ == h {
        Some(ms[0].1)
    } else {
        meta_for(ms.drop_first(), h)
    }
}

/// Whether the row `(track, role)` was dismissed.
pub open spec fn is_dismissed(dismissed: Seq<String>, track: Seq<char>, role: Role) -> bool {
    exists|i: int| 0 <= i < dismissed.len() && #[trigger] dismissed[i]@ == tab_joined(track, role_name(role))
}

struct Contribution {
    track: String,
    role: Role,
    partner: String,
    count: u32,
}

spec fn contribution_view(c: Contribution) -> (Seq<char>, Role, Seq<char>, u32) {
    (c.track@, c.role, c.partner@, c.count)
}

spec fn contributions_view(cs: Seq<Contribution>) -> Seq<(Seq<char>, Role, Seq<char>, u32)> {
    cs.map_values(|c: Contribution| contribution_view(c))
}

/// Index of the first TAB of `k`.
fn find_tab(k: &[char]) -> (r: usize)
    ensures
        r == first_tab(k@),
        r <= k.len(),
{
    let mut i: usize = 0;
    assert(k@.skip(0) =~= k@);
    while i < k.len()
        invariant
            i <= k.len(),
            first_tab(k@) == i + first_tab(k@.skip(i as int)),
        decreases k.len() - i,
    {
        if k[i] == '\t' {
            assert(k@.skip(i as int)[0] == '\t');
            return i;
        }
        assert(k@.skip(i as int).drop_first() =~= k@.skip(i as int + 1));
        i = i + 1;
    }
    assert(k@.skip(i as int).len() == 0);
    i
}

fn split_flag(key: &String, count: u32) -> (r: Option<(String, String)>)
    ensures
        match r {
            Some((a, b)) => flag_pair(key@, count) == Some((a@, b@)),
            None => flag_pair(key@, count) is None,
        },
{
    let k = crate::text::chars_of(key.as_str());
    let t = find_tab(k.as_slice());
    if t < k.len() && t > 0 && t + 1 < k.len() && count > 0 {
        let mut from: Vec<char> = Vec::new();
        let mut i: usize = 0;
        while i < t
            invariant
                i <= t,
                t < k.len(),
                from@ == k@.take(i as int),
            decreases t - i,
        {
            from.push(k[i]);
            i = i + 1;
            assert(from@ =~= k@.take(i as int));
        }
        let mut to: Vec<char> = Vec::new();
        let mut j: usize = t + 1;
        while j < k.len()
            invariant
                t + 1 <= j <= k.len(),
                to@ == k@.subrange(t + 1, j as int),
            decreases k.len() - j,
        {
            to.push(k[j]);
            j = j + 1;
            assert(to@ =~= k@.subrange(t + 1, j as int));
        }
        assert(to@ =~= k@.skip(t + 1));
        Some((crate::text::string_of(from.as_slice()), crate::text::string_of(to.as_slice())))
    } else {
        None
    }
}

proof fn lemma_contributions_step(fs: Seq<(Seq<char>, u32)>, i: int)
    requires
        0 <= i < fs.len(),
    ensures
        contributions(fs.take(i + 1)) == contributions(fs.take(i)) + entry_contributions(fs[i].0, fs[i].1),
{
    assert(fs.take(i + 1).drop_last() =~= fs.take(i));
}

/// The contributions of all flag entries, in entry order.
fn flag_contributions(flags: &[(String, TransitionFlag)]) -> (r: Vec<Contribution>)
    ensures
        contributions_view(r@) == contributions(flag_entries(flags@)),
{
    let ghost fs = flag_entries(flags@);
    let mut out: Vec<Contribution> = Vec::new();
    let mut i: usize = 0;
    assert(fs.take(0) =~= seq![]);
    assert(contributions_view(out@) =~= contributions(fs.take(0)));
    while i < flags.len()
        invariant
            i <= flags.len(),
            fs == flag_entries(flags@),
            fs.len() == flags.len(),
            contributions_view(out@) == contributions(fs.take(i as int)),
        decreases flags.len() - i,
    {
        proof {
            lemma_contributions_step(fs, i as int);
        }
        let count = flags[i].1.count;
        let ghost before = out@;
        match split_flag(&flags[i].0, count) {
            Some((from, to)) => {
                let from2 = from.clone();
                let to2 = to.clone();
                out.push(Contribution { track: from, role: Role::Outgoing, partner: to, count });
                out.push(Contribution { track: to2, role: Role::Incoming, partner: from2, count });
            },
            None => {},
        }
        assert(contributions_view(out@) =~= contributions_view(before) + entry_contributions(
            fs[i as int].0,
            fs[i as int].1,
        ));
        i = i + 1;
    }
    assert(fs.take(flags.len() as int) =~= fs);
    out
}

proof fn lemma_key_sum_step(cs: Seq<(Seq<char>, Role, Seq<char>, u32)>, j: int, track: Seq<char>, role: Role)
    requires
        0 <= j < cs.len(),
    ensures
        key_sum(cs.take(j + 1), track, role) == key_sum(cs.take(j), track, role) + if cs[j].0
            == track && cs[j].1 == role {
            cs[j].3 as nat
        } else {
            0
        },
{
    assert(cs.take(j + 1).drop_last() =~= cs.take(j));
}

proof fn lemma_partner_sum_step(
    cs: Seq<(Seq<char>, Role, Seq<char>, u32)>,
    j: int,
    track: Seq<char>,
    role: Role,
    partner: Seq<char>,
)
    requires
        0 <= j < cs.len(),
    ensures
        partner_sum(cs.take(j + 1), track, role, partner) == partner_sum(cs.take(j), track, role, partner)
            + if cs[j].0 == track && cs[j].1 == role && cs[j].2 == partner {
            cs[j].3 as nat
        } else {
            0
        },
{
    assert(cs.take(j + 1).drop_last() =~= cs.take(j));
}

/// The saturated total contributed to `(track, role)`.
fn key_total(cs: &Vec<Contribution>, track: &String, role: Role) -> (r: u32)
    ensures
        r == saturated(key_sum(contributions_view(cs@), track@, role)),
{
    let ghost cv = contributions_view(cs@);
    let mut acc: u32 = 0;
    let mut j: usize = 0;
    assert(cv.take(0) =~= seq![]);
    while j < cs.len()
        invariant
            j <= cs.len(),
            cv == contributions_view(cs@),
            acc == saturated(key_sum(cv.take(j as int), track@, role)),
        decreases cs.len() - j,
    {
        proof {
            lemma_key_sum_step(cv, j as int, track@, role);
        }
        if cs[j].track == *track && cs[j].role == role {
            acc = acc.saturating_add(cs[j].count);
        }
        j = j + 1;
    }
    assert(cv.take(cs.len() as int) =~= cv);
    acc
}

/// The saturated total contributed to `(track, role)` by `partner`.
fn partner_total(cs: &Vec<Contribution>, track: &String, role: Role, partner: &String) -> (r: u32)
    ensures
        r == saturated(partner_sum(contributions_view(cs@), track@, role, partner@)),
{
    let ghost cv = contributions_view(cs@);
    let mut acc: u32 = 0;
    let mut j: usize = 0;
    assert(cv.take(0) =~= seq![]);
    while j < cs.len()
        invariant
            j <= cs.len(),
            cv == contributions_view(cs@),
            acc == saturated(partner_sum(cv.take(j as int), track@, role, partner@)),
        decreases cs.len() - j,
    {
        proof {
            lemma_partner_sum_step(cv, j as int, track@, role, partner@);
        }
        if cs[j].track == *track && cs[j].role == role && cs[j].partner == *partner {
            acc = acc.saturating_add(cs[j].count);
        }
        j = j + 1;
    }
    assert(cv.take(cs.len() as int) =~= cv);
    acc
}

/// Whether the key of contribution `j` already occurred before it.
fn key_seen_before(cs: &Vec<Contribution>, j: usize) -> (r: bool)
    requires
        j < cs.len(),
    ensures
        r == exists|i: int|
            0 <= i < j && #[trigger] contributions_view(cs@)[i].0 == cs@[j as int].track@
                && contributions_view(cs@)[i].1 == cs@[j as int].role,
{
    let ghost cv = contributions_view(cs@);
    let mut i: usize = 0;
    while i < j
        invariant
            i <= j < cs.len(),
            cv == contributions_view(cs@),
            forall|k: int|
                0 <= k < i ==> !(#[trigger] cv[k].0 == cs@[j as int].track@ && cv[k].1
                    == cs@[j as int].role),
        decreases j - i,
    {
        if cs[i].track == cs[j].track && cs[i].role == cs[j].role {
            assert(cv[i as int].0 == cs@[j as int].track@);
            return true;
        }
        i = i + 1;
    }
    false
}

/// Whether contribution `j`'s partner already occurred for its key before it.
fn partner_seen_before(cs: &Vec<Contribution>, j: usize) -> (r: bool)
    requires
        j < cs.len(),
    ensures
        r == exists|i: int|
            0 <= i < j && #[trigger] contributions_view(cs@)[i].0 == cs@[j as int].track@
                && contributions_view(cs@)[i].1 == cs@[j as int].role
                && contributions_view(cs@)[i].2 == cs@[j as int].partner@,
{
    let ghost cv = contributions_view(cs@);
    let mut i: usize = 0;
    while i < j
        invariant
            i <= j < cs.len(),
            cv == contributions_view(cs@),
            forall|k: int|
                0 <= k < i ==> !(#[trigger] cv[k].0 == cs@[j as int].track@ && cv[k].1
                    == cs@[j as int].role && cv[k].2 == cs@[j as int].partner@),
        decreases j - i,
    {
        if cs[i].track == cs[j].track && cs[i].role == cs[j].role && cs[i].partner == cs[j].partner {
            assert(cv[i as int].0 == cs@[j as int].track@);
            return true;
        }
        i = i + 1;
    }
    false
}

/// Position of the metadata `meta_for` picks for `h`.
fn find_meta(ms: &[(String, FlagTrackMeta)], h: &String) -> (r: Option<usize>)
    ensures
        match r {
            Some(i) => i < ms.len() && meta_for(ms@, h@) == Some(ms@[i as int].1),
            None => meta_for(ms@, h@) is None,
        },
{
    let mut i: usize = 0;
    assert(ms@.skip(0) =~= ms@);
    while i < ms.len()
        invariant
            i <= ms.len(),
            meta_for(ms@, h@) == meta_for(ms@.skip(i as int), h@),
        decreases ms.len() - i,
    {
        if ms[i].0 == *h {
            assert(ms@.skip(i as int)[0] == ms@[i as int]);
            return Some(i);
        }
        assert(ms@.skip(i as int).drop_first() =~= ms@.skip(i as int + 1));
        i = i + 1;
    }
    None
}

fn copy_path(p: &Option<String>) -> (r: Option<String>)
    ensures
        r == *p,
{
    match p {
        Some(s) => Some(s.clone()),
        None => None,
    }
}

/// A partner's display fields, as the metadata of its hash gives them.
pub open spec fn partner_meta_ok(p: FlagPartner, ms: Seq<(String, FlagTrackMeta)>) -> bool {
    match meta_for(ms, p.track_hash@) {
        Some(m) => p.title == m.title && p.path == m.path && !p.missing,
        None => p.title@ == missing_title() && p.path is None && p.missing,
    }
}

/// `p` is a partner of `(track, role)` with its exact tally and metadata.
pub open spec fn partner_ok(
    p: FlagPartner,
    cs: Seq<(Seq<char>, Role, Seq<char>, u32)>,
    track: Seq<char>,
    role: Role,
    ms: Seq<(String, FlagTrackMeta)>,
) -> bool {
    &&& has_partner(cs, track, role, p.track_hash@)
    &&& p.count == saturated(partner_sum(cs, track, role, p.track_hash@))
    &&& partner_meta_ok(p, ms)
}

fn make_partner(hash: String, count: u32, ms: &[(String, FlagTrackMeta)]) -> (p: FlagPartner)
    ensures
        p.track_hash == hash,
        p.count == count,
        partner_meta_ok(p, ms@),
{
    match find_meta(ms, &hash) {
        Some(i) => {
            let m = &ms[i].1;
            FlagPartner {
                track_hash: hash,
                title: m.title.clone(),
                count,
                missing: false,
                path: copy_path(&m.path),
            }
        },
        None => FlagPartner {
            track_hash: hash,
            title: "ライブラリにない曲".to_owned(),
            count,
            missing: true,
            path: None,
        },
    }
}

/// Every distinct partner of `(track, role)`, each once, in first-seen order.
#[verifier::rlimit(40)]
fn collect_partners(
    cs: &Vec<Contribution>,
    track: &String,
    role: Role,
    ms: &[(String, FlagTrackMeta)],
) -> (r: Vec<FlagPartner>)
    ensures
        forall|k: int| 0 <= k < r.len() ==> partner_ok(#[trigger] r@[k], contributions_view(cs@), track@, role, ms@),
        forall|a: int, b: int|
            0 <= a < b < r.len() ==> #[trigger] r@[a].track_hash@ != #[trigger] r@[b].track_hash@,
        forall|p: Seq<char>|
            has_partner(contributions_view(cs@), track@, role, p) ==> exists|k: int|
                0 <= k < r.len() && #[trigger] r@[k].track_hash@ == p,
{
    let ghost cv = contributions_view(cs@);
    let mut out: Vec<FlagPartner> = Vec::new();
    let ghost mut wit: Seq<int> = seq![];
    let mut j: usize = 0;
    while j < cs.len()
        invariant
            j <= cs.len(),
            cv == contributions_view(cs@),
            cv.len() == cs.len(),
            wit.len() == out.len(),
            forall|k: int| 0 <= k < out.len() ==> partner_ok(#[trigger] out@[k], cv, track@, role, ms@),
            forall|k: int|
                0 <= k < out.len() ==> 0 <= #[trigger] wit[k] < j && cv[wit[k]].0 == track@ && cv[wit[k]].1
                    == role && cv[wit[k]].2 == out@[k].track_hash@,
            forall|a: int, b: int|
                0 <= a < b < out.len() ==> #[trigger] out@[a].track_hash@ != #[trigger] out@[b].track_hash@,
            forall|i: int|
                0 <= i < j && #[trigger] cv[i].0 == track@ && cv[i].1 == role ==> exists|k: int|
                    0 <= k < out.len() && #[trigger] out@[k].track_hash@ == cv[i].2,
        decreases cs.len() - j,
    {
        let ghost old_out = out@;
        let ghost old_wit = wit;
        assert(cv[j as int] == contribution_view(cs@[j as int]));
        if cs[j].track == *track && cs[j].role == role && !partner_seen_before(cs, j) {
            let count = partner_total(cs, track, role, &cs[j].partner);
            let p = make_partner(cs[j].partner.clone(), count, ms);
            assert(has_partner(cv, track@, role, p.track_hash@)) by {
                assert(cv[j as int].0 == track@);
            }
            out.push(p);
            proof {
                wit = wit.push(j as int);
                assert forall|a: int, b: int| 0 <= a < b < out.len() implies #[trigger] out@[a].track_hash@
                    != #[trigger] out@[b].track_hash@ by {
                    assert(out@[a] == old_out[a]);
                    if b == old_out.len() {
                        let i = old_wit[a];
                        assert(cv[i].0 == track@);
                        assert(cv[i].0 == cs@[j as int].track@);
                    } else {
                        assert(out@[b] == old_out[b]);
                    }
                }
                assert forall|i: int|
                    0 <= i < j + 1 && #[trigger] cv[i].0 == track@ && cv[i].1 == role implies exists|k: int|
                        0 <= k < out.len() && #[trigger] out@[k].track_hash@ == cv[i].2 by {
                    if i < j {
                        let k = choose|k: int| 0 <= k < old_out.len() && #[trigger] old_out[k].track_hash@ == cv[i].2;
                        assert(out@[k] == old_out[k]);
                    } else {
                        assert(out@[old_out.len() as int].track_hash@ == cv[i].2);
                    }
                }
            }
        } else {
            proof {
                assert forall|i: int|
                    0 <= i < j + 1 && #[trigger] cv[i].0 == track@ && cv[i].1 == role implies exists|k: int|
                        0 <= k < out.len() && #[trigger] out@[k].track_hash@ == cv[i].2 by {
                    if i == j {
                        let i2 = choose|i2: int|
                            0 <= i2 < j && #[trigger] cv[i2].0 == cs@[j as int].track@ && cv[i2].1
                                == cs@[j as int].role && cv[i2].2 == cs@[j as int].partner@;
                        assert(cv[i2].0 == track@);
                    }
                }
            }
        }
        j = j + 1;
    }
    proof {
        assert forall|p: Seq<char>| has_partner(cv, track@, role, p) implies exists|k: int|
            0 <= k < out.len() && #[trigger] out@[k].track_hash@ == p by {
            let i = choose|i: int| 0 <= i < cv.len() && #[trigger] cv[i].0 == track@ && cv[i].1 == role && cv[i].2 == p;
            assert(cv[i].0 == track@);
        }
    }
    out
}
/// Partner order: count descending, then title, then hash.
pub open spec fn partner_before(a: FlagPartner, b: FlagPartner) -> bool {
    a.count > b.count || (a.count == b.count && (lex_lt(a.title@, b.title@) || (a.title@ == b.title@
        && lex_lt(a.track_hash@, b.track_hash@))))
}

pub open spec fn partners_sorted(s: Seq<FlagPartner>) -> bool {
    forall|i: int, j: int| 0 <= i < j < s.len() ==> !partner_before(#[trigger] s[j], #[trigger] s[i])
}

proof fn lemma_partner_before_order(a: FlagPartner, b: FlagPartner, c: FlagPartner)
    ensures
        partner_before(a, b) ==> !partner_before(b, a),
        partner_before(a, b) && partner_before(b, c) ==> partner_before(a, c),
{
    if lex_lt(a.title@, b.title@) {
        lemma_lex_lt_asymmetric(a.title@, b.title@);
    }
    if lex_lt(a.track_hash@, b.track_hash@) {
        lemma_lex_lt_asymmetric(a.track_hash@, b.track_hash@);
    }
    if lex_lt(a.title@, b.title@) && lex_lt(b.title@, c.title@) {
        lemma_lex_lt_transitive(a.title@, b.title@, c.title@);
    }
    if lex_lt(a.track_hash@, b.track_hash@) && lex_lt(b.track_hash@, c.track_hash@) {
        lemma_lex_lt_transitive(a.track_hash@, b.track_hash@, c.track_hash@);
    }
}

fn partner_goes_before(a: &FlagPartner, b: &FlagPartner) -> (r: bool)
    ensures
        r == partner_before(*a, *b),
{
    if a.count != b.count {
        a.count > b.count
    } else if lex_lt_exec(a.title.as_str(), b.title.as_str()) {
        true
    } else if a.title == b.title {
        lex_lt_exec(a.track_hash.as_str(), b.track_hash.as_str())
    } else {
        false
    }
}

proof fn lemma_partners_insert_sorted(out: Seq<FlagPartner>, p: int, x: FlagPartner)
    requires
        partners_sorted(out),
        0 <= p <= out.len(),
        forall|q: int| 0 <= q < p ==> !partner_before(x, #[trigger] out[q]),
        p < out.len() ==> partner_before(x, out[p]),
    ensures
        partners_sorted(out.insert(p, x)),
{
    let n = out.insert(p, x);
    assert forall|i: int, j: int| 0 <= i < j < n.len() implies !partner_before(#[trigger] n[j], #[trigger] n[i]) by {
        if j < p {
            assert(n[i] == out[i] && n[j] == out[j]);
        } else if j == p {
            assert(n[i] == out[i]);
        } else if i < p {
            assert(n[i] == out[i] && n[j] == out[j - 1]);
        } else if i == p {
            assert(n[j] == out[j - 1]);
            lemma_partner_before_order(x, out[p], x);
            if j - 1 > p {
                lemma_partner_before_order(out[j - 1], x, out[p]);
            }
        } else {
            assert(n[i] == out[i - 1] && n[j] == out[j - 1]);
        }
    }
}

/// Some position of `perm` holds `j`.
pub open spec fn covers(perm: Seq<int>, j: int) -> bool {
    exists|k: int| 0 <= k < perm.len() && #[trigger] perm[k] == j
}

/// Inserting `x`, taken from `v0[xi]`, at `p` keeps `out` a selection of
/// `v0` through `perm`, now covering `xi..`.
pub(crate) proof fn lemma_selection_insert<T>(out: Seq<T>, perm: Seq<int>, v0: Seq<T>, p: int, x: T, xi: int)
    requires
        0 <= xi < v0.len(),
        x == v0[xi],
        0 <= p <= out.len(),
        perm.len() == out.len(),
        forall|k: int| 0 <= k < out.len() ==> xi < #[trigger] perm[k] < v0.len() && out[k] == v0[perm[k]],
        forall|a: int, b: int| 0 <= a < b < perm.len() ==> #[trigger] perm[a] != #[trigger] perm[b],
        forall|j: int| xi < j < v0.len() ==> #[trigger] covers(perm, j),
    ensures
        ({
            let out2 = out.insert(p, x);
            let perm2 = perm.insert(p, xi);
            &&& perm2.len() == out2.len()
            &&& forall|k: int| 0 <= k < out2.len() ==> xi <= #[trigger] perm2[k] < v0.len() && out2[k] == v0[perm2[k]]
            &&& forall|a: int, b: int| 0 <= a < b < perm2.len() ==> #[trigger] perm2[a] != #[trigger] perm2[b]
            &&& forall|j: int| xi <= j < v0.len() ==> #[trigger] covers(perm2, j)
        }),
{
    let out2 = out.insert(p, x);
    let perm2 = perm.insert(p, xi);
    assert forall|k: int| 0 <= k < out2.len() implies xi <= #[trigger] perm2[k] < v0.len() && out2[k] == v0[perm2[k]] by {
        if k < p {
            assert(perm2[k] == perm[k] && out2[k] == out[k]);
        } else if k > p {
            assert(perm2[k] == perm[k - 1] && out2[k] == out[k - 1]);
        }
    }
    assert forall|a: int, b: int| 0 <= a < b < perm2.len() implies #[trigger] perm2[a] != #[trigger] perm2[b] by {
        let ka = if a < p { a } else { a - 1 };
        let kb = if b < p { b } else { b - 1 };
        if a != p && b != p {
            assert(perm2[a] == perm[ka] && perm2[b] == perm[kb]);
        } else if a == p {
            assert(perm2[b] == perm[kb]);
        } else {
            assert(perm2[a] == perm[ka]);
        }
    }
    assert forall|j: int| xi <= j < v0.len() implies #[trigger] covers(perm2, j) by {
        if j == xi {
            assert(perm2[p] == j);
        } else {
            assert(covers(perm, j));
            let k = choose|k: int| 0 <= k < perm.len() && #[trigger] perm[k] == j;
            if k < p {
                assert(perm2[k] == j);
            } else {
                assert(perm2[k + 1] == j);
            }
        }
    }
}

/// `v` in partner order, with the position in `v` each element came from.
fn sort_partners(v: Vec<FlagPartner>) -> (r: (Vec<FlagPartner>, Ghost<Seq<int>>))
    ensures
        r.0.len() == v.len(),
        partners_sorted(r.0@),
        r.1@.len() == v.len(),
        forall|k: int| 0 <= k < v.len() ==> 0 <= #[trigger] r.1@[k] < v.len() && r.0@[k] == v@[r.1@[k]],
        forall|a: int, b: int| 0 <= a < b < v.len() ==> #[trigger] r.1@[a] != #[trigger] r.1@[b],
        forall|j: int| 0 <= j < v.len() ==> #[trigger] covers(r.1@, j),
{
    let ghost v0 = v@;
    let mut v = v;
    let mut out: Vec<FlagPartner> = Vec::new();
    let ghost mut perm: Seq<int> = seq![];
    while v.len() > 0
        invariant
            v@ == v0.take(v.len() as int),
            out.len() + v.len() == v0.len(),
            perm.len() == out.len(),
            partners_sorted(out@),
            forall|k: int| 0 <= k < out.len() ==> v.len() <= #[trigger] perm[k] < v0.len() && out@[k] == v0[perm[k]],
            forall|a: int, b: int| 0 <= a < b < perm.len() ==> #[trigger] perm[a] != #[trigger] perm[b],
            forall|j: int| v.len() <= j < v0.len() ==> #[trigger] covers(perm, j),
        decreases v.len(),
    {
        let x = v.pop().unwrap();
        let ghost xi = v.len() as int;
        assert(x == v0[xi]);
        let mut p: usize = 0;
        while p < out.len()
            invariant
                p <= out.len(),
                forall|q: int| 0 <= q < p ==> !partner_before(x, #[trigger] out@[q]),
            ensures
                p <= out.len(),
                forall|q: int| 0 <= q < p ==> !partner_before(x, #[trigger] out@[q]),
                p < out.len() ==> partner_before(x, out@[p as int]),
            decreases out.len() - p,
        {
            if partner_goes_before(&x, &out[p]) {
                break;
            }
            p = p + 1;
        }
        proof {
            lemma_partners_insert_sorted(out@, p as int, x);
            lemma_selection_insert(out@, perm, v0, p as int, x, xi);
            perm = perm.insert(p as int, xi);
        }
        out.insert(p, x);
    }
    (out, Ghost(perm))
}

/// `ps` lists a partner with hash `p`.
pub open spec fn lists_partner(ps: Seq<FlagPartner>, p: Seq<char>) -> bool {
    exists|k: int| 0 <= k < ps.len() && #[trigger] ps[k].track_hash@ == p
}

/// `ps` is exactly the partner list of `(track, role)`: every partner once,
/// with its tally and metadata, in partner order.
pub open spec fn partners_of_ok(
    ps: Seq<FlagPartner>,
    cs: Seq<(Seq<char>, Role, Seq<char>, u32)>,
    track: Seq<char>,
    role: Role,
    ms: Seq<(String, FlagTrackMeta)>,
) -> bool {
    &&& forall|k: int| 0 <= k < ps.len() ==> partner_ok(#[trigger] ps[k], cs, track, role, ms)
    &&& forall|a: int, b: int|
        0 <= a < b < ps.len() ==> #[trigger] ps[a].track_hash@ != #[trigger] ps[b].track_hash@
    &&& forall|p: Seq<char>| has_partner(cs, track, role, p) ==> #[trigger] lists_partner(ps, p)
    &&& partners_sorted(ps)
}

fn build_partners(
    cs: &Vec<Contribution>,
    track: &String,
    role: Role,
    ms: &[(String, FlagTrackMeta)],
) -> (r: Vec<FlagPartner>)
    ensures
        partners_of_ok(r@, contributions_view(cs@), track@, role, ms@),
{
    let ghost cv = contributions_view(cs@);
    let u = collect_partners(cs, track, role, ms);
    let ghost u0 = u@;
    let (sorted, perm) = sort_partners(u);
    let ghost perm = perm@;
    proof {
        assert forall|k: int| 0 <= k < sorted.len() implies partner_ok(#[trigger] sorted@[k], cv, track@, role, ms@) by {
            assert(0 <= perm[k] < u0.len());
            assert(sorted@[k] == u0[perm[k]]);
        }
        assert forall|a: int, b: int| 0 <= a < b < sorted.len() implies #[trigger] sorted@[a].track_hash@
            != #[trigger] sorted@[b].track_hash@ by {
            assert(sorted@[a] == u0[perm[a]]);
            assert(sorted@[b] == u0[perm[b]]);
            assert(perm[a] != perm[b]);
            if perm[a] < perm[b] {
                assert(u0[perm[a]].track_hash@ != u0[perm[b]].track_hash@);
            } else {
                assert(u0[perm[b]].track_hash@ != u0[perm[a]].track_hash@);
            }
        }
        assert forall|p: Seq<char>| has_partner(cv, track@, role, p) implies #[trigger] lists_partner(sorted@, p) by {
            let k0 = choose|k: int| 0 <= k < u0.len() && #[trigger] u0[k].track_hash@ == p;
            assert(covers(perm, k0));
            let k = choose|k: int| 0 <= k < perm.len() && #[trigger] perm[k] == k0;
            assert(sorted@[k].track_hash@ == p);
        }
    }
    sorted
}

/// The role a row's `role` text names.
pub open spec fn row_role(row: FlaggedTrackRow) -> Role {
    if row.role@ == role_name(Role::Outgoing) {
        Role::Outgoing
    } else {
        Role::Incoming
    }
}

/// A row's display fields, as the metadata of its hash gives them.
pub open spec fn row_meta_ok(row: FlaggedTrackRow, role: Role, ms: Seq<(String, FlagTrackMeta)>) -> bool {
    match meta_for(ms, row.track_hash@) {
        Some(m) => {
            &&& row.title == m.title
            &&& row.artist == m.artist
            &&& !row.missing
            &&& row.low_confidence == match role {
                Role::Outgoing => m.outro_low_confidence,
                Role::Incoming => m.intro_low_confidence,
            }
            &&& row.path == m.path
            &&& row.intro_bars == m.intro_bars
            &&& row.outro_structure_bars == m.outro_structure_bars
            &&& row.outro_bars == m.outro_bars
            &&& row.intro_manual == m.intro_manual
            &&& row.outro_manual == m.outro_manual
            &&& row.analyzed == m.analyzed
        },
        None => {
            &&& row.title@ == missing_title()
            &&& row.artist@ == Seq::<char>::empty()
            &&& row.missing
            &&& !row.low_confidence
            &&& row.path is None
            &&& row.intro_bars is None
            &&& row.outro_structure_bars is None
            &&& row.outro_bars is None
            &&& !row.intro_manual
            &&& !row.outro_manual
            &&& !row.analyzed
        },
    }
}

/// `row` is the aggregated row of its `(track, role)`.
pub open spec fn row_ok(
    row: FlaggedTrackRow,
    cs: Seq<(Seq<char>, Role, Seq<char>, u32)>,
    ms: Seq<(String, FlagTrackMeta)>,
    dismissed: Seq<String>,
) -> bool {
    let role = row_role(row);
    &&& row.role@ == role_name(role)
    &&& has_key(cs, row.track_hash@, role)
    &&& !is_dismissed(dismissed, row.track_hash@, role)
    &&& row.count == saturated(key_sum(cs, row.track_hash@, role))
    &&& row_meta_ok(row, role, ms)
    &&& partners_of_ok(row.partners@, cs, row.track_hash@, role, ms)
}

fn role_text(role: Role) -> (r: String)
    ensures
        r@ == role_name(role),
{
    match role {
        Role::Outgoing => "outgoing".to_owned(),
        Role::Incoming => "incoming".to_owned(),
    }
}

fn build_row(cs: &Vec<Contribution>, track: String, role: Role, ms: &[(String, FlagTrackMeta)]) -> (row:
    FlaggedTrackRow)
    ensures
        row.track_hash == track,
        row_role(row) == role,
        row.role@ == role_name(role),
        row.count == saturated(key_sum(contributions_view(cs@), track@, role)),
        row_meta_ok(row, role, ms@),
        partners_of_ok(row.partners@, contributions_view(cs@), track@, role, ms@),
{
    proof {
        reveal_strlit("outgoing");
        reveal_strlit("incoming");
        assert(role_name(Role::Incoming)[0] != role_name(Role::Outgoing)[0]);
    }
    let count = key_total(cs, &track, role);
    let partners = build_partners(cs, &track, role, ms);
    let role_s = role_text(role);
    match find_meta(ms, &track) {
        Some(i) => {
            let m = &ms[i].1;
            let low_confidence = match role {
                Role::Outgoing => m.outro_low_confidence,
                Role::Incoming => m.intro_low_confidence,
            };
            FlaggedTrackRow {
                track_hash: track,
                role: role_s,
                title: m.title.clone(),
                artist: m.artist.clone(),
                count,
                low_confidence,
                missing: false,
                partners,
                path: copy_path(&m.path),
                intro_bars: m.intro_bars,
                outro_structure_bars: m.outro_structure_bars,
                outro_bars: m.outro_bars,
                intro_manual: m.intro_manual,
                outro_manual: m.outro_manual,
                analyzed: m.analyzed,
            }
        },
        None => FlaggedTrackRow {
            track_hash: track,
            role: role_s,
            title: "ライブラリにない曲".to_owned(),
            artist: String::new(),
            count,
            low_confidence: false,
            missing: true,
            partners,
            path: None,
            intro_bars: None,
            outro_structure_bars: None,
            outro_bars: None,
            intro_manual: false,
            outro_manual: false,
            analyzed: false,
        },
    }
}

/// Whether the row `(track, role)` is among `dismissed`.
fn dismissed_has(dismissed: &[String], track: &String, role: Role) -> (r: bool)
    ensures
        r == is_dismissed(dismissed@, track@, role),
{
    let role_s = role_text(role);
    let key = dismiss_key(track.as_str(), role_s.as_str());
    let mut i: usize = 0;
    while i < dismissed.len()
        invariant
            i <= dismissed.len(),
            key@ == tab_joined(track@, role_name(role)),
            forall|k: int| 0 <= k < i ==> #[trigger] dismissed@[k]@ != tab_joined(track@, role_name(role)),
        decreases dismissed.len() - i,
    {
        if dismissed[i] == key {
            return true;
        }
        i = i + 1;
    }
    false
}

/// `rows` has a row for `(track, role)`.
pub open spec fn lists_row(rows: Seq<FlaggedTrackRow>, track: Seq<char>, role: Role) -> bool {
    exists|k: int| 0 <= k < rows.len() && #[trigger] rows[k].track_hash@ == track && row_role(rows[k]) == role
}

/// No two rows share a `(track, role)`.
pub open spec fn rows_distinct(rows: Seq<FlaggedTrackRow>) -> bool {
    forall|a: int, b: int|
        0 <= a < b < rows.len() ==> !(#[trigger] rows[a].track_hash@ == #[trigger] rows[b].track_hash@
            && row_role(rows[a]) == row_role(rows[b]))
}

/// One row for each `(track, role)` that is not dismissed, in first-seen order.
#[verifier::rlimit(40)]
fn collect_rows(cs: &Vec<Contribution>, ms: &[(String, FlagTrackMeta)], dismissed: &[String]) -> (r: Vec<
    FlaggedTrackRow,
>)
    ensures
        forall|k: int| 0 <= k < r.len() ==> row_ok(#[trigger] r@[k], contributions_view(cs@), ms@, dismissed@),
        rows_distinct(r@),
        forall|t: Seq<char>, role: Role|
            has_key(contributions_view(cs@), t, role) && !is_dismissed(dismissed@, t, role) ==> #[trigger] lists_row(
                r@,
                t,
                role,
            ),
{
    let ghost cv = contributions_view(cs@);
    let mut out: Vec<FlaggedTrackRow> = Vec::new();
    let ghost mut wit: Seq<int> = seq![];
    let mut j: usize = 0;
    while j < cs.len()
        invariant
            j <= cs.len(),
            cv == contributions_view(cs@),
            cv.len() == cs.len(),
            wit.len() == out.len(),
            forall|k: int| 0 <= k < out.len() ==> row_ok(#[trigger] out@[k], cv, ms@, dismissed@),
            forall|k: int|
                0 <= k < out.len() ==> 0 <= #[trigger] wit[k] < j && cv[wit[k]].0 == out@[k].track_hash@
                    && cv[wit[k]].1 == row_role(out@[k]),
            rows_distinct(out@),
            forall|i: int|
                0 <= i < j && !is_dismissed(dismissed@, cv[i].0, cv[i].1) ==> #[trigger] lists_row(
                    out@,
                    cv[i].0,
                    cv[i].1,
                ),
        decreases cs.len() - j,
    {
        let ghost old_out = out@;
        let ghost old_wit = wit;
        assert(cv[j as int] == contribution_view(cs@[j as int]));
        if !key_seen_before(cs, j) && !dismissed_has(dismissed, &cs[j].track, cs[j].role) {
            let row = build_row(cs, cs[j].track.clone(), cs[j].role, ms);
            assert(has_key(cv, row.track_hash@, row_role(row))) by {
                assert(cv[j as int].0 == row.track_hash@);
            }
            out.push(row);
            proof {
                wit = wit.push(j as int);
                assert forall|a: int, b: int| 0 <= a < b < out.len() implies !(#[trigger] out@[a].track_hash@
                    == #[trigger] out@[b].track_hash@ && row_role(out@[a]) == row_role(out@[b])) by {
                    assert(out@[a] == old_out[a]);
                    if b == old_out.len() {
                        let i = old_wit[a];
                        if out@[a].track_hash@ == out@[b].track_hash@ && row_role(out@[a]) == row_role(out@[b]) {
                            assert(cv[i].0 == cs@[j as int].track@);
                        }
                    } else {
                        assert(out@[b] == old_out[b]);
                    }
                }
                assert forall|i: int|
                    0 <= i < j + 1 && !is_dismissed(dismissed@, cv[i].0, cv[i].1) implies #[trigger] lists_row(
                        out@,
                        cv[i].0,
                        cv[i].1,
                    ) by {
                    if i < j {
                        assert(lists_row(old_out, cv[i].0, cv[i].1));
                        let k = choose|k: int|
                            0 <= k < old_out.len() && #[trigger] old_out[k].track_hash@ == cv[i].0 && row_role(old_out[k])
                                == cv[i].1;
                        assert(out@[k] == old_out[k]);
                    } else {
                        assert(out@[old_out.len() as int].track_hash@ == cv[i].0);
                    }
                }
            }
        } else {
            proof {
                assert forall|i: int|
                    0 <= i < j + 1 && !is_dismissed(dismissed@, cv[i].0, cv[i].1) implies #[trigger] lists_row(
                        out@,
                        cv[i].0,
                        cv[i].1,
                    ) by {
                    if i == j {
                        let i2 = choose|i2: int|
                            0 <= i2 < j && #[trigger] cv[i2].0 == cs@[j as int].track@ && cv[i2].1 == cs@[j as int].role;
                        assert(cv[i2].0 == cv[i].0);
                    }
                }
            }
        }
        j = j + 1;
    }
    proof {
        assert forall|t: Seq<char>, role: Role|
            has_key(cv, t, role) && !is_dismissed(dismissed@, t, role) implies #[trigger] lists_row(out@, t, role) by {
            let i = choose|i: int| 0 <= i < cv.len() && #[trigger] cv[i].0 == t && cv[i].1 == role;
            assert(lists_row(out@, cv[i].0, cv[i].1));
        }
    }
    out
}

/// Row order: count descending, outgoing before incoming, then title, then hash.
pub open spec fn row_before(a: FlaggedTrackRow, b: FlaggedTrackRow) -> bool {
    a.count > b.count || (a.count == b.count && (role_rank(row_role(a)) < role_rank(row_role(b)) || (
    role_rank(row_role(a)) == role_rank(row_role(b)) && (lex_lt(a.title@, b.title@) || (a.title@
        == b.title@ && lex_lt(a.track_hash@, b.track_hash@))))))
}

pub open spec fn rows_sorted(s: Seq<FlaggedTrackRow>) -> bool {
    forall|i: int, j: int| 0 <= i < j < s.len() ==> !row_before(#[trigger] s[j], #[trigger] s[i])
}

proof fn lemma_row_before_order(a: FlaggedTrackRow, b: FlaggedTrackRow, c: FlaggedTrackRow)
    ensures
        row_before(a, b) ==> !row_before(b, a),
        row_before(a, b) && row_before(b, c) ==> row_before(a, c),
{
    if lex_lt(a.title@, b.title@) {
        lemma_lex_lt_asymmetric(a.title@, b.title@);
    }
    if lex_lt(a.track_hash@, b.track_hash@) {
        lemma_lex_lt_asymmetric(a.track_hash@, b.track_hash@);
    }
    if lex_lt(a.title@, b.title@) && lex_lt(b.title@, c.title@) {
        lemma_lex_lt_transitive(a.title@, b.title@, c.title@);
    }
    if lex_lt(a.track_hash@, b.track_hash@) && lex_lt(b.track_hash@, c.track_hash@) {
        lemma_lex_lt_transitive(a.track_hash@, b.track_hash@, c.track_hash@);
    }
}

fn row_goes_before(a: &FlaggedTrackRow, b: &FlaggedTrackRow) -> (r: bool)
    ensures
        r == row_before(*a, *b),
{
    if a.count != b.count {
        return a.count > b.count;
    }
    let outgoing = role_text(Role::Outgoing);
    let a_out = a.role == outgoing;
    let b_out = b.role == outgoing;
    if a_out != b_out {
        a_out
    } else if lex_lt_exec(a.title.as_str(), b.title.as_str()) {
        true
    } else if a.title == b.title {
        lex_lt_exec(a.track_hash.as_str(), b.track_hash.as_str())
    } else {
        false
    }
}

proof fn lemma_rows_insert_sorted(out: Seq<FlaggedTrackRow>, p: int, x: FlaggedTrackRow)
    requires
        rows_sorted(out),
        0 <= p <= out.len(),
        forall|q: int| 0 <= q < p ==> !row_before(x, #[trigger] out[q]),
        p < out.len() ==> row_before(x, out[p]),
    ensures
        rows_sorted(out.insert(p, x)),
{
    let n = out.insert(p, x);
    assert forall|i: int, j: int| 0 <= i < j < n.len() implies !row_before(#[trigger] n[j], #[trigger] n[i]) by {
        if j < p {
            assert(n[i] == out[i] && n[j] == out[j]);
        } else if j == p {
            assert(n[i] == out[i]);
        } else if i < p {
            assert(n[i] == out[i] && n[j] == out[j - 1]);
        } else if i == p {
            assert(n[j] == out[j - 1]);
            lemma_row_before_order(x, out[p], x);
            if j - 1 > p {
                lemma_row_before_order(out[j - 1], x, out[p]);
            }
        } else {
            assert(n[i] == out[i - 1] && n[j] == out[j - 1]);
        }
    }
}

/// `v` in row order, with the position in `v` each element came from.
fn sort_rows(v: Vec<FlaggedTrackRow>) -> (r: (Vec<FlaggedTrackRow>, Ghost<Seq<int>>))
    ensures
        r.0.len() == v.len(),
        rows_sorted(r.0@),
        r.1@.len() == v.len(),
        forall|k: int| 0 <= k < v.len() ==> 0 <= #[trigger] r.1@[k] < v.len() && r.0@[k] == v@[r.1@[k]],
        forall|a: int, b: int| 0 <= a < b < v.len() ==> #[trigger] r.1@[a] != #[trigger] r.1@[b],
        forall|j: int| 0 <= j < v.len() ==> #[trigger] covers(r.1@, j),
{
    let ghost v0 = v@;
    let mut v = v;
    let mut out: Vec<FlaggedTrackRow> = Vec::new();
    let ghost mut perm: Seq<int> = seq![];
    while v.len() > 0
        invariant
            v@ == v0.take(v.len() as int),
            out.len() + v.len() == v0.len(),
            perm.len() == out.len(),
            rows_sorted(out@),
            forall|k: int| 0 <= k < out.len() ==> v.len() <= #[trigger] perm[k] < v0.len() && out@[k] == v0[perm[k]],
            forall|a: int, b: int| 0 <= a < b < perm.len() ==> #[trigger] perm[a] != #[trigger] perm[b],
            forall|j: int| v.len() <= j < v0.len() ==> #[trigger] covers(perm, j),
        decreases v.len(),
    {
        let x = v.pop().unwrap();
        let ghost xi = v.len() as int;
        assert(x == v0[xi]);
        let mut p: usize = 0;
        while p < out.len()
            invariant
                p <= out.len(),
                forall|q: int| 0 <= q < p ==> !row_before(x, #[trigger] out@[q]),
            ensures
                p <= out.len(),
                forall|q: int| 0 <= q < p ==> !row_before(x, #[trigger] out@[q]),
                p < out.len() ==> row_before(x, out@[p as int]),
            decreases out.len() - p,
        {
            if row_goes_before(&x, &out[p]) {
                break;
            }
            p = p + 1;
        }
        proof {
            lemma_rows_insert_sorted(out@, p as int, x);
            lemma_selection_insert(out@, perm, v0, p as int, x, xi);
            perm = perm.insert(p as int, xi);
        }
        out.insert(p, x);
    }
    (out, Ghost(perm))
}

/// Aggregate raw `from\tto` flags into track×role rows for the edit tab.
///
/// Each flag whose key splits at its first TAB into two non-empty hashes,
/// and whose count is not zero, counts once for its `from` hash as an
/// outgoing row and once for its `to` hash as an incoming row. A row's
/// count, and each partner's, is the saturated sum of those counts. Rows
/// whose `(track_hash, role)` is dismissed are omitted; the partner
/// tallies of the remaining rows still come from every flag. Hashes
/// without metadata become `missing` rows and partners.
pub fn aggregate_flags(
    flags: &[(String, TransitionFlag)],
    meta_by_hash: &[(String, FlagTrackMeta)],
    dismissed: &[String],
) -> (rows: Vec<FlaggedTrackRow>)
    ensures
        forall|k: int|
            0 <= k < rows.len() ==> row_ok(
                #[trigger] rows@[k],
                contributions(flag_entries(flags@)),
                meta_by_hash@,
                dismissed@,
            ),
        rows_distinct(rows@),
        forall|t: Seq<char>, role: Role|
            has_key(contributions(flag_entries(flags@)), t, role) && !is_dismissed(dismissed@, t, role)
                ==> #[trigger] lists_row(rows@, t, role),
        rows_sorted(rows@),
        aggregated(rows@, flags@, meta_by_hash@, dismissed@),
{
    let cs = flag_contributions(flags);
    let ghost cv = contributions_view(cs@);
    let u = collect_rows(&cs, meta_by_hash, dismissed);
    let ghost u0 = u@;
    let (sorted, perm) = sort_rows(u);
    let ghost perm = perm@;
    proof {
        assert forall|k: int| 0 <= k < sorted.len() implies row_ok(#[trigger] sorted@[k], cv, meta_by_hash@, dismissed@) by {
            assert(0 <= perm[k] < u0.len());
            assert(sorted@[k] == u0[perm[k]]);
        }
        assert forall|a: int, b: int| 0 <= a < b < sorted.len() implies !(#[trigger] sorted@[a].track_hash@
            == #[trigger] sorted@[b].track_hash@ && row_role(sorted@[a]) == row_role(sorted@[b])) by {
            assert(sorted@[a] == u0[perm[a]]);
            assert(sorted@[b] == u0[perm[b]]);
            assert(perm[a] != perm[b]);
            if perm[a] < perm[b] {
                assert(!(u0[perm[a]].track_hash@ == u0[perm[b]].track_hash@ && row_role(u0[perm[a]]) == row_role(u0[perm[b]])));
            } else {
                assert(!(u0[perm[b]].track_hash@ == u0[perm[a]].track_hash@ && row_role(u0[perm[b]]) == row_role(u0[perm[a]])));
            }
        }
        assert forall|t: Seq<char>, role: Role|
            has_key(cv, t, role) && !is_dismissed(dismissed@, t, role) implies #[trigger] lists_row(sorted@, t, role) by {
            assert(lists_row(u0, t, role));
            let k0 = choose|k: int| 0 <= k < u0.len() && #[trigger] u0[k].track_hash@ == t && row_role(u0[k]) == role;
            assert(covers(perm, k0));
            let k = choose|k: int| 0 <= k < perm.len() && #[trigger] perm[k] == k0;
            assert(sorted@[k].track_hash@ == t);
        }
    }
    sorted
}

/// What [`aggregate_flags`] promises of its rows for `flags`, metadata
/// `ms` and the dismissed keys `dismissed`.
pub open spec fn aggregated(
    rows: Seq<FlaggedTrackRow>,
    flags: Seq<(String, TransitionFlag)>,
    ms: Seq<(String, FlagTrackMeta)>,
    dismissed: Seq<String>,
) -> bool {
    let cs = contributions(flag_entries(flags));
    &&& forall|k: int| 0 <= k < rows.len() ==> row_ok(#[trigger] rows[k], cs, ms, dismissed)
    &&& rows_distinct(rows)
    &&& forall|t: Seq<char>, role: Role| has_key(cs, t, role) && !is_dismissed(dismissed, t, role) ==> #[trigger] lists_row(rows, t, role)
    &&& rows_sorted(rows)
}

/// Dismissing only hides rows: every row shown with dismissals is a row the
/// same flags give without any, with the same count, metadata and partner
/// tallies (those still come from every flag), and the rows shown are
/// exactly those of the undismissed aggregation whose key is not dismissed.
pub proof fn lemma_dismissal_only_hides(
    rows: Seq<FlaggedTrackRow>,
    all_rows: Seq<FlaggedTrackRow>,
    flags: Seq<(String, TransitionFlag)>,
    ms: Seq<(String, FlagTrackMeta)>,
    dismissed: Seq<String>,
)
    requires
        aggregated(rows, flags, ms, dismissed),
        aggregated(all_rows, flags, ms, Seq::empty()),
    ensures
        forall|k: int| 0 <= k < rows.len() ==> row_ok(#[trigger] rows[k], contributions(flag_entries(flags)), ms, Seq::empty()),
        forall|t: Seq<char>, role: Role|
            #[trigger] lists_row(rows, t, role) <==> lists_row(all_rows, t, role) && !is_dismissed(dismissed, t, role),
{
    let cs = contributions(flag_entries(flags));
    assert forall|k: int| 0 <= k < rows.len() implies row_ok(#[trigger] rows[k], cs, ms, Seq::empty()) by {
        assert(row_ok(rows[k], cs, ms, dismissed));
        assert(!is_dismissed(Seq::<String>::empty(), rows[k].track_hash@, row_role(rows[k])));
    }
    assert forall|t: Seq<char>, role: Role|
        #[trigger] lists_row(rows, t, role) <==> lists_row(all_rows, t, role) && !is_dismissed(dismissed, t, role) by {
        if lists_row(rows, t, role) {
            let k = choose|k: int| 0 <= k < rows.len() && #[trigger] rows[k].track_hash@ == t && row_role(rows[k]) == role;
            assert(row_ok(rows[k], cs, ms, dismissed));
            assert(!is_dismissed(Seq::<String>::empty(), t, role));
            assert(lists_row(all_rows, t, role));
        }
        if lists_row(all_rows, t, role) && !is_dismissed(dismissed, t, role) {
            let k = choose|k: int| 0 <= k < all_rows.len() && #[trigger] all_rows[k].track_hash@ == t && row_role(all_rows[k]) == role;
            assert(row_ok(all_rows[k], cs, ms, Seq::empty()));
            assert(has_key(cs, t, role));
        }
    }
}

/// A partner as the values it shows, texts by their characters.
pub open spec fn partner_shown(p: FlagPartner) -> (Seq<char>, Seq<char>, u32, bool, Option<Seq<char>>) {
    (p.track_hash@, p.title@, p.count, p.missing, match p.path {
        Some(s) => Some(s@),
        None => None,
    })
}

/// Neither of two texts comes before the other only when they are one text.
proof fn lemma_lex_lt_total(a: Seq<char>, b: Seq<char>)
    ensures
        a != b ==> lex_lt(a, b) || lex_lt(b, a),
{
    lemma_lex_total(a, b);
}

/// Two lists of the partners of one `(track, role)`, each with one partner
/// per hash in partner order and the same hashes, show the same partners in
/// the same order.
proof fn lemma_partners_unique(
    a: Seq<FlagPartner>,
    b: Seq<FlagPartner>,
    cs: Seq<(Seq<char>, Role, Seq<char>, u32)>,
    track: Seq<char>,
    role: Role,
    ms: Seq<(String, FlagTrackMeta)>,
)
    requires
        forall|k: int| 0 <= k < a.len() ==> partner_ok(#[trigger] a[k], cs, track, role, ms),
        forall|k: int| 0 <= k < b.len() ==> partner_ok(#[trigger] b[k], cs, track, role, ms),
        forall|x: int, y: int| 0 <= x < y < a.len() ==> #[trigger] a[x].track_hash@ != #[trigger] a[y].track_hash@,
        forall|x: int, y: int| 0 <= x < y < b.len() ==> #[trigger] b[x].track_hash@ != #[trigger] b[y].track_hash@,
        partners_sorted(a),
        partners_sorted(b),
        forall|h: Seq<char>| #[trigger] lists_partner(a, h) <==> lists_partner(b, h),
    ensures
        a.len() == b.len(),
        forall|k: int| 0 <= k < a.len() ==> partner_shown(#[trigger] a[k]) == partner_shown(b[k]),
    decreases a.len(),
{
    if a.len() == 0 {
        if b.len() > 0 {
            assert(lists_partner(b, b[0].track_hash@));
            assert(lists_partner(a, b[0].track_hash@));
        }
    } else {
        assert(lists_partner(a, a[0].track_hash@));
        let j = choose|j: int| 0 <= j < b.len() && #[trigger] b[j].track_hash@ == a[0].track_hash@;
        assert(lists_partner(b, b[0].track_hash@));
        assert(lists_partner(a, b[0].track_hash@));
        let i = choose|i: int| 0 <= i < a.len() && #[trigger] a[i].track_hash@ == b[0].track_hash@;
        assert(partner_ok(a[0], cs, track, role, ms) && partner_ok(b[j], cs, track, role, ms));
        assert(partner_ok(a[i], cs, track, role, ms) && partner_ok(b[0], cs, track, role, ms));
        assert(partner_shown(a[0]) == partner_shown(b[j]));
        assert(partner_shown(a[i]) == partner_shown(b[0]));
        if a[0].track_hash@ != b[0].track_hash@ {
            assert(!partner_before(b[j], b[0]));
            assert(!partner_before(a[i], a[0]));
            lemma_lex_lt_total(a[0].title@, b[0].title@);
            lemma_lex_lt_total(a[0].track_hash@, b[0].track_hash@);
            assert(false);
        }
        let a2 = a.drop_first();
        let b2 = b.drop_first();
        assert forall|h: Seq<char>| #[trigger] lists_partner(a2, h) <==> lists_partner(b2, h) by {
            if lists_partner(a2, h) {
                let k = choose|k: int| 0 <= k < a2.len() && #[trigger] a2[k].track_hash@ == h;
                assert(a[k + 1] == a2[k]);
                assert(lists_partner(a, h));
                let m = choose|m: int| 0 <= m < b.len() && #[trigger] b[m].track_hash@ == h;
                assert(m != 0);
                assert(b2[m - 1] == b[m]);
            }
            if lists_partner(b2, h) {
                let k = choose|k: int| 0 <= k < b2.len() && #[trigger] b2[k].track_hash@ == h;
                assert(b[k + 1] == b2[k]);
                assert(lists_partner(b, h));
                assert(lists_partner(a, h));
                assert(b[0].track_hash@ != b[k + 1].track_hash@);
                let m = choose|m: int| 0 <= m < a.len() && #[trigger] a[m].track_hash@ == h;
                assert(m != 0);
                assert(a2[m - 1] == a[m]);
            }
        }
        assert forall|x: int, y: int| 0 <= x < y < a2.len() implies #[trigger] a2[x].track_hash@ != #[trigger] a2[y].track_hash@ by {
            assert(a2[x] == a[x + 1] && a2[y] == a[y + 1]);
        }
        assert forall|x: int, y: int| 0 <= x < y < b2.len() implies #[trigger] b2[x].track_hash@ != #[trigger] b2[y].track_hash@ by {
            assert(b2[x] == b[x + 1] && b2[y] == b[y + 1]);
        }
        assert forall|x: int, y: int| 0 <= x < y < a2.len() implies !partner_before(#[trigger] a2[y], #[trigger] a2[x]) by {
            assert(a2[x] == a[x + 1] && a2[y] == a[y + 1]);
        }
        assert forall|x: int, y: int| 0 <= x < y < b2.len() implies !partner_before(#[trigger] b2[y], #[trigger] b2[x]) by {
            assert(b2[x] == b[x + 1] && b2[y] == b[y + 1]);
        }
        assert forall|k: int| 0 <= k < a2.len() implies partner_ok(#[trigger] a2[k], cs, track, role, ms) by {
            assert(a2[k] == a[k + 1]);
        }
        assert forall|k: int| 0 <= k < b2.len() implies partner_ok(#[trigger] b2[k], cs, track, role, ms) by {
            assert(b2[k] == b[k + 1]);
        }
        lemma_partners_unique(a2, b2, cs, track, role, ms);
        assert forall|k: int| 0 <= k < a.len() implies partner_shown(#[trigger] a[k]) == partner_shown(b[k]) by {
            if k > 0 {
                assert(a2[k - 1] == a[k] && b2[k - 1] == b[k]);
            }
        }
    }
}

/// A row as the values it shows, texts by their characters.
pub struct ShownRow {
    pub track_hash: Seq<char>,
    pub role: Seq<char>,
    pub title: Seq<char>,
    pub artist: Seq<char>,
    pub count: u32,
    pub low_confidence: bool,
    pub missing: bool,
    pub partners: Seq<(Seq<char>, Seq<char>, u32, bool, Option<Seq<char>>)>,
    pub path: Option<Seq<char>>,
    pub intro_bars: Option<u32>,
    pub outro_structure_bars: Option<u32>,
    pub outro_bars: Option<u32>,
    pub intro_manual: bool,
    pub outro_manual: bool,
    pub analyzed: bool,
}

pub open spec fn row_shown(r: FlaggedTrackRow) -> ShownRow {
    ShownRow {
        track_hash: r.track_hash@,
        role: r.role@,
        title: r.title@,
        artist: r.artist@,
        count: r.count,
        low_confidence: r.low_confidence,
        missing: r.missing,
        partners: r.partners@.map_values(|p: FlagPartner| partner_shown(p)),
        path: match r.path {
            Some(s) => Some(s@),
            None => None,
        },
        intro_bars: r.intro_bars,
        outro_structure_bars: r.outro_structure_bars,
        outro_bars: r.outro_bars,
        intro_manual: r.intro_manual,
        outro_manual: r.outro_manual,
        analyzed: r.analyzed,
    }
}

/// The aggregated row of a `(track, role)` shows the same whatever else is
/// dismissed.
proof fn lemma_row_determined(
    r: FlaggedTrackRow,
    q: FlaggedTrackRow,
    cs: Seq<(Seq<char>, Role, Seq<char>, u32)>,
    ms: Seq<(String, FlagTrackMeta)>,
    d1: Seq<String>,
    d2: Seq<String>,
)
    requires
        row_ok(r, cs, ms, d1),
        row_ok(q, cs, ms, d2),
        r.track_hash@ == q.track_hash@,
        row_role(r) == row_role(q),
    ensures
        row_shown(r) == row_shown(q),
{
    let role = row_role(r);
    let t = r.track_hash@;
    let a = r.partners@;
    let b = q.partners@;
    assert forall|h: Seq<char>| #[trigger] lists_partner(a, h) <==> lists_partner(b, h) by {
        if lists_partner(a, h) {
            let k = choose|k: int| 0 <= k < a.len() && #[trigger] a[k].track_hash@ == h;
            assert(partner_ok(a[k], cs, t, role, ms));
        }
        if lists_partner(b, h) {
            let k = choose|k: int| 0 <= k < b.len() && #[trigger] b[k].track_hash@ == h;
            assert(partner_ok(b[k], cs, t, role, ms));
        }
    }
    lemma_partners_unique(a, b, cs, t, role, ms);
    assert(a.map_values(|p: FlagPartner| partner_shown(p)) =~= b.map_values(|p: FlagPartner| partner_shown(p)));
}

/// The rows of `rows` whose `(track, role)` is not dismissed, in order.
pub open spec fn kept_rows(rows: Seq<FlaggedTrackRow>, dismissed: Seq<String>) -> Seq<FlaggedTrackRow>
    decreases rows.len(),
{
    if rows.len() == 0 {
        seq![]
    } else {
        let rest = kept_rows(rows.drop_first(), dismissed);
        if is_dismissed(dismissed, rows[0].track_hash@, row_role(rows[0])) {
            rest
        } else {
            seq![rows[0]] + rest
        }
    }
}

/// Rows ordered and keyed as [`aggregate_flags`] gives them, listing exactly
/// the undismissed keys of `all`, show what the undismissed rows of `all`
/// show, in the same order.
proof fn lemma_rows_are_kept(
    rows: Seq<FlaggedTrackRow>,
    all: Seq<FlaggedTrackRow>,
    cs: Seq<(Seq<char>, Role, Seq<char>, u32)>,
    ms: Seq<(String, FlagTrackMeta)>,
    dismissed: Seq<String>,
)
    requires
        forall|k: int| 0 <= k < rows.len() ==> row_ok(#[trigger] rows[k], cs, ms, dismissed),
        forall|k: int| 0 <= k < all.len() ==> row_ok(#[trigger] all[k], cs, ms, Seq::empty()),
        rows_distinct(rows),
        rows_distinct(all),
        rows_sorted(rows),
        rows_sorted(all),
        forall|t: Seq<char>, role: Role|
            #[trigger] lists_row(rows, t, role) <==> lists_row(all, t, role) && !is_dismissed(dismissed, t, role),
    ensures
        rows.len() == kept_rows(all, dismissed).len(),
        forall|k: int| 0 <= k < rows.len() ==> row_shown(#[trigger] rows[k]) == row_shown(kept_rows(all, dismissed)[k]),
    decreases all.len(),
{
    let kept = kept_rows(all, dismissed);
    if all.len() == 0 {
        if rows.len() > 0 {
            assert(lists_row(rows, rows[0].track_hash@, row_role(rows[0])));
        }
        return;
    }
    let all2 = all.drop_first();
    assert forall|k: int| 0 <= k < all2.len() implies row_ok(#[trigger] all2[k], cs, ms, Seq::empty()) by {
        assert(all2[k] == all[k + 1]);
    }
    assert forall|x: int, y: int| 0 <= x < y < all2.len() implies !(#[trigger] all2[x].track_hash@ == #[trigger] all2[y].track_hash@
        && row_role(all2[x]) == row_role(all2[y])) by {
        assert(all2[x] == all[x + 1] && all2[y] == all[y + 1]);
    }
    assert forall|x: int, y: int| 0 <= x < y < all2.len() implies !row_before(#[trigger] all2[y], #[trigger] all2[x]) by {
        assert(all2[x] == all[x + 1] && all2[y] == all[y + 1]);
    }
    let t0 = all[0].track_hash@;
    let r0 = row_role(all[0]);
    // A key other than the first is listed by `all` exactly when the rest lists it.
    assert forall|t: Seq<char>, role: Role| !(t == t0 && role == r0) implies (lists_row(all, t, role) <==> lists_row(all2, t, role)) by {
        if lists_row(all, t, role) {
            let k = choose|k: int| 0 <= k < all.len() && #[trigger] all[k].track_hash@ == t && row_role(all[k]) == role;
            assert(k != 0);
            assert(all2[k - 1] == all[k]);
        }
        if lists_row(all2, t, role) {
            let k = choose|k: int| 0 <= k < all2.len() && #[trigger] all2[k].track_hash@ == t && row_role(all2[k]) == role;
            assert(all[k + 1] == all2[k]);
        }
    }
    assert(!lists_row(all2, t0, r0)) by {
        if lists_row(all2, t0, r0) {
            let k = choose|k: int| 0 <= k < all2.len() && #[trigger] all2[k].track_hash@ == t0 && row_role(all2[k]) == r0;
            assert(all[k + 1] == all2[k]);
        }
    }
    if is_dismissed(dismissed, t0, r0) {
        assert(kept == kept_rows(all2, dismissed));
        assert forall|t: Seq<char>, role: Role|
            #[trigger] lists_row(rows, t, role) <==> lists_row(all2, t, role) && !is_dismissed(dismissed, t, role) by {
            if !(t == t0 && role == r0) {
                assert(lists_row(all, t, role) <==> lists_row(all2, t, role));
            }
        }
        lemma_rows_are_kept(rows, all2, cs, ms, dismissed);
    } else {
        assert(lists_row(all, t0, r0));
        assert(lists_row(rows, t0, r0));
        let j = choose|j: int| 0 <= j < rows.len() && #[trigger] rows[j].track_hash@ == t0 && row_role(rows[j]) == r0;
        let t1 = rows[0].track_hash@;
        let r1 = row_role(rows[0]);
        assert(lists_row(rows, t1, r1));
        let i = choose|i: int| 0 <= i < all.len() && #[trigger] all[i].track_hash@ == t1 && row_role(all[i]) == r1;
        assert(row_ok(rows[j], cs, ms, dismissed) && row_ok(all[0], cs, ms, Seq::empty()));
        assert(row_ok(rows[0], cs, ms, dismissed) && row_ok(all[i], cs, ms, Seq::empty()));
        lemma_row_determined(rows[j], all[0], cs, ms, dismissed, Seq::empty());
        lemma_row_determined(rows[0], all[i], cs, ms, dismissed, Seq::empty());
        if !(t1 == t0 && r1 == r0) {
            assert(i != 0 && j != 0);
            assert(!row_before(rows[j], rows[0]));
            assert(!row_before(all[i], all[0]));
            lemma_lex_lt_total(all[0].title@, rows[0].title@);
            lemma_lex_lt_total(t0, t1);
            assert(false);
        }
        let rows2 = rows.drop_first();
        assert(kept == seq![all[0]] + kept_rows(all2, dismissed));
        assert forall|k: int| 0 <= k < rows2.len() implies row_ok(#[trigger] rows2[k], cs, ms, dismissed) by {
            assert(rows2[k] == rows[k + 1]);
        }
        assert forall|x: int, y: int| 0 <= x < y < rows2.len() implies !(#[trigger] rows2[x].track_hash@ == #[trigger] rows2[y].track_hash@
            && row_role(rows2[x]) == row_role(rows2[y])) by {
            assert(rows2[x] == rows[x + 1] && rows2[y] == rows[y + 1]);
        }
        assert forall|x: int, y: int| 0 <= x < y < rows2.len() implies !row_before(#[trigger] rows2[y], #[trigger] rows2[x]) by {
            assert(rows2[x] == rows[x + 1] && rows2[y] == rows[y + 1]);
        }
        assert forall|t: Seq<char>, role: Role|
            #[trigger] lists_row(rows2, t, role) <==> lists_row(all2, t, role) && !is_dismissed(dismissed, t, role) by {
            if lists_row(rows2, t, role) {
                let k = choose|k: int| 0 <= k < rows2.len() && #[trigger] rows2[k].track_hash@ == t && row_role(rows2[k]) == role;
                assert(rows[k + 1] == rows2[k]);
                assert(lists_row(rows, t, role));
                assert(!(rows[0].track_hash@ == rows[k + 1].track_hash@ && row_role(rows[0]) == row_role(rows[k + 1])));
            }
            if lists_row(all2, t, role) && !is_dismissed(dismissed, t, role) {
                assert(!(t == t0 && role == r0));
                assert(lists_row(all, t, role));
                assert(lists_row(rows, t, role));
                let k = choose|k: int| 0 <= k < rows.len() && #[trigger] rows[k].track_hash@ == t && row_role(rows[k]) == role;
                assert(k != 0);
                assert(rows2[k - 1] == rows[k]);
            }
        }
        lemma_rows_are_kept(rows2, all2, cs, ms, dismissed);
        assert forall|k: int| 0 <= k < rows.len() implies row_shown(#[trigger] rows[k]) == row_shown(kept[k]) by {
            if k > 0 {
                assert(rows2[k - 1] == rows[k]);
                assert(kept[k] == kept_rows(all2, dismissed)[k - 1]);
            }
        }
    }
}

/// A row's low-confidence mark is its track's confidence on the side the row
/// is about, whatever the other side says: an outgoing row takes the track's
/// outro confidence, an incoming row its intro confidence. A track with
/// metadata shows its title, artist, path, bars and analysis marks as they
/// are; one without is shown missing and never low-confidence.
pub proof fn lemma_row_confidence_side(
    rows: Seq<FlaggedTrackRow>,
    flags: Seq<(String, TransitionFlag)>,
    ms: Seq<(String, FlagTrackMeta)>,
    dismissed: Seq<String>,
)
    requires
        aggregated(rows, flags, ms, dismissed),
    ensures
        forall|k: int| 0 <= k < rows.len() ==> (#[trigger] rows[k]).role@ == "outgoing"@ || rows[k].role@ == "incoming"@,
        forall|k: int|
            0 <= k < rows.len() && (#[trigger] rows[k]).role@ == "outgoing"@ && meta_for(ms, rows[k].track_hash@) is Some
                ==> rows[k].low_confidence == meta_for(ms, rows[k].track_hash@)->0.outro_low_confidence,
        forall|k: int|
            0 <= k < rows.len() && (#[trigger] rows[k]).role@ == "incoming"@ && meta_for(ms, rows[k].track_hash@) is Some
                ==> rows[k].low_confidence == meta_for(ms, rows[k].track_hash@)->0.intro_low_confidence,
        forall|k: int|
            0 <= k < rows.len() && meta_for(ms, (#[trigger] rows[k]).track_hash@) is None ==> rows[k].missing
                && !rows[k].low_confidence,
        forall|k: int|
            0 <= k < rows.len() && meta_for(ms, (#[trigger] rows[k]).track_hash@) is Some ==> {
                let m = meta_for(ms, rows[k].track_hash@)->0;
                &&& !rows[k].missing
                &&& rows[k].title == m.title
                &&& rows[k].artist == m.artist
                &&& rows[k].path == m.path
                &&& rows[k].intro_bars == m.intro_bars
                &&& rows[k].outro_structure_bars == m.outro_structure_bars
                &&& rows[k].outro_bars == m.outro_bars
                &&& rows[k].intro_manual == m.intro_manual
                &&& rows[k].outro_manual == m.outro_manual
                &&& rows[k].analyzed == m.analyzed
            },
{
    reveal_strlit("outgoing");
    reveal_strlit("incoming");
    assert("outgoing"@[0] != "incoming"@[0]);
    let cs = contributions(flag_entries(flags));
    assert forall|k: int| 0 <= k < rows.len() implies row_ok(#[trigger] rows[k], cs, ms, dismissed) by {}
}

/// Dismissing keeps the rest as it was: the rows shown with dismissals are,
/// one for one and in the same order, the rows the same flags give without
/// any, less those whose `(track, role)` is dismissed; each shows the same
/// count, metadata and partner tallies.
pub proof fn lemma_dismissal_keeps_the_rest(
    rows: Seq<FlaggedTrackRow>,
    all_rows: Seq<FlaggedTrackRow>,
    flags: Seq<(String, TransitionFlag)>,
    ms: Seq<(String, FlagTrackMeta)>,
    dismissed: Seq<String>,
)
    requires
        aggregated(rows, flags, ms, dismissed),
        aggregated(all_rows, flags, ms, Seq::empty()),
    ensures
        rows.len() == kept_rows(all_rows, dismissed).len(),
        forall|k: int| 0 <= k < rows.len() ==> row_shown(#[trigger] rows[k]) == row_shown(kept_rows(all_rows, dismissed)[k]),
{
    lemma_dismissal_only_hides(rows, all_rows, flags, ms, dismissed);
    lemma_rows_are_kept(rows, all_rows, contributions(flag_entries(flags)), ms, dismissed);
}

} // verus!
