//! The small, stable subset of embedded audio metadata the library index
//! uses, and the choice of a production year among date candidates.
use vstd::prelude::*;

use crate::dates::{parse_year, year_of};
use crate::tags::{tag_value, Tag, TagKind, MAX_SCALARS};
use crate::text::{any_control, chars_of, has_control, string_of, trim_chars, trimmed};

verus! {

/// The meaning of a date candidate, in decreasing production-year priority.
#[derive(Clone, Copy, Debug, PartialEq, Eq, Structural)]
pub enum YearSemantic {
    Recording,
    Generic,
    Release,
    Original,
}

pub open spec fn semantic_rank(s: YearSemantic) -> u8 {
    match s {
        YearSemantic::Recording => 0,
        YearSemantic::Generic => 1,
        YearSemantic::Release => 2,
        YearSemantic::Original => 3,
    }
}

pub open spec fn is_production(s: YearSemantic) -> bool {
    s == YearSemantic::Recording || s == YearSemantic::Generic
}

impl YearSemantic {
    pub fn rank(self) -> (r: u8)
        ensures
            r == semantic_rank(self),
    {
        match self {
            YearSemantic::Recording => 0,
            YearSemantic::Generic => 1,
            YearSemantic::Release => 2,
            YearSemantic::Original => 3,
        }
    }

    pub fn is_production_year(self) -> (r: bool)
        ensures
            r == is_production(self),
    {
        match self {
            YearSemantic::Recording | YearSemantic::Generic => true,
            _ => false,
        }
    }
}

/// A source value retained so a resolver can explain its decision.
#[derive(Debug, PartialEq, Eq)]
pub struct YearCandidate {
    pub raw_key: String,
    pub raw_value: String,
    pub semantic: YearSemantic,
    pub rank: u8,
}

impl YearCandidate {
    pub fn new(raw_key: String, raw_value: String, semantic: YearSemantic) -> (r: YearCandidate)
        ensures
            r.raw_key == raw_key,
            r.raw_value == raw_value,
            r.semantic == semantic,
            r.rank == semantic_rank(semantic),
    {
        let rank = semantic.rank();
        YearCandidate { raw_key, raw_value, rank, semantic }
    }

    /// A copy of this candidate.
    pub fn duplicate(&self) -> (r: YearCandidate)
        ensures
            r == *self,
    {
        YearCandidate {
            raw_key: self.raw_key.clone(),
            raw_value: self.raw_value.clone(),
            semantic: self.semantic,
            rank: self.rank,
        }
    }
}

/// The time-dependent outcome of selecting a production year.
#[derive(Debug, PartialEq, Eq)]
pub enum YearResolution {
    Ready { year: u16, semantic: YearSemantic },
    Missing,
    Invalid { candidates: Vec<YearCandidate> },
    Future { candidates: Vec<YearCandidate> },
    Conflict { candidates: Vec<YearCandidate> },
}

/// Data obtained from an audio file without mutating it.
#[derive(Debug, PartialEq, Eq)]
pub struct Metadata {
    pub title: Option<String>,
    pub artist: Option<String>,
    /// Native genre values, neither split nor deduplicated.
    pub genres: Vec<String>,
    pub year_candidates: Vec<YearCandidate>,
    /// Non-fatal extraction observations, deduplicated by their message.
    pub diagnostics: Vec<String>,
}

impl Metadata {
    pub fn new() -> (r: Metadata)
        ensures
            r.title is None,
            r.artist is None,
            r.genres@.len() == 0,
            r.year_candidates@.len() == 0,
            r.diagnostics@.len() == 0,
            meta_view(r) == empty_meta(),
    {
        let r = Metadata { title: None, artist: None, genres: Vec::new(), year_candidates: Vec::new(), diagnostics: Vec::new() };
        assert(meta_view(r).genres =~= empty_meta().genres);
        assert(meta_view(r).candidates =~= empty_meta().candidates);
        assert(meta_view(r).diagnostics =~= empty_meta().diagnostics);
        r
    }
}

/// The candidates with semantic `s`, in order.
pub open spec fn with_semantic(cs: Seq<YearCandidate>, s: YearSemantic) -> Seq<YearCandidate>
    decreases cs.len(),
{
    if cs.len() == 0 {
        seq![]
    } else {
        let w = with_semantic(cs.drop_last(), s);
        if cs.last().semantic == s {
            w.push(cs.last())
        } else {
            w
        }
    }
}

pub open spec fn has_semantic(cs: Seq<YearCandidate>, s: YearSemantic) -> bool {
    exists|i: int| 0 <= i < cs.len() && #[trigger] cs[i].semantic == s
}

/// The production candidates of best priority: recording dates when there
/// are any, else generic dates.
pub open spec fn best_candidates(cs: Seq<YearCandidate>) -> Seq<YearCandidate> {
    if has_semantic(cs, YearSemantic::Recording) {
        with_semantic(cs, YearSemantic::Recording)
    } else {
        with_semantic(cs, YearSemantic::Generic)
    }
}

/// The production year of `cs` as of `current_year`: missing without a
/// recording or generic date; invalid when a best candidate does not parse;
/// a conflict when they disagree; in the future when after `current_year`.
pub open spec fn resolution(cs: Seq<YearCandidate>, current_year: u16) -> ResolutionView {
    let best = best_candidates(cs);
    if best.len() == 0 {
        ResolutionView::Missing
    } else if exists|i: int| 0 <= i < best.len() && #[trigger] year_of(best[i].raw_value@) is None {
        ResolutionView::Invalid
    } else if exists|i: int| 0 <= i < best.len() && #[trigger] year_of(best[i].raw_value@) != year_of(best[0].raw_value@) {
        ResolutionView::Conflict
    } else if year_of(best[0].raw_value@)->0 > current_year {
        ResolutionView::Future
    } else {
        ResolutionView::Ready { year: year_of(best[0].raw_value@)->0, semantic: best[0].semantic }
    }
}

/// Which outcome a resolution is, with the year when there is one.
pub enum ResolutionView {
    Ready { year: u16, semantic: YearSemantic },
    Missing,
    Invalid,
    Future,
    Conflict,
}

/// What a resolution says, and the candidates it lists.
pub open spec fn resolution_of(r: YearResolution) -> (ResolutionView, Seq<YearCandidate>) {
    match r {
        YearResolution::Ready { year, semantic } => (ResolutionView::Ready { year, semantic }, seq![]),
        YearResolution::Missing => (ResolutionView::Missing, seq![]),
        YearResolution::Invalid { candidates } => (ResolutionView::Invalid, candidates@),
        YearResolution::Future { candidates } => (ResolutionView::Future, candidates@),
        YearResolution::Conflict { candidates } => (ResolutionView::Conflict, candidates@),
    }
}

fn filter_semantic(cs: &[YearCandidate], s: YearSemantic) -> (r: Vec<YearCandidate>)
    ensures
        r@ == with_semantic(cs@, s),
{
    let mut out: Vec<YearCandidate> = Vec::new();
    let mut i: usize = 0;
    assert(cs@.take(0) =~= seq![]);
    while i < cs.len()
        invariant
            i <= cs.len(),
            out@ == with_semantic(cs@.take(i as int), s),
        decreases cs.len() - i,
    {
        assert(cs@.take(i as int + 1).drop_last() =~= cs@.take(i as int));
        if cs[i].semantic == s {
            out.push(cs[i].duplicate());
        }
        i = i + 1;
    }
    assert(cs@.take(cs.len() as int) =~= cs@);
    out
}

fn any_semantic(cs: &[YearCandidate], s: YearSemantic) -> (r: bool)
    ensures
        r == has_semantic(cs@, s),
{
    let mut i: usize = 0;
    while i < cs.len()
        invariant
            i <= cs.len(),
            forall|j: int| 0 <= j < i ==> #[trigger] cs@[j].semantic != s,
        decreases cs.len() - i,
    {
        if cs[i].semantic == s {
            return true;
        }
        i = i + 1;
    }
    false
}

/// Resolve the production year with an injected clock. Release and original
/// dates stay candidates but never become production years.
pub fn resolve_year(candidates: &[YearCandidate], current_year: u16) -> (r: YearResolution)
    ensures
        resolution_of(r).0 == resolution(candidates@, current_year),
        match r {
            YearResolution::Invalid { candidates: c } => c@ == best_candidates(candidates@),
            YearResolution::Future { candidates: c } => c@ == best_candidates(candidates@),
            YearResolution::Conflict { candidates: c } => c@ == best_candidates(candidates@),
            _ => true,
        },
{
    let best = if any_semantic(candidates, YearSemantic::Recording) {
        filter_semantic(candidates, YearSemantic::Recording)
    } else {
        filter_semantic(candidates, YearSemantic::Generic)
    };
    if best.len() == 0 {
        return YearResolution::Missing;
    }
    let ghost bc = best_candidates(candidates@);
    assert(best@ == bc);
    let mut years: Vec<u16> = Vec::new();
    let mut i: usize = 0;
    while i < best.len()
        invariant
            i <= best.len(),
            best@ == bc,
            bc == best_candidates(candidates@),
            years.len() == i,
            forall|j: int| 0 <= j < i ==> year_of(#[trigger] best@[j].raw_value@) == Some(years@[j]),
        decreases best.len() - i,
    {
        match parse_year(best[i].raw_value.as_str()) {
            Some(y) => years.push(y),
            None => {
                assert(year_of(best@[i as int].raw_value@) is None);
                return YearResolution::Invalid { candidates: best };
            },
        }
        i = i + 1;
    }
    let mut k: usize = 0;
    while k < years.len()
        invariant
            k <= years.len(),
            years.len() == best.len(),
            best.len() > 0,
            best@ == bc,
            bc == best_candidates(candidates@),
            forall|j: int| 0 <= j < best.len() ==> year_of(#[trigger] best@[j].raw_value@) == Some(years@[j]),
            forall|j: int| 0 <= j < k ==> #[trigger] years@[j] == years@[0],
        decreases years.len() - k,
    {
        if years[k] != years[0] {
            proof {
                assert(year_of(best@[k as int].raw_value@) != year_of(best@[0].raw_value@));
                assert forall|j: int| 0 <= j < best.len() implies !(#[trigger] year_of(best@[j].raw_value@) is None) by {
                    assert(year_of(best@[j].raw_value@) == Some(years@[j]));
                }
            }
            return YearResolution::Conflict { candidates: best };
        }
        k = k + 1;
    }
    proof {
        assert forall|j: int| 0 <= j < best.len() implies #[trigger] year_of(best@[j].raw_value@) == year_of(best@[0].raw_value@) by {
            assert(years@[j] == years@[0]);
        }
    }
    if years[0] > current_year {
        return YearResolution::Future { candidates: best };
    }
    YearResolution::Ready { year: years[0], semantic: best[0].semantic }
}

/// `value` trimmed, when that is non-empty and free of control characters.
pub open spec fn cleaned_value(value: Seq<char>) -> Option<Seq<char>> {
    let v = trimmed(value);
    if v.len() == 0 || has_control(v) {
        None
    } else {
        Some(v)
    }
}

pub fn cleaned(value: &str) -> (r: Option<String>)
    ensures
        match r {
            Some(s) => cleaned_value(value@) == Some(s@),
            None => cleaned_value(value@) is None,
        },
{
    let cs = chars_of(value);
    let v = trim_chars(cs.as_slice());
    if v.len() == 0 || any_control(v.as_slice()) {
        None
    } else {
        Some(string_of(v.as_slice()))
    }
}

/// The message recorded once when genre values are dropped.
pub open spec fn invalid_genre_message() -> Seq<char> {
    "ignored invalid genre value"@
}

/// `diagnostics` with `message` appended unless it is already there.
pub open spec fn noted(diagnostics: Seq<String>, message: Seq<char>) -> Seq<Seq<char>> {
    let d = diagnostics.map_values(|s: String| s@);
    if d.contains(message) {
        d
    } else {
        d.push(message)
    }
}

pub fn diagnostic_once(metadata: &mut Metadata, message: String)
    ensures
        final(metadata).diagnostics@.map_values(|s: String| s@) == noted(old(metadata).diagnostics@, message@),
        final(metadata).title == old(metadata).title,
        final(metadata).artist == old(metadata).artist,
        final(metadata).genres == old(metadata).genres,
        final(metadata).year_candidates == old(metadata).year_candidates,
{
    let ghost d = metadata.diagnostics@.map_values(|s: String| s@);
    let mut i: usize = 0;
    while i < metadata.diagnostics.len()
        invariant
            i <= metadata.diagnostics.len(),
            d == metadata.diagnostics@.map_values(|s: String| s@),
            forall|j: int| 0 <= j < i ==> #[trigger] d[j] != message@,
        decreases metadata.diagnostics.len() - i,
    {
        if metadata.diagnostics[i] == message {
            assert(d[i as int] == message@);
            return;
        }
        i = i + 1;
    }
    metadata.diagnostics.push(message);
    assert(metadata.diagnostics@.map_values(|s: String| s@) =~= d.push(message@));
}

/// Record `value` as a genre when it makes a valid genre tag, else note
/// (once) that a genre value was dropped.
pub fn push_genre(metadata: &mut Metadata, value: &str)
    ensures
        ({
            let v = tag_value(value@);
            if v.len() == 0 || has_control(v) || v.len() > MAX_SCALARS {
                &&& final(metadata).genres == old(metadata).genres
                &&& final(metadata).diagnostics@.map_values(|s: String| s@) == noted(old(metadata).diagnostics@, invalid_genre_message())
            } else {
                &&& final(metadata).genres@.len() == old(metadata).genres@.len() + 1
                &&& final(metadata).genres@.drop_last() == old(metadata).genres@
                &&& final(metadata).genres@.last()@ == v
                &&& final(metadata).diagnostics == old(metadata).diagnostics
            }
        }),
        final(metadata).title == old(metadata).title,
        final(metadata).artist == old(metadata).artist,
        final(metadata).year_candidates == old(metadata).year_candidates,
{
    match Tag::new(TagKind::Genre, value) {
        Ok(tag) => {
            metadata.genres.push(tag.value);
        },
        Err(_) => {
            diagnostic_once(metadata, "ignored invalid genre value".to_owned());
        },
    }
}

pub open spec fn candidate_view(c: YearCandidate) -> (Seq<char>, Seq<char>, YearSemantic, u8) {
    (c.raw_key@, c.raw_value@, c.semantic, c.rank)
}

pub open spec fn candidate_views(cs: Seq<YearCandidate>) -> Seq<(Seq<char>, Seq<char>, YearSemantic, u8)> {
    cs.map_values(|c: YearCandidate| candidate_view(c))
}

/// Add a year candidate unless an equal one is already recorded.
pub fn push_candidate(metadata: &mut Metadata, raw_key: String, raw_value: String, semantic: YearSemantic)
    ensures
        ({
            let c = (raw_key@, raw_value@, semantic, semantic_rank(semantic));
            let before = candidate_views(old(metadata).year_candidates@);
            candidate_views(final(metadata).year_candidates@) == if before.contains(c) {
                before
            } else {
                before.push(c)
            }
        }),
        final(metadata).title == old(metadata).title,
        final(metadata).artist == old(metadata).artist,
        final(metadata).genres == old(metadata).genres,
        final(metadata).diagnostics == old(metadata).diagnostics,
{
    let candidate = YearCandidate::new(raw_key, raw_value, semantic);
    let ghost before = candidate_views(metadata.year_candidates@);
    let mut i: usize = 0;
    while i < metadata.year_candidates.len()
        invariant
            i <= metadata.year_candidates.len(),
            before == candidate_views(metadata.year_candidates@),
            before == candidate_views(old(metadata).year_candidates@),
            *metadata == *old(metadata),
            candidate_view(candidate) == (raw_key@, raw_value@, semantic, semantic_rank(semantic)),
            forall|j: int| 0 <= j < i ==> #[trigger] before[j] != candidate_view(candidate),
        decreases metadata.year_candidates.len() - i,
    {
        let c = &metadata.year_candidates[i];
        if c.raw_key == candidate.raw_key && c.raw_value == candidate.raw_value && c.semantic == candidate.semantic
            && c.rank == candidate.rank {
            assert(before[i as int] == candidate_view(candidate));
            assert(before.contains(candidate_view(candidate)));
            return;
        }
        i = i + 1;
    }
    metadata.year_candidates.push(candidate);
    assert(candidate_views(metadata.year_candidates@) =~= before.push(candidate_view(candidate)));
}

pub open spec fn is_nul(c: char) -> bool {
    c == '\0'
}

fn nul_char(c: char) -> (r: bool)
    ensures
        r == is_nul(c),
{
    c == '\0'
}

/// Number of leading NUL characters.
pub open spec fn lead_nul(s: Seq<char>) -> nat
    decreases s.len(),
{
    if s.len() > 0 && is_nul(s[0]) {
        1 + lead_nul(s.drop_first())
    } else {
        0
    }
}

/// Number of trailing NUL characters.
pub open spec fn trail_nul(s: Seq<char>) -> nat
    decreases s.len(),
{
    if s.len() > 0 && is_nul(s.last()) {
        1 + trail_nul(s.drop_last())
    } else {
        0
    }
}

/// `s` without leading and trailing NUL characters.
pub open spec fn nul_trimmed(s: Seq<char>) -> Seq<char> {
    let t = s.skip(lead_nul(s) as int);
    t.take(t.len() - trail_nul(t))
}

proof fn lemma_lead_nul(s: Seq<char>, i: int)
    requires
        0 <= i <= s.len(),
        forall|j: int| 0 <= j < i ==> is_nul(s[j]),
        i == s.len() || !is_nul(s[i]),
    ensures
        lead_nul(s) == i,
    decreases i,
{
    if i > 0 {
        let t = s.drop_first();
        assert forall|j: int| 0 <= j < i - 1 implies is_nul(t[j]) by {
            assert(t[j] == s[j + 1]);
        }
        if i - 1 < t.len() {
            assert(t[i - 1] == s[i]);
        }
        lemma_lead_nul(t, i - 1);
    }
}

proof fn lemma_trail_nul(s: Seq<char>, i: int)
    requires
        0 <= i <= s.len(),
        forall|j: int| s.len() - i <= j < s.len() ==> is_nul(s[j]),
        i == s.len() || !is_nul(s[s.len() - 1 - i]),
    ensures
        trail_nul(s) == i,
    decreases i,
{
    if i > 0 {
        let t = s.drop_last();
        assert forall|j: int| t.len() - (i - 1) <= j < t.len() implies is_nul(t[j]) by {
            assert(t[j] == s[j]);
        }
        if i - 1 < t.len() {
            assert(t[t.len() - 1 - (i - 1)] == s[s.len() - 1 - i]);
        }
        lemma_trail_nul(t, i - 1);
    }
}

proof fn lemma_lead_nul_bound(s: Seq<char>)
    ensures
        lead_nul(s) <= s.len(),
    decreases s.len(),
{
    if s.len() > 0 && is_nul(s[0]) {
        lemma_lead_nul_bound(s.drop_first());
    }
}

proof fn lemma_trail_nul_bound(s: Seq<char>)
    ensures
        trail_nul(s) <= s.len(),
    decreases s.len(),
{
    if s.len() > 0 && is_nul(s.last()) {
        lemma_trail_nul_bound(s.drop_last());
    }
}

/// `s` without leading and trailing NUL characters.
pub fn trim_nul_chars(s: &[char]) -> (r: Vec<char>)
    ensures
        r@ == nul_trimmed(s@),
{
    let n = s.len();
    let mut a: usize = 0;
    while a < n && nul_char(s[a])
        invariant
            a <= n,
            n == s.len(),
            forall|j: int| 0 <= j < a ==> is_nul(s@[j]),
        decreases n - a,
    {
        a = a + 1;
    }
    proof {
        lemma_lead_nul(s@, a as int);
    }
    let ghost t = s@.skip(a as int);
    let mut b: usize = n;
    while b > a && nul_char(s[b - 1])
        invariant
            a <= b <= n,
            n == s.len(),
            t == s@.skip(a as int),
            forall|j: int| b <= j < n ==> is_nul(s@[j]),
        decreases b,
    {
        b = b - 1;
    }
    proof {
        assert forall|j: int| t.len() - (n - b) <= j < t.len() implies is_nul(t[j]) by {
            assert(t[j] == s@[j + a]);
        }
        if n - b < t.len() {
            assert(t[t.len() - 1 - (n - b)] == s@[b - 1]);
        }
        lemma_trail_nul(t, (n - b) as int);
    }
    let mut r: Vec<char> = Vec::new();
    let mut i = a;
    while i < b
        invariant
            a <= i <= b,
            b <= n,
            n == s.len(),
            r@ == s@.subrange(a as int, i as int),
        decreases b - i,
    {
        r.push(s[i]);
        proof {
            assert(s@.subrange(a as int, i as int + 1) =~= s@.subrange(a as int, i as int).push(
                s@[i as int],
            ));
        }
        i = i + 1;
    }
    assert(r@ =~= nul_trimmed(s@));
    r
}


/// The RIFF INFO field a four-byte id names.
#[derive(Clone, Copy, Debug, PartialEq, Eq, Structural)]
pub enum InfoField {
    Title,
    Artist,
    Genre,
    CreationDate,
    Other,
}

pub open spec fn info_field(key: Seq<u8>) -> InfoField {
    if key == seq![73u8, 78u8, 65u8, 77u8] {
        InfoField::Title
    } else if key == seq![73u8, 65u8, 82u8, 84u8] {
        InfoField::Artist
    } else if key == seq![73u8, 71u8, 78u8, 82u8] {
        InfoField::Genre
    } else if key == seq![73u8, 67u8, 82u8, 68u8] {
        InfoField::CreationDate
    } else {
        InfoField::Other
    }
}

fn field_of(key: &[u8; 4]) -> (r: InfoField)
    ensures
        r == info_field(key@),
{
    let (a, b, c, d) = (key[0], key[1], key[2], key[3]);
    proof {
        assert(key@ =~= seq![a, b, c, d]);
    }
    if a == 73u8 && b == 78u8 && c == 65u8 && d == 77u8 {
        InfoField::Title
    } else if a == 73u8 && b == 65u8 && c == 82u8 && d == 84u8 {
        InfoField::Artist
    } else if a == 73u8 && b == 71u8 && c == 78u8 && d == 82u8 {
        InfoField::Genre
    } else if a == 73u8 && b == 67u8 && c == 82u8 && d == 68u8 {
        InfoField::CreationDate
    } else {
        proof {
            assert(seq![a, b, c, d][0] == a && seq![a, b, c, d][1] == b);
            assert(seq![a, b, c, d][2] == c && seq![a, b, c, d][3] == d);
        }
        InfoField::Other
    }
}

/// The values a reader fills in a [`Metadata`]: title, artist, genres, year
/// candidates and diagnostics, each by its text.
pub struct MetaView {
    pub title: Option<Seq<char>>,
    pub artist: Option<Seq<char>>,
    pub genres: Seq<Seq<char>>,
    pub candidates: Seq<(Seq<char>, Seq<char>, YearSemantic, u8)>,
    pub diagnostics: Seq<Seq<char>>,
}

pub open spec fn meta_view(m: Metadata) -> MetaView {
    MetaView {
        title: opt_string_view(m.title),
        artist: opt_string_view(m.artist),
        genres: m.genres@.map_values(|s: String| s@),
        candidates: candidate_views(m.year_candidates@),
        diagnostics: m.diagnostics@.map_values(|s: String| s@),
    }
}

/// `d` with `message` added, unless it is already there.
pub open spec fn note_once(d: Seq<Seq<char>>, message: Seq<char>) -> Seq<Seq<char>> {
    if d.contains(message) {
        d
    } else {
        d.push(message)
    }
}

/// The metadata after one RIFF INFO field `key` with text `value`.
pub open spec fn info_recorded(m: MetaView, key: Seq<u8>, value: Seq<char>) -> MetaView {
    let v = nul_trimmed(value);
    match info_field(key) {
        InfoField::Title => MetaView {
            title: match cleaned_value(v) {
                Some(c) => Some(c),
                None => m.title,
            },
            artist: m.artist,
            genres: m.genres,
            candidates: m.candidates,
            diagnostics: m.diagnostics,
        },
        InfoField::Artist => MetaView {
            title: m.title,
            artist: match cleaned_value(v) {
                Some(c) => Some(c),
                None => m.artist,
            },
            genres: m.genres,
            candidates: m.candidates,
            diagnostics: m.diagnostics,
        },
        InfoField::Genre => {
            let g = tag_value(v);
            if g.len() == 0 || has_control(g) || g.len() > MAX_SCALARS {
                MetaView {
                    title: m.title,
                    artist: m.artist,
                    genres: m.genres,
                    candidates: m.candidates,
                    diagnostics: note_once(m.diagnostics, invalid_genre_message()),
                }
            } else {
                MetaView {
                    title: m.title,
                    artist: m.artist,
                    genres: m.genres.push(g),
                    candidates: m.candidates,
                    diagnostics: m.diagnostics,
                }
            }
        },
        InfoField::CreationDate => {
            let c = ("ICRD"@, v, YearSemantic::Recording, 0u8);
            MetaView {
                title: m.title,
                artist: m.artist,
                genres: m.genres,
                candidates: if m.candidates.contains(c) {
                    m.candidates
                } else {
                    m.candidates.push(c)
                },
                diagnostics: m.diagnostics,
            }
        },
        InfoField::Other => m,
    }
}

/// Record one RIFF INFO field: a clean title or artist, a genre, or the
/// creation date as a recording-date candidate; the value first loses its
/// NUL padding.
pub fn collect_riff_info(key: &[u8; 4], value: &str, metadata: &mut Metadata)
    ensures
        ({
            let v = nul_trimmed(value@);
            match info_field(key@) {
                InfoField::Title => {
                    &&& opt_string_view(final(metadata).title) == match cleaned_value(v) {
                        Some(c) => Some(c),
                        None => opt_string_view(old(metadata).title),
                    }
                    &&& final(metadata).artist == old(metadata).artist
                    &&& final(metadata).genres == old(metadata).genres
                    &&& final(metadata).year_candidates == old(metadata).year_candidates
                    &&& final(metadata).diagnostics == old(metadata).diagnostics
                },
                InfoField::Artist => {
                    &&& opt_string_view(final(metadata).artist) == match cleaned_value(v) {
                        Some(c) => Some(c),
                        None => opt_string_view(old(metadata).artist),
                    }
                    &&& final(metadata).title == old(metadata).title
                    &&& final(metadata).genres == old(metadata).genres
                    &&& final(metadata).year_candidates == old(metadata).year_candidates
                    &&& final(metadata).diagnostics == old(metadata).diagnostics
                },
                InfoField::Genre => {
                    let g = tag_value(v);
                    &&& final(metadata).title == old(metadata).title
                    &&& final(metadata).artist == old(metadata).artist
                    &&& final(metadata).year_candidates == old(metadata).year_candidates
                    &&& if g.len() == 0 || has_control(g) || g.len() > MAX_SCALARS {
                        &&& final(metadata).genres == old(metadata).genres
                        &&& final(metadata).diagnostics@.map_values(|s: String| s@) == noted(old(metadata).diagnostics@, invalid_genre_message())
                    } else {
                        &&& final(metadata).genres@.drop_last() == old(metadata).genres@
                        &&& final(metadata).genres@.len() == old(metadata).genres@.len() + 1
                        &&& final(metadata).genres@.last()@ == g
                        &&& final(metadata).diagnostics == old(metadata).diagnostics
                    }
                },
                InfoField::CreationDate => {
                    let c = ("ICRD"@, v, YearSemantic::Recording, 0u8);
                    let before = candidate_views(old(metadata).year_candidates@);
                    &&& candidate_views(final(metadata).year_candidates@) == if before.contains(c) {
                        before
                    } else {
                        before.push(c)
                    }
                    &&& final(metadata).title == old(metadata).title
                    &&& final(metadata).artist == old(metadata).artist
                    &&& final(metadata).genres == old(metadata).genres
                    &&& final(metadata).diagnostics == old(metadata).diagnostics
                },
                InfoField::Other => *final(metadata) == *old(metadata),
            }
        }),
        meta_view(*final(metadata)) == info_recorded(meta_view(*old(metadata)), key@, value@),
{
    let cs = chars_of(value);
    let t = trim_nul_chars(cs.as_slice());
    let v = string_of(t.as_slice());
    match field_of(key) {
        InfoField::Title => {
            match cleaned(v.as_str()) {
                Some(c) => metadata.title = Some(c),
                None => {},
            }
        },
        InfoField::Artist => {
            match cleaned(v.as_str()) {
                Some(c) => metadata.artist = Some(c),
                None => {},
            }
        },
        InfoField::Genre => push_genre(metadata, v.as_str()),
        InfoField::CreationDate => push_candidate(metadata, "ICRD".to_owned(), v, YearSemantic::Recording),
        InfoField::Other => {},
    }
    proof {
        let before = meta_view(*old(metadata));
        let after = info_recorded(before, key@, value@);
        assert(meta_view(*metadata).genres =~= after.genres);
        assert(meta_view(*metadata).diagnostics =~= after.diagnostics);
        assert(meta_view(*metadata).candidates =~= after.candidates);
    }
}

pub open spec fn opt_string_view(o: Option<String>) -> Option<Seq<char>> {
    match o {
        Some(s) => Some(s@),
        None => None,
    }
}

/// ASCII lowercase letters raised; everything else kept.
pub open spec fn upper_char(c: char) -> char {
    if 'a' <= c && c <= 'z' {
        ((c as u32) - 32) as char
    } else {
        c
    }
}

pub open spec fn ascii_upper(s: Seq<char>) -> Seq<char> {
    s.map_values(|c: char| upper_char(c))
}

fn upper_from(u: u32) -> (r: char)
    requires
        0x41 <= u <= 0x5A,
    ensures
        r == u as char,
{
    if u == 0x41 { 'A' } else if u == 0x42 { 'B' } else if u == 0x43 { 'C' } else if u == 0x44 { 'D' }
    else if u == 0x45 { 'E' } else if u == 0x46 { 'F' } else if u == 0x47 { 'G' } else if u == 0x48 { 'H' }
    else if u == 0x49 { 'I' } else if u == 0x4A { 'J' } else if u == 0x4B { 'K' } else if u == 0x4C { 'L' }
    else if u == 0x4D { 'M' } else if u == 0x4E { 'N' } else if u == 0x4F { 'O' } else if u == 0x50 { 'P' }
    else if u == 0x51 { 'Q' } else if u == 0x52 { 'R' } else if u == 0x53 { 'S' } else if u == 0x54 { 'T' }
    else if u == 0x55 { 'U' } else if u == 0x56 { 'V' } else if u == 0x57 { 'W' } else if u == 0x58 { 'X' }
    else if u == 0x59 { 'Y' } else { 'Z' }
}

/// `str::to_ascii_uppercase`.
pub fn to_ascii_upper(s: &str) -> (r: String)
    ensures
        r@ == ascii_upper(s@),
{
    let cs = chars_of(s);
    let mut out: Vec<char> = Vec::new();
    let mut i: usize = 0;
    while i < cs.len()
        invariant
            i <= cs.len(),
            cs@ == s@,
            out@ == ascii_upper(s@).take(i as int),
        decreases cs.len() - i,
    {
        let c = cs[i];
        let u = if 'a' <= c && c <= 'z' {
            upper_from((c as u32) - 32)
        } else {
            c
        };
        out.push(u);
        i = i + 1;
        assert(out@ =~= ascii_upper(s@).take(i as int));
    }
    assert(ascii_upper(s@).take(cs.len() as int) =~= ascii_upper(s@));
    string_of(out.as_slice())
}

fn same_text(a: &str, b: &str) -> (r: bool)
    ensures
        r == (a@ == b@),
{
    a.to_owned() == b.to_owned()
}

/// Raw keys that carry genre values.
pub open spec fn genre_key(key: Seq<char>) -> bool {
    let u = ascii_upper(key);
    u == "TCON"@ || u == "GENRE"@ || u == "IGNR"@ || u == "©GEN"@
}

pub fn is_genre_key(key: &str) -> (r: bool)
    ensures
        r == genre_key(key@),
{
    let u = to_ascii_upper(key);
    let u = u.as_str();
    same_text(u, "TCON") || same_text(u, "GENRE") || same_text(u, "IGNR") || same_text(u, "©GEN")
}

/// A dated standard tag as a reader names it: recording, release, original
/// recording or original release, each as a date, a time or a year.
#[derive(Clone, Copy, Debug, PartialEq, Eq, Structural)]
pub enum DateTag {
    RecordingDate,
    RecordingTime,
    RecordingYear,
    ReleaseDate,
    ReleaseTime,
    ReleaseYear,
    OriginalRecordingDate,
    OriginalRecordingTime,
    OriginalRecordingYear,
    OriginalReleaseDate,
    OriginalReleaseTime,
    OriginalReleaseYear,
    Other,
}

/// What a dated standard tag says a year is: a recording's, a release's,
/// or (for either original) the original's.
pub open spec fn date_meaning(t: DateTag) -> StandardDate {
    match t {
        DateTag::RecordingDate | DateTag::RecordingTime | DateTag::RecordingYear => StandardDate::Recording,
        DateTag::ReleaseDate | DateTag::ReleaseTime | DateTag::ReleaseYear => StandardDate::Release,
        DateTag::OriginalRecordingDate | DateTag::OriginalRecordingTime | DateTag::OriginalRecordingYear
        | DateTag::OriginalReleaseDate | DateTag::OriginalReleaseTime | DateTag::OriginalReleaseYear => StandardDate::Original,
        DateTag::Other => StandardDate::Unrelated,
    }
}

/// The year meaning of a dated standard tag.
pub fn date_of_tag(t: DateTag) -> (r: StandardDate)
    ensures
        r == date_meaning(t),
{
    match t {
        DateTag::RecordingDate | DateTag::RecordingTime | DateTag::RecordingYear => StandardDate::Recording,
        DateTag::ReleaseDate | DateTag::ReleaseTime | DateTag::ReleaseYear => StandardDate::Release,
        DateTag::OriginalRecordingDate | DateTag::OriginalRecordingTime | DateTag::OriginalRecordingYear
        | DateTag::OriginalReleaseDate | DateTag::OriginalReleaseTime | DateTag::OriginalReleaseYear => StandardDate::Original,
        DateTag::Other => StandardDate::Unrelated,
    }
}

/// The date meaning a reader's standard mapping gives a tag, if any.
#[derive(Clone, Copy, Debug, PartialEq, Eq, Structural)]
pub enum StandardDate {
    Recording,
    Release,
    Original,
    Unrelated,
}

/// The year semantic of a tag: its raw key decides when it is a known date
/// key (and time or partial-date keys are never years); otherwise the
/// reader's standard mapping does.
pub open spec fn semantic_of(raw_key: Seq<char>, standard: StandardDate) -> Option<YearSemantic> {
    let u = ascii_upper(raw_key);
    if u == "TDAT"@ || u == "TDA"@ || u == "TIME"@ || u == "TIM"@ || u == "IDIT"@ {
        None
    } else if u == "TDRC"@ || u == "TYER"@ || u == "TYE"@ || u == "RECORDINGDATE"@ || u == "RECORDINGYEAR"@
        || u == "ICRD"@ {
        Some(YearSemantic::Recording)
    } else if u == "DATE"@ || u == "YEAR"@ {
        Some(YearSemantic::Generic)
    } else if u == "TDRL"@ || u == "RELEASEDATE"@ || u == "RELEASEYEAR"@ || u == "©DAY"@ {
        Some(YearSemantic::Release)
    } else if u == "TDOR"@ || u == "TORY"@ || u == "TOR"@ || u == "ORIGINALDATE"@ || u == "ORIGINALYEAR"@
        || u == "ORIGINALRECORDINGDATE"@ || u == "ORIGINALRECORDINGYEAR"@ {
        Some(YearSemantic::Original)
    } else {
        match standard {
            StandardDate::Recording => Some(YearSemantic::Recording),
            StandardDate::Release => Some(YearSemantic::Release),
            StandardDate::Original => Some(YearSemantic::Original),
            StandardDate::Unrelated => None,
        }
    }
}

pub fn year_semantic(raw_key: &str, standard: StandardDate) -> (r: Option<YearSemantic>)
    ensures
        r == semantic_of(raw_key@, standard),
{
    let u = to_ascii_upper(raw_key);
    let u = u.as_str();
    if same_text(u, "TDAT") || same_text(u, "TDA") || same_text(u, "TIME") || same_text(u, "TIM") || same_text(u, "IDIT") {
        return None;
    }
    if same_text(u, "TDRC") || same_text(u, "TYER") || same_text(u, "TYE") || same_text(u, "RECORDINGDATE")
        || same_text(u, "RECORDINGYEAR") || same_text(u, "ICRD") {
        return Some(YearSemantic::Recording);
    }
    if same_text(u, "DATE") || same_text(u, "YEAR") {
        return Some(YearSemantic::Generic);
    }
    if same_text(u, "TDRL") || same_text(u, "RELEASEDATE") || same_text(u, "RELEASEYEAR") || same_text(u, "©DAY") {
        return Some(YearSemantic::Release);
    }
    if same_text(u, "TDOR") || same_text(u, "TORY") || same_text(u, "TOR") || same_text(u, "ORIGINALDATE")
        || same_text(u, "ORIGINALYEAR") || same_text(u, "ORIGINALRECORDINGDATE") || same_text(u, "ORIGINALRECORDINGYEAR") {
        return Some(YearSemantic::Original);
    }
    match standard {
        StandardDate::Recording => Some(YearSemantic::Recording),
        StandardDate::Release => Some(YearSemantic::Release),
        StandardDate::Original => Some(YearSemantic::Original),
        StandardDate::Unrelated => None,
    }
}

/// A production year that is not after the current year is ready: when every
/// best candidate reads as the year `y` and `y <= current_year`, the year is
/// `y`, with the meaning of the first best candidate.
pub proof fn lemma_year_up_to_now_is_ready(cs: Seq<YearCandidate>, current_year: u16, y: u16)
    requires
        best_candidates(cs).len() > 0,
        forall|i: int| 0 <= i < best_candidates(cs).len() ==> year_of(#[trigger] best_candidates(cs)[i].raw_value@) == Some(y),
        y <= current_year,
    ensures
        resolution(cs, current_year) == (ResolutionView::Ready { year: y, semantic: best_candidates(cs)[0].semantic }),
{
    let best = best_candidates(cs);
    assert(year_of(best[0].raw_value@) == Some(y));
    assert(!exists|i: int| 0 <= i < best.len() && #[trigger] year_of(best[i].raw_value@) is None);
    assert(!exists|i: int| 0 <= i < best.len() && #[trigger] year_of(best[i].raw_value@) != year_of(best[0].raw_value@));
}

/// Only a year after the current one is in the future: a future resolution
/// has every best candidate reading as one year, and that year is later than
/// `current_year`.
pub proof fn lemma_future_is_after_now(cs: Seq<YearCandidate>, current_year: u16)
    requires
        resolution(cs, current_year) is Future,
    ensures
        best_candidates(cs).len() > 0,
        forall|i: int| 0 <= i < best_candidates(cs).len() ==> #[trigger] year_of(best_candidates(cs)[i].raw_value@)
            == year_of(best_candidates(cs)[0].raw_value@),
        year_of(best_candidates(cs)[0].raw_value@) matches Some(y) && y > current_year,
{
    let best = best_candidates(cs);
    assert forall|i: int| 0 <= i < best.len() implies #[trigger] year_of(best[i].raw_value@) == year_of(best[0].raw_value@) by {
        if year_of(best[i].raw_value@) != year_of(best[0].raw_value@) {
            assert(exists|j: int| 0 <= j < best.len() && #[trigger] year_of(best[j].raw_value@) != year_of(best[0].raw_value@));
        }
    }
    if year_of(best[0].raw_value@) is None {
        assert(exists|j: int| 0 <= j < best.len() && #[trigger] year_of(best[j].raw_value@) is None);
    }
}

/// The candidates of one meaning are exactly those of `cs` with it.
proof fn lemma_with_semantic(cs: Seq<YearCandidate>, s: YearSemantic)
    ensures
        forall|i: int| 0 <= i < with_semantic(cs, s).len() ==> (#[trigger] with_semantic(cs, s)[i]).semantic == s
            && exists|j: int| 0 <= j < cs.len() && cs[j] == with_semantic(cs, s)[i],
        forall|j: int| 0 <= j < cs.len() && (#[trigger] cs[j]).semantic == s ==> exists|i: int|
            0 <= i < with_semantic(cs, s).len() && with_semantic(cs, s)[i] == cs[j],
    decreases cs.len(),
{
    if cs.len() > 0 {
        let d = cs.drop_last();
        lemma_with_semantic(d, s);
        let w = with_semantic(d, s);
        let n = with_semantic(cs, s);
        assert forall|i: int| 0 <= i < n.len() implies (#[trigger] n[i]).semantic == s && exists|j: int|
            0 <= j < cs.len() && cs[j] == n[i] by {
            if i < w.len() {
                assert(n[i] == w[i]);
                let j = choose|j: int| 0 <= j < d.len() && d[j] == w[i];
                assert(cs[j] == d[j]);
            } else {
                assert(n[i] == cs[cs.len() - 1]);
            }
        }
        assert forall|j: int| 0 <= j < cs.len() && (#[trigger] cs[j]).semantic == s implies exists|i: int|
            0 <= i < n.len() && n[i] == cs[j] by {
            if j < d.len() {
                assert(d[j] == cs[j]);
                assert(d[j].semantic == s);
                let i = choose|i: int| 0 <= i < w.len() && w[i] == d[j];
                assert(n[i] == w[i]);
            } else {
                assert(n[n.len() - 1] == cs[j]);
            }
        }
    }
}

/// Recording dates win: when `cs` has a recording candidate, a ready year is
/// a recording year, read from a recording candidate, and every recording
/// candidate reads as it; release and original dates never decide it.
pub proof fn lemma_recording_dates_decide(cs: Seq<YearCandidate>, current_year: u16)
    requires
        exists|j: int| 0 <= j < cs.len() && (#[trigger] cs[j]).semantic == YearSemantic::Recording,
        resolution(cs, current_year) is Ready,
    ensures
        resolution(cs, current_year)->Ready_semantic == YearSemantic::Recording,
        resolution(cs, current_year)->Ready_year <= current_year,
        forall|j: int| 0 <= j < cs.len() && (#[trigger] cs[j]).semantic == YearSemantic::Recording
            ==> year_of(cs[j].raw_value@) == Some(resolution(cs, current_year)->Ready_year),
{
    lemma_with_semantic(cs, YearSemantic::Recording);
    let best = best_candidates(cs);
    assert(has_semantic(cs, YearSemantic::Recording));
    assert(best.len() > 0);
    assert(best[0].semantic == YearSemantic::Recording);
    assert(!exists|i: int| 0 <= i < best.len() && #[trigger] year_of(best[i].raw_value@) is None);
    assert(!exists|i: int| 0 <= i < best.len() && #[trigger] year_of(best[i].raw_value@) != year_of(best[0].raw_value@));
    assert forall|j: int| 0 <= j < cs.len() && (#[trigger] cs[j]).semantic == YearSemantic::Recording
        implies year_of(cs[j].raw_value@) == Some(resolution(cs, current_year)->Ready_year) by {
        let i = choose|i: int| 0 <= i < best.len() && best[i] == cs[j];
        assert(year_of(best[i].raw_value@) == year_of(best[0].raw_value@));
        assert(year_of(best[i].raw_value@) is Some);
    }
}

/// Recording dates that all read as one year no later than the current
/// year give that year as a recording year, whatever else is dated.
pub proof fn lemma_agreeing_recording_dates_are_ready(cs: Seq<YearCandidate>, current_year: u16, y: u16)
    requires
        exists|j: int| 0 <= j < cs.len() && (#[trigger] cs[j]).semantic == YearSemantic::Recording,
        forall|j: int| 0 <= j < cs.len() && (#[trigger] cs[j]).semantic == YearSemantic::Recording ==> year_of(cs[j].raw_value@) == Some(y),
        y <= current_year,
    ensures
        resolution(cs, current_year) == (ResolutionView::Ready { year: y, semantic: YearSemantic::Recording }),
{
    lemma_with_semantic(cs, YearSemantic::Recording);
    let best = best_candidates(cs);
    assert(has_semantic(cs, YearSemantic::Recording));
    assert forall|i: int| 0 <= i < best.len() implies year_of(#[trigger] best[i].raw_value@) == Some(y) by {
        let k = choose|k: int| 0 <= k < cs.len() && cs[k] == best[i];
    }
    let j = choose|j: int| 0 <= j < cs.len() && (#[trigger] cs[j]).semantic == YearSemantic::Recording;
    let i = choose|i: int| 0 <= i < best.len() && best[i] == cs[j];
    lemma_year_up_to_now_is_ready(cs, current_year, y);
}

/// Without recording dates, generic dates that all read as one year no
/// later than the current year give that year as a generic year.
pub proof fn lemma_agreeing_generic_dates_are_ready(cs: Seq<YearCandidate>, current_year: u16, y: u16)
    requires
        forall|j: int| 0 <= j < cs.len() ==> (#[trigger] cs[j]).semantic != YearSemantic::Recording,
        exists|j: int| 0 <= j < cs.len() && (#[trigger] cs[j]).semantic == YearSemantic::Generic,
        forall|j: int| 0 <= j < cs.len() && (#[trigger] cs[j]).semantic == YearSemantic::Generic ==> year_of(cs[j].raw_value@) == Some(y),
        y <= current_year,
    ensures
        resolution(cs, current_year) == (ResolutionView::Ready { year: y, semantic: YearSemantic::Generic }),
{
    lemma_with_semantic(cs, YearSemantic::Generic);
    let best = best_candidates(cs);
    assert(!has_semantic(cs, YearSemantic::Recording));
    assert forall|i: int| 0 <= i < best.len() implies year_of(#[trigger] best[i].raw_value@) == Some(y) by {
        let k = choose|k: int| 0 <= k < cs.len() && cs[k] == best[i];
    }
    let j = choose|j: int| 0 <= j < cs.len() && (#[trigger] cs[j]).semantic == YearSemantic::Generic;
    let i = choose|i: int| 0 <= i < best.len() && best[i] == cs[j];
    lemma_year_up_to_now_is_ready(cs, current_year, y);
}

/// Without a recording or generic date there is no production year:
/// release and original dates alone leave it missing.
pub proof fn lemma_no_production_date_is_missing(cs: Seq<YearCandidate>, current_year: u16)
    requires
        forall|j: int| 0 <= j < cs.len() ==> !is_production((#[trigger] cs[j]).semantic),
    ensures
        resolution(cs, current_year) is Missing,
{
    lemma_with_semantic(cs, YearSemantic::Recording);
    lemma_with_semantic(cs, YearSemantic::Generic);
    let best = best_candidates(cs);
    if best.len() > 0 {
        let j = choose|j: int| 0 <= j < cs.len() && cs[j] == best[0];
        assert(!is_production(cs[j].semantic));
    }
}

/// A recording date that does not read as a year makes the resolution
/// invalid; with only generic dates, so does a generic one.
pub proof fn lemma_unreadable_best_date_is_invalid(cs: Seq<YearCandidate>, current_year: u16, j: int)
    requires
        0 <= j < cs.len(),
        year_of(cs[j].raw_value@) is None,
        cs[j].semantic == YearSemantic::Recording || (cs[j].semantic == YearSemantic::Generic && forall|k: int|
            0 <= k < cs.len() ==> (#[trigger] cs[k]).semantic != YearSemantic::Recording),
    ensures
        resolution(cs, current_year) is Invalid,
{
    lemma_with_semantic(cs, YearSemantic::Recording);
    lemma_with_semantic(cs, YearSemantic::Generic);
    let best = best_candidates(cs);
    if cs[j].semantic == YearSemantic::Recording {
        assert(has_semantic(cs, YearSemantic::Recording));
    } else {
        assert(!has_semantic(cs, YearSemantic::Recording));
    }
    let i = choose|i: int| 0 <= i < best.len() && best[i] == cs[j];
    assert(year_of(best[i].raw_value@) is None);
}

/// Two recording dates that read as different years conflict, unless some
/// recording date does not read as a year at all.
pub proof fn lemma_disagreeing_recording_dates_conflict(cs: Seq<YearCandidate>, current_year: u16, a: int, b: int)
    requires
        0 <= a < cs.len(),
        0 <= b < cs.len(),
        cs[a].semantic == YearSemantic::Recording,
        cs[b].semantic == YearSemantic::Recording,
        year_of(cs[a].raw_value@) is Some,
        year_of(cs[b].raw_value@) is Some,
        year_of(cs[a].raw_value@) != year_of(cs[b].raw_value@),
        forall|k: int| 0 <= k < cs.len() && (#[trigger] cs[k]).semantic == YearSemantic::Recording ==> year_of(cs[k].raw_value@) is Some,
    ensures
        resolution(cs, current_year) is Conflict,
{
    lemma_with_semantic(cs, YearSemantic::Recording);
    let best = best_candidates(cs);
    assert(has_semantic(cs, YearSemantic::Recording));
    let ia = choose|i: int| 0 <= i < best.len() && best[i] == cs[a];
    let ib = choose|i: int| 0 <= i < best.len() && best[i] == cs[b];
    assert forall|i: int| 0 <= i < best.len() implies !(#[trigger] year_of(best[i].raw_value@) is None) by {
        let k = choose|k: int| 0 <= k < cs.len() && cs[k] == best[i];
    }
    if year_of(best[ia].raw_value@) == year_of(best[0].raw_value@) {
        assert(year_of(best[ib].raw_value@) != year_of(best[0].raw_value@));
    }
}

/// Time moves a future year to ready, never back: a year ready as of one
/// current year is ready, unchanged, as of any later one.
pub proof fn lemma_ready_stays_ready(cs: Seq<YearCandidate>, now: u16, later: u16)
    requires
        resolution(cs, now) is Ready,
        now <= later,
    ensures
        resolution(cs, later) == resolution(cs, now),
{
}

/// The recording-date keys (ID3's TDRC, TYER and TYE, RECORDINGDATE,
/// RECORDINGYEAR, RIFF's ICRD), in any ASCII case, give recording years,
/// whatever the reader's standard mapping says.
pub proof fn lemma_recording_keys(raw_key: Seq<char>, standard: StandardDate)
    requires
        ({
            let u = ascii_upper(raw_key);
            u == "TDRC"@ || u == "TYER"@ || u == "TYE"@ || u == "RECORDINGDATE"@ || u == "RECORDINGYEAR"@ || u == "ICRD"@
        }),
    ensures
        semantic_of(raw_key, standard) == Some(YearSemantic::Recording),
{
    reveal_strlit("TDAT");
    reveal_strlit("TDA");
    reveal_strlit("TIME");
    reveal_strlit("TIM");
    reveal_strlit("IDIT");
    reveal_strlit("TDRC");
    reveal_strlit("TYER");
    reveal_strlit("TYE");
    reveal_strlit("RECORDINGDATE");
    reveal_strlit("RECORDINGYEAR");
    reveal_strlit("ICRD");
    assert("TDRC"@[2] != "TDAT"@[2]);
    assert("TDRC"@.len() != "TDA"@.len());
    assert("TDRC"@[1] != "TIME"@[1]);
    assert("TDRC"@.len() != "TIM"@.len());
    assert("TDRC"@[0] != "IDIT"@[0]);
    assert("TYER"@[1] != "TDAT"@[1]);
    assert("TYER"@.len() != "TDA"@.len());
    assert("TYER"@[1] != "TIME"@[1]);
    assert("TYER"@.len() != "TIM"@.len());
    assert("TYER"@[0] != "IDIT"@[0]);
    assert("TYE"@.len() != "TDAT"@.len());
    assert("TYE"@[1] != "TDA"@[1]);
    assert("TYE"@.len() != "TIME"@.len());
    assert("TYE"@[1] != "TIM"@[1]);
    assert("TYE"@.len() != "IDIT"@.len());
    assert("RECORDINGDATE"@.len() != "TDAT"@.len());
    assert("RECORDINGDATE"@.len() != "TDA"@.len());
    assert("RECORDINGDATE"@.len() != "TIME"@.len());
    assert("RECORDINGDATE"@.len() != "TIM"@.len());
    assert("RECORDINGDATE"@.len() != "IDIT"@.len());
    assert("RECORDINGYEAR"@.len() != "TDAT"@.len());
    assert("RECORDINGYEAR"@.len() != "TDA"@.len());
    assert("RECORDINGYEAR"@.len() != "TIME"@.len());
    assert("RECORDINGYEAR"@.len() != "TIM"@.len());
    assert("RECORDINGYEAR"@.len() != "IDIT"@.len());
    assert("ICRD"@[0] != "TDAT"@[0]);
    assert("ICRD"@.len() != "TDA"@.len());
    assert("ICRD"@[0] != "TIME"@[0]);
    assert("ICRD"@.len() != "TIM"@.len());
    assert("ICRD"@[1] != "IDIT"@[1]);
}

/// The generic date keys DATE and YEAR, in any ASCII case, give generic
/// years.
pub proof fn lemma_generic_keys(raw_key: Seq<char>, standard: StandardDate)
    requires
        ascii_upper(raw_key) == "DATE"@ || ascii_upper(raw_key) == "YEAR"@,
    ensures
        semantic_of(raw_key, standard) == Some(YearSemantic::Generic),
{
    reveal_strlit("TDAT");
    reveal_strlit("TDA");
    reveal_strlit("TIME");
    reveal_strlit("TIM");
    reveal_strlit("IDIT");
    reveal_strlit("TDRC");
    reveal_strlit("TYER");
    reveal_strlit("TYE");
    reveal_strlit("RECORDINGDATE");
    reveal_strlit("RECORDINGYEAR");
    reveal_strlit("ICRD");
    reveal_strlit("DATE");
    reveal_strlit("YEAR");
    assert("DATE"@[0] != "TDAT"@[0]);
    assert("DATE"@.len() != "TDA"@.len());
    assert("DATE"@[0] != "TIME"@[0]);
    assert("DATE"@.len() != "TIM"@.len());
    assert("DATE"@[0] != "IDIT"@[0]);
    assert("DATE"@[0] != "TDRC"@[0]);
    assert("DATE"@[0] != "TYER"@[0]);
    assert("DATE"@.len() != "TYE"@.len());
    assert("DATE"@.len() != "RECORDINGDATE"@.len());
    assert("DATE"@.len() != "RECORDINGYEAR"@.len());
    assert("DATE"@[0] != "ICRD"@[0]);
    assert("YEAR"@[0] != "TDAT"@[0]);
    assert("YEAR"@.len() != "TDA"@.len());
    assert("YEAR"@[0] != "TIME"@[0]);
    assert("YEAR"@.len() != "TIM"@.len());
    assert("YEAR"@[0] != "IDIT"@[0]);
    assert("YEAR"@[0] != "TDRC"@[0]);
    assert("YEAR"@[0] != "TYER"@[0]);
    assert("YEAR"@.len() != "TYE"@.len());
    assert("YEAR"@.len() != "RECORDINGDATE"@.len());
    assert("YEAR"@.len() != "RECORDINGYEAR"@.len());
    assert("YEAR"@[0] != "ICRD"@[0]);
}

/// The release-date keys (TDRL, RELEASEDATE, RELEASEYEAR, MP4's ©day), in
/// any ASCII case, give release years, never production years.
pub proof fn lemma_release_keys(raw_key: Seq<char>, standard: StandardDate)
    requires
        ({
            let u = ascii_upper(raw_key);
            u == "TDRL"@ || u == "RELEASEDATE"@ || u == "RELEASEYEAR"@ || u == "©DAY"@
        }),
    ensures
        semantic_of(raw_key, standard) == Some(YearSemantic::Release),
{
    reveal_strlit("TDAT");
    reveal_strlit("TDA");
    reveal_strlit("TIME");
    reveal_strlit("TIM");
    reveal_strlit("IDIT");
    reveal_strlit("TDRC");
    reveal_strlit("TYER");
    reveal_strlit("TYE");
    reveal_strlit("RECORDINGDATE");
    reveal_strlit("RECORDINGYEAR");
    reveal_strlit("ICRD");
    reveal_strlit("DATE");
    reveal_strlit("YEAR");
    reveal_strlit("TDRL");
    reveal_strlit("RELEASEDATE");
    reveal_strlit("RELEASEYEAR");
    reveal_strlit("©DAY");
    assert("TDRL"@[2] != "TDAT"@[2]);
    assert("TDRL"@.len() != "TDA"@.len());
    assert("TDRL"@[1] != "TIME"@[1]);
    assert("TDRL"@.len() != "TIM"@.len());
    assert("TDRL"@[0] != "IDIT"@[0]);
    assert("TDRL"@[3] != "TDRC"@[3]);
    assert("TDRL"@[1] != "TYER"@[1]);
    assert("TDRL"@.len() != "TYE"@.len());
    assert("TDRL"@.len() != "RECORDINGDATE"@.len());
    assert("TDRL"@.len() != "RECORDINGYEAR"@.len());
    assert("TDRL"@[0] != "ICRD"@[0]);
    assert("TDRL"@[0] != "DATE"@[0]);
    assert("TDRL"@[0] != "YEAR"@[0]);
    assert("RELEASEDATE"@.len() != "TDAT"@.len());
    assert("RELEASEDATE"@.len() != "TDA"@.len());
    assert("RELEASEDATE"@.len() != "TIME"@.len());
    assert("RELEASEDATE"@.len() != "TIM"@.len());
    assert("RELEASEDATE"@.len() != "IDIT"@.len());
    assert("RELEASEDATE"@.len() != "TDRC"@.len());
    assert("RELEASEDATE"@.len() != "TYER"@.len());
    assert("RELEASEDATE"@.len() != "TYE"@.len());
    assert("RELEASEDATE"@.len() != "RECORDINGDATE"@.len());
    assert("RELEASEDATE"@.len() != "RECORDINGYEAR"@.len());
    assert("RELEASEDATE"@.len() != "ICRD"@.len());
    assert("RELEASEDATE"@.len() != "DATE"@.len());
    assert("RELEASEDATE"@.len() != "YEAR"@.len());
    assert("RELEASEYEAR"@.len() != "TDAT"@.len());
    assert("RELEASEYEAR"@.len() != "TDA"@.len());
    assert("RELEASEYEAR"@.len() != "TIME"@.len());
    assert("RELEASEYEAR"@.len() != "TIM"@.len());
    assert("RELEASEYEAR"@.len() != "IDIT"@.len());
    assert("RELEASEYEAR"@.len() != "TDRC"@.len());
    assert("RELEASEYEAR"@.len() != "TYER"@.len());
    assert("RELEASEYEAR"@.len() != "TYE"@.len());
    assert("RELEASEYEAR"@.len() != "RECORDINGDATE"@.len());
    assert("RELEASEYEAR"@.len() != "RECORDINGYEAR"@.len());
    assert("RELEASEYEAR"@.len() != "ICRD"@.len());
    assert("RELEASEYEAR"@.len() != "DATE"@.len());
    assert("RELEASEYEAR"@.len() != "YEAR"@.len());
    assert("©DAY"@[0] != "TDAT"@[0]);
    assert("©DAY"@.len() != "TDA"@.len());
    assert("©DAY"@[0] != "TIME"@[0]);
    assert("©DAY"@.len() != "TIM"@.len());
    assert("©DAY"@[0] != "IDIT"@[0]);
    assert("©DAY"@[0] != "TDRC"@[0]);
    assert("©DAY"@[0] != "TYER"@[0]);
    assert("©DAY"@.len() != "TYE"@.len());
    assert("©DAY"@.len() != "RECORDINGDATE"@.len());
    assert("©DAY"@.len() != "RECORDINGYEAR"@.len());
    assert("©DAY"@[0] != "ICRD"@[0]);
    assert("©DAY"@[0] != "DATE"@[0]);
    assert("©DAY"@[0] != "YEAR"@[0]);
}

/// The original-date keys (TDOR, TORY, TOR, ORIGINALDATE, ORIGINALYEAR,
/// ORIGINALRECORDINGDATE, ORIGINALRECORDINGYEAR), in any ASCII case, give
/// original years.
pub proof fn lemma_original_keys(raw_key: Seq<char>, standard: StandardDate)
    requires
        ({
            let u = ascii_upper(raw_key);
            u == "TDOR"@ || u == "TORY"@ || u == "TOR"@ || u == "ORIGINALDATE"@ || u == "ORIGINALYEAR"@
                || u == "ORIGINALRECORDINGDATE"@ || u == "ORIGINALRECORDINGYEAR"@
        }),
    ensures
        semantic_of(raw_key, standard) == Some(YearSemantic::Original),
{
    reveal_strlit("TDAT");
    reveal_strlit("TDA");
    reveal_strlit("TIME");
    reveal_strlit("TIM");
    reveal_strlit("IDIT");
    reveal_strlit("TDRC");
    reveal_strlit("TYER");
    reveal_strlit("TYE");
    reveal_strlit("RECORDINGDATE");
    reveal_strlit("RECORDINGYEAR");
    reveal_strlit("ICRD");
    reveal_strlit("DATE");
    reveal_strlit("YEAR");
    reveal_strlit("TDRL");
    reveal_strlit("RELEASEDATE");
    reveal_strlit("RELEASEYEAR");
    reveal_strlit("©DAY");
    reveal_strlit("TDOR");
    reveal_strlit("TORY");
    reveal_strlit("TOR");
    reveal_strlit("ORIGINALDATE");
    reveal_strlit("ORIGINALYEAR");
    reveal_strlit("ORIGINALRECORDINGDATE");
    reveal_strlit("ORIGINALRECORDINGYEAR");
    assert("TDOR"@[2] != "TDAT"@[2]);
    assert("TDOR"@.len() != "TDA"@.len());
    assert("TDOR"@[1] != "TIME"@[1]);
    assert("TDOR"@.len() != "TIM"@.len());
    assert("TDOR"@[0] != "IDIT"@[0]);
    assert("TDOR"@[2] != "TDRC"@[2]);
    assert("TDOR"@[1] != "TYER"@[1]);
    assert("TDOR"@.len() != "TYE"@.len());
    assert("TDOR"@.len() != "RECORDINGDATE"@.len());
    assert("TDOR"@.len() != "RECORDINGYEAR"@.len());
    assert("TDOR"@[0] != "ICRD"@[0]);
    assert("TDOR"@[0] != "DATE"@[0]);
    assert("TDOR"@[0] != "YEAR"@[0]);
    assert("TDOR"@[2] != "TDRL"@[2]);
    assert("TDOR"@.len() != "RELEASEDATE"@.len());
    assert("TDOR"@.len() != "RELEASEYEAR"@.len());
    assert("TDOR"@[0] != "©DAY"@[0]);
    assert("TORY"@[1] != "TDAT"@[1]);
    assert("TORY"@.len() != "TDA"@.len());
    assert("TORY"@[1] != "TIME"@[1]);
    assert("TORY"@.len() != "TIM"@.len());
    assert("TORY"@[0] != "IDIT"@[0]);
    assert("TORY"@[1] != "TDRC"@[1]);
    assert("TORY"@[1] != "TYER"@[1]);
    assert("TORY"@.len() != "TYE"@.len());
    assert("TORY"@.len() != "RECORDINGDATE"@.len());
    assert("TORY"@.len() != "RECORDINGYEAR"@.len());
    assert("TORY"@[0] != "ICRD"@[0]);
    assert("TORY"@[0] != "DATE"@[0]);
    assert("TORY"@[0] != "YEAR"@[0]);
    assert("TORY"@[1] != "TDRL"@[1]);
    assert("TORY"@.len() != "RELEASEDATE"@.len());
    assert("TORY"@.len() != "RELEASEYEAR"@.len());
    assert("TORY"@[0] != "©DAY"@[0]);
    assert("TOR"@.len() != "TDAT"@.len());
    assert("TOR"@[1] != "TDA"@[1]);
    assert("TOR"@.len() != "TIME"@.len());
    assert("TOR"@[1] != "TIM"@[1]);
    assert("TOR"@.len() != "IDIT"@.len());
    assert("TOR"@.len() != "TDRC"@.len());
    assert("TOR"@.len() != "TYER"@.len());
    assert("TOR"@[1] != "TYE"@[1]);
    assert("TOR"@.len() != "RECORDINGDATE"@.len());
    assert("TOR"@.len() != "RECORDINGYEAR"@.len());
    assert("TOR"@.len() != "ICRD"@.len());
    assert("TOR"@.len() != "DATE"@.len());
    assert("TOR"@.len() != "YEAR"@.len());
    assert("TOR"@.len() != "TDRL"@.len());
    assert("TOR"@.len() != "RELEASEDATE"@.len());
    assert("TOR"@.len() != "RELEASEYEAR"@.len());
    assert("TOR"@.len() != "©DAY"@.len());
    assert("ORIGINALDATE"@.len() != "TDAT"@.len());
    assert("ORIGINALDATE"@.len() != "TDA"@.len());
    assert("ORIGINALDATE"@.len() != "TIME"@.len());
    assert("ORIGINALDATE"@.len() != "TIM"@.len());
    assert("ORIGINALDATE"@.len() != "IDIT"@.len());
    assert("ORIGINALDATE"@.len() != "TDRC"@.len());
    assert("ORIGINALDATE"@.len() != "TYER"@.len());
    assert("ORIGINALDATE"@.len() != "TYE"@.len());
    assert("ORIGINALDATE"@.len() != "RECORDINGDATE"@.len());
    assert("ORIGINALDATE"@.len() != "RECORDINGYEAR"@.len());
    assert("ORIGINALDATE"@.len() != "ICRD"@.len());
    assert("ORIGINALDATE"@.len() != "DATE"@.len());
    assert("ORIGINALDATE"@.len() != "YEAR"@.len());
    assert("ORIGINALDATE"@.len() != "TDRL"@.len());
    assert("ORIGINALDATE"@.len() != "RELEASEDATE"@.len());
    assert("ORIGINALDATE"@.len() != "RELEASEYEAR"@.len());
    assert("ORIGINALDATE"@.len() != "©DAY"@.len());
    assert("ORIGINALYEAR"@.len() != "TDAT"@.len());
    assert("ORIGINALYEAR"@.len() != "TDA"@.len());
    assert("ORIGINALYEAR"@.len() != "TIME"@.len());
    assert("ORIGINALYEAR"@.len() != "TIM"@.len());
    assert("ORIGINALYEAR"@.len() != "IDIT"@.len());
    assert("ORIGINALYEAR"@.len() != "TDRC"@.len());
    assert("ORIGINALYEAR"@.len() != "TYER"@.len());
    assert("ORIGINALYEAR"@.len() != "TYE"@.len());
    assert("ORIGINALYEAR"@.len() != "RECORDINGDATE"@.len());
    assert("ORIGINALYEAR"@.len() != "RECORDINGYEAR"@.len());
    assert("ORIGINALYEAR"@.len() != "ICRD"@.len());
    assert("ORIGINALYEAR"@.len() != "DATE"@.len());
    assert("ORIGINALYEAR"@.len() != "YEAR"@.len());
    assert("ORIGINALYEAR"@.len() != "TDRL"@.len());
    assert("ORIGINALYEAR"@.len() != "RELEASEDATE"@.len());
    assert("ORIGINALYEAR"@.len() != "RELEASEYEAR"@.len());
    assert("ORIGINALYEAR"@.len() != "©DAY"@.len());
    assert("ORIGINALRECORDINGDATE"@.len() != "TDAT"@.len());
    assert("ORIGINALRECORDINGDATE"@.len() != "TDA"@.len());
    assert("ORIGINALRECORDINGDATE"@.len() != "TIME"@.len());
    assert("ORIGINALRECORDINGDATE"@.len() != "TIM"@.len());
    assert("ORIGINALRECORDINGDATE"@.len() != "IDIT"@.len());
    assert("ORIGINALRECORDINGDATE"@.len() != "TDRC"@.len());
    assert("ORIGINALRECORDINGDATE"@.len() != "TYER"@.len());
    assert("ORIGINALRECORDINGDATE"@.len() != "TYE"@.len());
    assert("ORIGINALRECORDINGDATE"@.len() != "RECORDINGDATE"@.len());
    assert("ORIGINALRECORDINGDATE"@.len() != "RECORDINGYEAR"@.len());
    assert("ORIGINALRECORDINGDATE"@.len() != "ICRD"@.len());
    assert("ORIGINALRECORDINGDATE"@.len() != "DATE"@.len());
    assert("ORIGINALRECORDINGDATE"@.len() != "YEAR"@.len());
    assert("ORIGINALRECORDINGDATE"@.len() != "TDRL"@.len());
    assert("ORIGINALRECORDINGDATE"@.len() != "RELEASEDATE"@.len());
    assert("ORIGINALRECORDINGDATE"@.len() != "RELEASEYEAR"@.len());
    assert("ORIGINALRECORDINGDATE"@.len() != "©DAY"@.len());
    assert("ORIGINALRECORDINGYEAR"@.len() != "TDAT"@.len());
    assert("ORIGINALRECORDINGYEAR"@.len() != "TDA"@.len());
    assert("ORIGINALRECORDINGYEAR"@.len() != "TIME"@.len());
    assert("ORIGINALRECORDINGYEAR"@.len() != "TIM"@.len());
    assert("ORIGINALRECORDINGYEAR"@.len() != "IDIT"@.len());
    assert("ORIGINALRECORDINGYEAR"@.len() != "TDRC"@.len());
    assert("ORIGINALRECORDINGYEAR"@.len() != "TYER"@.len());
    assert("ORIGINALRECORDINGYEAR"@.len() != "TYE"@.len());
    assert("ORIGINALRECORDINGYEAR"@.len() != "RECORDINGDATE"@.len());
    assert("ORIGINALRECORDINGYEAR"@.len() != "RECORDINGYEAR"@.len());
    assert("ORIGINALRECORDINGYEAR"@.len() != "ICRD"@.len());
    assert("ORIGINALRECORDINGYEAR"@.len() != "DATE"@.len());
    assert("ORIGINALRECORDINGYEAR"@.len() != "YEAR"@.len());
    assert("ORIGINALRECORDINGYEAR"@.len() != "TDRL"@.len());
    assert("ORIGINALRECORDINGYEAR"@.len() != "RELEASEDATE"@.len());
    assert("ORIGINALRECORDINGYEAR"@.len() != "RELEASEYEAR"@.len());
    assert("ORIGINALRECORDINGYEAR"@.len() != "©DAY"@.len());
}

/// The case of a key's ASCII letters never changes its meaning.
pub proof fn lemma_key_case_free(a: Seq<char>, b: Seq<char>, standard: StandardDate)
    requires
        ascii_upper(a) == ascii_upper(b),
    ensures
        semantic_of(a, standard) == semantic_of(b, standard),
{
}

/// Time and partial-date keys (TDAT, TDA, TIME, TIM, IDIT), in any ASCII
/// case, never give a year.
pub proof fn lemma_time_keys(raw_key: Seq<char>, standard: StandardDate)
    requires
        ({
            let u = ascii_upper(raw_key);
            u == "TDAT"@ || u == "TDA"@ || u == "TIME"@ || u == "TIM"@ || u == "IDIT"@
        }),
    ensures
        semantic_of(raw_key, standard) is None,
{
}

} // verus!

verus! {

/// What a reader's standard mapping says a tag is, as far as this library
/// reads it.
#[derive(Debug, PartialEq, Eq)]
pub enum StandardValue {
    TrackTitle(String),
    Artist(String),
    Genre(String),
    Date(StandardDate),
    Other,
}

/// One embedded tag as a probe reports it: its raw key and value, and its
/// standard meaning.
#[derive(Debug, PartialEq, Eq)]
pub struct ProbedTag {
    pub raw_key: String,
    pub raw_value: String,
    pub standard: StandardValue,
}

pub open spec fn text_of(o: Option<String>) -> Option<Seq<char>> {
    match o {
        Some(s) => Some(s@),
        None => None,
    }
}

/// The date meaning of a standard value.
pub open spec fn standard_date(s: StandardValue) -> StandardDate {
    match s {
        StandardValue::Date(d) => d,
        _ => StandardDate::Unrelated,
    }
}

/// The genre value a tag carries: its standard genre, else (when it is no
/// title or artist) its raw value under a genre key.
pub open spec fn genre_of(t: ProbedTag) -> Option<Seq<char>> {
    match t.standard {
        StandardValue::Genre(v) => Some(v@),
        StandardValue::TrackTitle(_) => None,
        StandardValue::Artist(_) => None,
        _ => if genre_key(t.raw_key@) {
            Some(t.raw_value@)
        } else {
            None
        },
    }
}

/// `new` is `old` after recording genre value `value` as `push_genre` does.
pub open spec fn genre_recorded(old: Metadata, new: Metadata, value: Seq<char>) -> bool {
    let v = tag_value(value);
    if v.len() == 0 || has_control(v) || v.len() > MAX_SCALARS {
        &&& new.genres == old.genres
        &&& new.diagnostics@.map_values(|s: String| s@) == noted(old.diagnostics@, invalid_genre_message())
    } else {
        &&& new.genres@.len() == old.genres@.len() + 1
        &&& new.genres@.drop_last() == old.genres@
        &&& new.genres@.last()@ == v
        &&& new.diagnostics == old.diagnostics
    }
}

/// The metadata after one probed tag.
pub open spec fn tag_recorded(m: MetaView, t: ProbedTag) -> MetaView {
    let genre_ok = match genre_of(t) {
        Some(g) => {
            let v = tag_value(g);
            !(v.len() == 0 || has_control(v) || v.len() > MAX_SCALARS)
        },
        None => false,
    };
    MetaView {
        title: match t.standard {
            StandardValue::TrackTitle(v) => match cleaned_value(v@) {
                Some(c) => Some(c),
                None => m.title,
            },
            _ => m.title,
        },
        artist: match t.standard {
            StandardValue::Artist(v) => match cleaned_value(v@) {
                Some(c) => Some(c),
                None => m.artist,
            },
            _ => m.artist,
        },
        genres: match genre_of(t) {
            Some(g) => if genre_ok {
                m.genres.push(tag_value(g))
            } else {
                m.genres
            },
            None => m.genres,
        },
        candidates: match semantic_of(t.raw_key@, standard_date(t.standard)) {
            Some(s) => {
                let c = (t.raw_key@, t.raw_value@, s, semantic_rank(s));
                if m.candidates.contains(c) {
                    m.candidates
                } else {
                    m.candidates.push(c)
                }
            },
            None => m.candidates,
        },
        diagnostics: match genre_of(t) {
            Some(g) => if genre_ok {
                m.diagnostics
            } else {
                note_once(m.diagnostics, invalid_genre_message())
            },
            None => m.diagnostics,
        },
    }
}

/// The metadata after the probed tags `ts`, in order.
pub open spec fn tags_applied(m: MetaView, ts: Seq<ProbedTag>) -> MetaView
    decreases ts.len(),
{
    if ts.len() == 0 {
        m
    } else {
        tag_recorded(tags_applied(m, ts.drop_last()), ts.last())
    }
}

/// The metadata nothing has been recorded into.
pub open spec fn empty_meta() -> MetaView {
    MetaView { title: None, artist: None, genres: seq![], candidates: seq![], diagnostics: seq![] }
}

/// Collect one probed tag into `metadata`: a clean standard title or artist
/// replaces the one recorded, a genre value is recorded, and a date gives a
/// year candidate of its semantic.
pub fn collect_tag(tag: &ProbedTag, metadata: &mut Metadata)
    ensures
        text_of(final(metadata).title) == match tag.standard {
            StandardValue::TrackTitle(v) => match cleaned_value(v@) {
                Some(c) => Some(c),
                None => text_of(old(metadata).title),
            },
            _ => text_of(old(metadata).title),
        },
        text_of(final(metadata).artist) == match tag.standard {
            StandardValue::Artist(v) => match cleaned_value(v@) {
                Some(c) => Some(c),
                None => text_of(old(metadata).artist),
            },
            _ => text_of(old(metadata).artist),
        },
        match genre_of(*tag) {
            Some(g) => genre_recorded(*old(metadata), *final(metadata), g),
            None => final(metadata).genres == old(metadata).genres && final(metadata).diagnostics
                == old(metadata).diagnostics,
        },
        ({
            let before = candidate_views(old(metadata).year_candidates@);
            candidate_views(final(metadata).year_candidates@) == match semantic_of(
                tag.raw_key@,
                standard_date(tag.standard),
            ) {
                Some(s) => {
                    let c = (tag.raw_key@, tag.raw_value@, s, semantic_rank(s));
                    if before.contains(c) {
                        before
                    } else {
                        before.push(c)
                    }
                },
                None => before,
            }
        }),
        meta_view(*final(metadata)) == tag_recorded(meta_view(*old(metadata)), *tag),
{
    let date = match &tag.standard {
        StandardValue::TrackTitle(v) => {
            match cleaned(v.as_str()) {
                Some(c) => metadata.title = Some(c),
                None => {},
            }
            StandardDate::Unrelated
        },
        StandardValue::Artist(v) => {
            match cleaned(v.as_str()) {
                Some(c) => metadata.artist = Some(c),
                None => {},
            }
            StandardDate::Unrelated
        },
        StandardValue::Genre(v) => {
            push_genre(metadata, v.as_str());
            StandardDate::Unrelated
        },
        StandardValue::Date(d) => {
            if is_genre_key(tag.raw_key.as_str()) {
                push_genre(metadata, tag.raw_value.as_str());
            }
            *d
        },
        StandardValue::Other => {
            if is_genre_key(tag.raw_key.as_str()) {
                push_genre(metadata, tag.raw_value.as_str());
            }
            StandardDate::Unrelated
        },
    };
    match year_semantic(tag.raw_key.as_str(), date) {
        Some(semantic) => push_candidate(metadata, tag.raw_key.clone(), tag.raw_value.clone(), semantic),
        None => {},
    }
    proof {
        let after = tag_recorded(meta_view(*old(metadata)), *tag);
        assert(meta_view(*metadata).genres =~= after.genres);
        assert(meta_view(*metadata).diagnostics =~= after.diagnostics);
        assert(meta_view(*metadata).candidates =~= after.candidates);
    }
}

} // verus!
