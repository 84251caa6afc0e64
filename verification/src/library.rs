//! The library listing: which files are tracks, how a row shows a track,
//! and which analysis counts as complete.
use vstd::prelude::*;

use crate::tags::{ascii_fold, folded};
use crate::text::{chars_of, string_of};

verus! {

/// The final component of `path` as `std::path::Path::file_name` gives it.
pub uninterp spec fn path_file_name(path: Seq<char>) -> Option<Seq<char>>;

/// `std::path::Path::file_name` of a UTF-8 path; believed to return the
/// path's final component, which is itself UTF-8, or `None` when there is
/// none (an empty path, or one ending in `..`).
#[verifier::external_body]
fn file_name_of(path: &str) -> (r: Option<String>)
    ensures
        match r {
            Some(n) => path_file_name(path@) == Some(n@),
            None => path_file_name(path@) is None,
        },
{
    std::path::Path::new(path).file_name().and_then(|s| s.to_str()).map(|s| s.to_owned())
}

/// Index of the last `.` of `name`, or -1.
pub open spec fn last_dot(name: Seq<char>) -> int
    decreases name.len(),
{
    if name.len() == 0 {
        -1
    } else if name.last() == '.' {
        name.len() - 1
    } else {
        last_dot(name.drop_last())
    }
}

/// The extension of a file name, as `Path::extension` documents it: the
/// part after the last `.`, unless there is no `.` but a leading one.
pub open spec fn name_extension(name: Seq<char>) -> Option<Seq<char>> {
    let p = last_dot(name);
    if p <= 0 {
        None
    } else {
        Some(name.subrange(p + 1, name.len() as int))
    }
}

/// The extension of `path`: that of its file name, when it has one.
pub open spec fn path_extension(path: Seq<char>) -> Option<Seq<char>> {
    match path_file_name(path) {
        Some(n) => name_extension(n),
        None => None,
    }
}

proof fn lemma_last_dot(name: Seq<char>, i: int)
    requires
        -1 <= i < name.len(),
        i >= 0 ==> name[i] == '.',
        forall|j: int| i < j < name.len() ==> name[j] != '.',
    ensures
        last_dot(name) == i,
    decreases name.len(),
{
    if name.len() > 0 && name.last() != '.' {
        assert forall|j: int| i < j < name.len() - 1 implies name.drop_last()[j] != '.' by {
            assert(name.drop_last()[j] == name[j]);
        }
        lemma_last_dot(name.drop_last(), i);
    }
}

fn extension_of(path: &str) -> (r: Option<String>)
    ensures
        match r {
            Some(e) => path_extension(path@) == Some(e@),
            None => path_extension(path@) is None,
        },
{
    let name = match file_name_of(path) {
        Some(n) => n,
        None => return None,
    };
    let cs = chars_of(name.as_str());
    let mut i: usize = cs.len();
    while i > 0 && cs[i - 1] != '.'
        invariant
            i <= cs.len(),
            cs@ == name@,
            forall|j: int| i <= j < cs.len() ==> cs@[j] != '.',
        decreases i,
    {
        i = i - 1;
    }
    proof {
        lemma_last_dot(cs@, i as int - 1);
    }
    if i <= 1 {
        return None;
    }
    let mut out: Vec<char> = Vec::new();
    let mut k: usize = i;
    while k < cs.len()
        invariant
            i <= k <= cs.len(),
            out@ == cs@.subrange(i as int, k as int),
        decreases cs.len() - k,
    {
        out.push(cs[k]);
        k = k + 1;
        assert(out@ =~= cs@.subrange(i as int, k as int));
    }
    Some(string_of(out.as_slice()))
}

/// The formats the engine decodes, by lowercase extension.
pub open spec fn supported_extension(e: Seq<char>) -> bool {
    e == "wav"@ || e == "mp3"@ || e == "flac"@ || e == "m4a"@ || e == "ogg"@
}

fn same(a: &str, b: &str) -> (r: bool)
    ensures
        r == (a@ == b@),
{
    a.to_owned() == b.to_owned()
}

/// Whether `path` has an extension the engine can decode, in any ASCII case.
pub fn is_supported_track(path: &str) -> (r: bool)
    ensures
        r == match path_extension(path@) {
            Some(e) => supported_extension(folded(e)),
            None => false,
        },
{
    match extension_of(path) {
        Some(e) => {
            let l = ascii_fold(e.as_str());
            let l = l.as_str();
            same(l, "wav") || same(l, "mp3") || same(l, "flac") || same(l, "m4a") || same(l, "ogg")
        },
        None => false,
    }
}

/// The name a row shows for `path`: its file name, else `?`.
pub fn file_name_str(path: &str) -> (r: String)
    ensures
        r@ == match path_file_name(path@) {
            Some(n) => n,
            None => "?"@,
        },
{
    match file_name_of(path) {
        Some(n) => n,
        None => "?".to_owned(),
    }
}

/// What the library listing reads of a track's cached analysis.
#[derive(Clone, Copy, Debug, PartialEq, Eq, Structural)]
pub struct AnalysisSummary {
    pub intro_bars: u32,
    pub outro_structure_bars: u32,
    pub outro_bars: u32,
    pub intro_bars_manual: bool,
    pub outro_structure_bars_manual: bool,
    pub outro_bars_manual: bool,
    pub intro_bars_low_confidence: bool,
    pub outro_bars_low_confidence: bool,
    pub needs_reanalysis: bool,
}

/// A cached analysis counts only when it is complete: an entry waiting for
/// re-analysis reads as none, so nothing treats it as ready for playback.
pub fn complete_analysis(cached: Option<AnalysisSummary>) -> (r: Option<AnalysisSummary>)
    ensures
        r == match cached {
            Some(a) => if a.needs_reanalysis {
                None
            } else {
                Some(a)
            },
            None => None,
        },
{
    match cached {
        Some(a) => if a.needs_reanalysis {
            None
        } else {
            Some(a)
        },
        None => None,
    }
}

/// One row of the library listing: a track and what its complete analysis
/// says; without one the bar fields are empty.
#[derive(Debug, PartialEq, Eq)]
pub struct TrackRow {
    pub path: String,
    pub name: String,
    pub analyzed: bool,
    pub intro_bars: Option<u32>,
    pub outro_structure_bars: Option<u32>,
    pub outro_bars: Option<u32>,
    pub intro_manual: bool,
    pub outro_manual: bool,
    pub intro_low_confidence: bool,
    pub outro_low_confidence: bool,
}

/// The row for `path` given its complete analysis, if any.
pub fn track_row(path: &str, analysis: Option<AnalysisSummary>) -> (r: TrackRow)
    ensures
        r.path@ == path@,
        r.name@ == match path_file_name(path@) {
            Some(n) => n,
            None => "?"@,
        },
        match analysis {
            Some(a) => {
                &&& r.analyzed
                &&& r.intro_bars == Some(a.intro_bars)
                &&& r.outro_structure_bars == Some(a.outro_structure_bars)
                &&& r.outro_bars == Some(a.outro_bars)
                &&& r.intro_manual == a.intro_bars_manual
                &&& r.outro_manual == (a.outro_structure_bars_manual || a.outro_bars_manual)
                &&& r.intro_low_confidence == a.intro_bars_low_confidence
                &&& r.outro_low_confidence == a.outro_bars_low_confidence
            },
            None => {
                &&& !r.analyzed
                &&& r.intro_bars is None && r.outro_structure_bars is None && r.outro_bars is None
                &&& !r.intro_manual && !r.outro_manual
                &&& !r.intro_low_confidence && !r.outro_low_confidence
            },
        },
{
    let name = file_name_str(path);
    match analysis {
        Some(a) => TrackRow {
            path: path.to_owned(),
            name,
            analyzed: true,
            intro_bars: Some(a.intro_bars),
            outro_structure_bars: Some(a.outro_structure_bars),
            outro_bars: Some(a.outro_bars),
            intro_manual: a.intro_bars_manual,
            outro_manual: a.outro_structure_bars_manual || a.outro_bars_manual,
            intro_low_confidence: a.intro_bars_low_confidence,
            outro_low_confidence: a.outro_bars_low_confidence,
        },
        None => TrackRow {
            path: path.to_owned(),
            name,
            analyzed: false,
            intro_bars: None,
            outro_structure_bars: None,
            outro_bars: None,
            intro_manual: false,
            outro_manual: false,
            intro_low_confidence: false,
            outro_low_confidence: false,
        },
    }
}

} // verus!
