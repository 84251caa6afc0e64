//! Reading a library file's embedded tags with symphonia, from the file's
//! bytes, and what the library makes of them.
use vstd::prelude::*;

use crate::metadata::{
    collect_tag, date_of_tag, empty_meta, meta_view, tags_applied, DateTag, MetaView, Metadata, ProbedTag, StandardDate,
    StandardValue,
};
use crate::riff::{collect_wav_info, info_applied, riff_scan};
use crate::store::{first_name, title_and_artist, NameTag};

verus! {

/// What symphonia's probe finds in the file `bytes` (with the file name's
/// `extension` as a hint): its metadata revisions in order, oldest first,
/// each as the media's tags and then all its tracks' tags; or the probe's
/// error text.
pub uninterp spec fn symphonia_probe(bytes: Seq<u8>, extension: Option<Seq<char>>) -> Result<
    Seq<(Seq<ProbedTag>, Seq<ProbedTag>)>,
    Seq<char>,
>;

/// What a probed file's metadata log holds: per revision, the media's tags
/// and its tracks' tags.
pub uninterp spec fn file_revisions(f: ProbedFile) -> Seq<(Seq<ProbedTag>, Seq<ProbedTag>)>;

pub open spec fn opt_str(o: Option<&str>) -> Option<Seq<char>> {
    match o {
        Some(s) => Some(s@),
        None => None,
    }
}

/// Every tag of the revisions `revs`, in order.
pub open spec fn all_tags(revs: Seq<(Seq<ProbedTag>, Seq<ProbedTag>)>) -> Seq<ProbedTag>
    decreases revs.len(),
{
    if revs.len() == 0 {
        seq![]
    } else {
        all_tags(revs.drop_last()) + revs.last().0 + revs.last().1
    }
}

/// The media tags of the latest revision, if there is one.
pub open spec fn latest_tags(revs: Seq<(Seq<ProbedTag>, Seq<ProbedTag>)>) -> Seq<ProbedTag> {
    if revs.len() == 0 {
        seq![]
    } else {
        revs.last().0
    }
}

/// The tags the library reads from the file `bytes`: all of them, or only
/// the latest revision's media tags when `latest_only`.
pub open spec fn symphonia_tags(bytes: Seq<u8>, extension: Option<Seq<char>>, latest_only: bool) -> Result<
    Seq<ProbedTag>,
    Seq<char>,
> {
    match symphonia_probe(bytes, extension) {
        Ok(revs) => Ok(
            if latest_only {
                latest_tags(revs)
            } else {
                all_tags(revs)
            },
        ),
        Err(e) => Err(e),
    }
}

pub open spec fn revision_views(v: Seq<(Vec<ProbedTag>, Vec<ProbedTag>)>) -> Seq<(Seq<ProbedTag>, Seq<ProbedTag>)> {
    v.map_values(|p: (Vec<ProbedTag>, Vec<ProbedTag>)| (p.0@, p.1@))
}

/// symphonia's standard tag, carried through opaque.
#[verifier::external_type_specification]
#[verifier::external_body]
pub struct ExStandardTag(symphonia::core::meta::StandardTag);

/// A file symphonia has probed: its format reader, which holds the file's
/// metadata log.
#[verifier::external_body]
pub struct ProbedFile {
    reader: Box<dyn symphonia::core::formats::FormatReader>,
}

/// symphonia's probe (`get_probe().probe`) over an in-memory copy of
/// `bytes`, hinted with `extension`: the revisions the probed file holds,
/// or the error's text, are named `symphonia_probe`.
#[verifier::external_body]
fn open_file(bytes: &[u8], extension: Option<&str>) -> (r: Result<ProbedFile, String>)
    ensures
        match r {
            Ok(f) => symphonia_probe(bytes@, opt_str(extension)) == Ok::<Seq<(Seq<ProbedTag>, Seq<ProbedTag>)>, Seq<char>>(
                file_revisions(f),
            ),
            Err(e) => symphonia_probe(bytes@, opt_str(extension)) == Err::<Seq<(Seq<ProbedTag>, Seq<ProbedTag>)>, Seq<char>>(
                e@,
            ),
        },
{
    let source = Box::new(std::io::Cursor::new(bytes.to_vec()));
    let mss = symphonia::core::io::MediaSourceStream::new(source, Default::default());
    let mut hint = symphonia::core::formats::probe::Hint::new();
    extension.map(|e| hint.with_extension(e));
    let probed = symphonia::default::get_probe().probe(&hint, mss, Default::default(), Default::default());
    probed.map(|reader| ProbedFile { reader }).map_err(|e| e.to_string())
}

/// The probed file's metadata log (`FormatReader::metadata`, walked with
/// `current` and `pop`), each tag converted by [`probed_tag`].
#[verifier::external_body]
fn revisions(file: ProbedFile) -> (r: Vec<(Vec<ProbedTag>, Vec<ProbedTag>)>)
    ensures
        revision_views(r@) == file_revisions(file),
{
    let (mut reader, mut out) = (file.reader, Vec::new());
    let mut log = reader.metadata();
    while let Some(rev) = log.current() {
        let tracks = rev.per_track.iter().flat_map(|p| p.metadata.tags.iter());
        let media = rev.media.tags.iter().map(|t| probed_tag(t.raw.key.clone(), t.raw.value.to_string(), &t.std));
        out.push((media.collect(), tracks.map(|t| probed_tag(t.raw.key.clone(), t.raw.value.to_string(), &t.std)).collect()));
        if log.pop().is_none() {
            break;
        }
    }
    out
}

/// The tags the library reads from the file `bytes`: every tag of every
/// metadata revision in order, or only the latest revision's media tags.
fn probe_tags(bytes: &[u8], extension: Option<&str>, latest_only: bool) -> (r: Result<Vec<ProbedTag>, String>)
    ensures
        match r {
            Ok(v) => symphonia_tags(bytes@, opt_str(extension), latest_only) == Ok::<Seq<ProbedTag>, Seq<char>>(v@),
            Err(e) => symphonia_tags(bytes@, opt_str(extension), latest_only) == Err::<Seq<ProbedTag>, Seq<char>>(e@),
        },
{
    let file = match open_file(bytes, extension) {
        Ok(f) => f,
        Err(e) => return Err(e),
    };
    let ghost revs = file_revisions(file);
    let mut rest = revisions(file);
    if latest_only {
        return match rest.pop() {
            Some((media, _)) => Ok(media),
            None => Ok(Vec::new()),
        };
    }
    let ghost r0 = rest@;
    assert(r0.len() == rest.len());
    let mut out: Vec<ProbedTag> = Vec::new();
    let mut k: usize = 0;
    assert(r0.take(0) =~= seq![]);
    while rest.len() > 0
        invariant
            revision_views(r0) == revs,
            r0.len() <= usize::MAX,
            k + rest.len() == r0.len(),
            rest@ == r0.skip(k as int),
            out@ == all_tags(revision_views(r0.take(k as int))),
        decreases rest.len(),
    {
        let (mut media, mut tracks) = rest.remove(0);
        proof {
            assert(revision_views(r0.take(k as int + 1)).drop_last() =~= revision_views(r0.take(k as int)));
            assert(r0[k as int] == r0.skip(k as int)[0]);
        }
        out.append(&mut media);
        out.append(&mut tracks);
        k = k + 1;
        assert(rest@ =~= r0.skip(k as int));
    }
    assert(r0.take(k as int) =~= r0);
    Ok(out)
}

/// A tag as the library reads it: its raw key and value, and the standard
/// meaning of its standard tag.
fn probed_tag(raw_key: String, raw_value: String, std: &Option<symphonia::core::meta::StandardTag>) -> ProbedTag {
    ProbedTag { raw_key, raw_value, standard: standard_of(std) }
}

/// The title, artist or genre text a standard tag carries; `Other` for any
/// other standard tag.
#[verifier::external_body]
fn standard_text(s: &symphonia::core::meta::StandardTag) -> StandardValue {
    match s {
        symphonia::core::meta::StandardTag::TrackTitle(v) => StandardValue::TrackTitle(v.to_string()),
        symphonia::core::meta::StandardTag::Artist(v) => StandardValue::Artist(v.to_string()),
        symphonia::core::meta::StandardTag::Genre(v) => StandardValue::Genre(v.to_string()),
        _ => StandardValue::Other,
    }
}

/// The recording or release date, time or year variant a standard tag is,
/// one variant each; `Other` for any other standard tag.
#[verifier::external_body]
fn recording_or_release(s: &symphonia::core::meta::StandardTag) -> DateTag {
    match s {
        symphonia::core::meta::StandardTag::RecordingDate(_) => DateTag::RecordingDate,
        symphonia::core::meta::StandardTag::RecordingTime(_) => DateTag::RecordingTime,
        symphonia::core::meta::StandardTag::RecordingYear(_) => DateTag::RecordingYear,
        symphonia::core::meta::StandardTag::ReleaseDate(_) => DateTag::ReleaseDate,
        symphonia::core::meta::StandardTag::ReleaseTime(_) => DateTag::ReleaseTime,
        symphonia::core::meta::StandardTag::ReleaseYear(_) => DateTag::ReleaseYear,
        _ => DateTag::Other,
    }
}

/// The original recording or release date, time or year variant a standard
/// tag is, one variant each; `Other` for any other standard tag.
#[verifier::external_body]
fn original_date(s: &symphonia::core::meta::StandardTag) -> DateTag {
    match s {
        symphonia::core::meta::StandardTag::OriginalRecordingDate(_) => DateTag::OriginalRecordingDate,
        symphonia::core::meta::StandardTag::OriginalRecordingTime(_) => DateTag::OriginalRecordingTime,
        symphonia::core::meta::StandardTag::OriginalRecordingYear(_) => DateTag::OriginalRecordingYear,
        symphonia::core::meta::StandardTag::OriginalReleaseDate(_) => DateTag::OriginalReleaseDate,
        symphonia::core::meta::StandardTag::OriginalReleaseTime(_) => DateTag::OriginalReleaseTime,
        symphonia::core::meta::StandardTag::OriginalReleaseYear(_) => DateTag::OriginalReleaseYear,
        _ => DateTag::Other,
    }
}

/// The standard meaning of a tag: a title, artist or genre text, else the
/// kind of date it is (grouped by [`date_of_tag`]), else none.
fn standard_of(s: &Option<symphonia::core::meta::StandardTag>) -> StandardValue {
    match s {
        None => StandardValue::Other,
        Some(t) => match standard_text(t) {
            StandardValue::Other => {
                let dated = match recording_or_release(t) {
                    DateTag::Other => original_date(t),
                    d => d,
                };
                match date_of_tag(dated) {
                    StandardDate::Unrelated => StandardValue::Other,
                    d => StandardValue::Date(d),
                }
            },
            v => v,
        },
    }
}

/// The file name extension `wav`, in any case.
pub open spec fn is_wav(extension: Option<Seq<char>>) -> bool {
    match extension {
        Some(e) => e.len() == 3 && (e[0] == 'w' || e[0] == 'W') && (e[1] == 'a' || e[1] == 'A') && (e[2] == 'v' || e[2]
            == 'V'),
        None => false,
    }
}

fn wav_extension(extension: Option<&str>) -> (r: bool)
    ensures
        r == is_wav(opt_str(extension)),
{
    match extension {
        Some(e) => {
            let cs = crate::text::chars_of(e);
            cs.len() == 3 && (cs[0] == 'w' || cs[0] == 'W') && (cs[1] == 'a' || cs[1] == 'A') && (cs[2] == 'v' || cs[2]
                == 'V')
        },
        None => false,
    }
}

/// All embedded metadata of the file `bytes`, whose name has `extension`:
/// every tag symphonia finds, in order, through [`collect_tag`]; then, for a
/// WAV file, the RIFF INFO fields symphonia drops. A failed probe, or a
/// malformed RIFF size in a WAV file, is an error.
pub fn probe_metadata(bytes: &[u8], extension: Option<&str>) -> (r: Result<Metadata, String>)
    ensures
        match symphonia_tags(bytes@, opt_str(extension), false) {
            Err(e) => r matches Err(x) && x@ == e,
            Ok(ts) => {
                let m = tags_applied(empty_meta(), ts);
                if !is_wav(opt_str(extension)) {
                    r matches Ok(md) && meta_view(md) == m
                } else {
                    match riff_scan(bytes@).0 {
                        Err(e) => r matches Err(x) && x@ == e,
                        Ok(()) => r matches Ok(md) && meta_view(md) == info_applied(m, riff_scan(bytes@).1),
                    }
                }
            },
        },
{
    let tags = match probe_tags(bytes, extension, false) {
        Ok(t) => t,
        Err(e) => return Err(e),
    };
    let mut metadata = Metadata::new();
    let mut i: usize = 0;
    assert(tags@.take(0) =~= seq![]);
    while i < tags.len()
        invariant
            i <= tags.len(),
            meta_view(metadata) == tags_applied(empty_meta(), tags@.take(i as int)),
        decreases tags.len() - i,
    {
        assert(tags@.take(i as int + 1).drop_last() =~= tags@.take(i as int));
        collect_tag(&tags[i], &mut metadata);
        i = i + 1;
    }
    assert(tags@.take(tags.len() as int) =~= tags@);
    if wav_extension(extension) {
        match collect_wav_info(bytes, &mut metadata) {
            Ok(()) => {},
            Err(e) => return Err(e),
        }
    }
    Ok(metadata)
}

/// What a probed tag says of a track's name.
pub open spec fn name_tag_of(t: ProbedTag) -> NameTag {
    match t.standard {
        StandardValue::TrackTitle(s) => NameTag::TrackTitle(s),
        StandardValue::Artist(s) => NameTag::Artist(s),
        _ => NameTag::Other,
    }
}

pub open spec fn name_tags(ts: Seq<ProbedTag>) -> Seq<NameTag> {
    ts.map_values(|t: ProbedTag| name_tag_of(t))
}

/// The embedded title and artist of the file `bytes`: the first non-blank
/// one of each, trimmed, among the latest metadata revision's tags.
pub fn probe_title_artist(bytes: &[u8], extension: Option<&str>) -> (r: Result<(Option<String>, Option<String>), String>)
    ensures
        match symphonia_tags(bytes@, opt_str(extension), true) {
            Err(e) => r matches Err(x) && x@ == e,
            Ok(ts) => r matches Ok(p) && opt_text(p.0) == first_name(name_tags(ts), true) && opt_text(p.1) == first_name(
                name_tags(ts),
                false,
            ),
        },
{
    let tags = match probe_tags(bytes, extension, true) {
        Ok(t) => t,
        Err(e) => return Err(e),
    };
    let mut names: Vec<NameTag> = Vec::new();
    let mut i: usize = 0;
    while i < tags.len()
        invariant
            i <= tags.len(),
            names@ =~= name_tags(tags@).take(i as int),
        decreases tags.len() - i,
    {
        let n = match &tags[i].standard {
            StandardValue::TrackTitle(s) => NameTag::TrackTitle(s.clone()),
            StandardValue::Artist(s) => NameTag::Artist(s.clone()),
            _ => NameTag::Other,
        };
        names.push(n);
        assert(names@ =~= name_tags(tags@).take(i as int + 1));
        i = i + 1;
    }
    assert(name_tags(tags@).take(tags.len() as int) =~= name_tags(tags@));
    let (title, artist) = title_and_artist(names.as_slice());
    Ok((title, artist))
}

pub open spec fn opt_text(o: Option<String>) -> Option<Seq<char>> {
    match o {
        Some(s) => Some(s@),
        None => None,
    }
}

} // verus!
