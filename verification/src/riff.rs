//! The RIFF INFO list of a WAVE file: the title, artist, genre and creation
//! date fields some readers discard, read straight from the file's bytes.
//!
//! Only the first `LIST`/`INFO` chunk is read. Lengths that break the
//! declared RIFF bounds are errors; in-bounds values larger than a defensive
//! budget are skipped and reported.
use vstd::prelude::*;

use crate::metadata::{collect_riff_info, diagnostic_once, info_recorded, meta_view, note_once, MetaView, Metadata};
use crate::text::{chars_of, string_of};

verus! {

/// Largest RIFF INFO value read; larger in-bounds values are skipped.
pub const MAX_RIFF_INFO_VALUE_BYTES: u64 = 1048576;

/// What one INFO field of interest yields: its value bytes, or the notice
/// that it was too large to read.
pub enum InfoEvent {
    Value { key: Seq<u8>, value: Seq<u8> },
    Oversized { key: Seq<u8> },
}

/// The exec form of an [`InfoEvent`].
#[derive(Debug, PartialEq, Eq)]
pub enum RiffInfoEvent {
    Value { key: [u8; 4], value: Vec<u8> },
    Oversized { key: [u8; 4] },
}

pub open spec fn event_view(e: RiffInfoEvent) -> InfoEvent {
    match e {
        RiffInfoEvent::Value { key, value } => InfoEvent::Value { key: key@, value: value@ },
        RiffInfoEvent::Oversized { key } => InfoEvent::Oversized { key: key@ },
    }
}

pub open spec fn events_view(es: Seq<RiffInfoEvent>) -> Seq<InfoEvent> {
    es.map_values(|e: RiffInfoEvent| event_view(e))
}


pub open spec fn event_known(e: InfoEvent) -> bool {
    match e {
        InfoEvent::Value { key, .. } => known_field(key),
        InfoEvent::Oversized { key } => known_field(key),
    }
}

proof fn lemma_fields_known(b: Seq<u8>, pos: int, remaining: int)
    ensures
        forall|k: int| 0 <= k < scan_fields(b, pos, remaining).1.len() ==> event_known(
            #[trigger] scan_fields(b, pos, remaining).1[k],
        ),
    decreases remaining,
{
    if remaining >= 8 {
        let len = le32(b, pos + 4);
        let padded = len + len % 2;
        if padded <= remaining - 8 {
            let rest = scan_fields(b, pos + 8 + padded, remaining - 8 - padded);
            lemma_fields_known(b, pos + 8 + padded, remaining - 8 - padded);
            let r = scan_fields(b, pos, remaining);
            assert forall|k: int| 0 <= k < r.1.len() implies event_known(#[trigger] r.1[k]) by {
                if known_field(id_at(b, pos)) {
                    if k > 0 {
                        assert(r.1[k] == rest.1[k - 1]);
                    }
                } else {
                    assert(r.1[k] == rest.1[k]);
                }
            }
        }
    }
}

proof fn lemma_chunks_known(b: Seq<u8>, pos: int, riff_end: int)
    ensures
        forall|k: int| 0 <= k < scan_chunks(b, pos, riff_end).1.len() ==> event_known(
            #[trigger] scan_chunks(b, pos, riff_end).1[k],
        ),
    decreases riff_end - pos,
{
    if pos + 8 <= b.len() {
        let size = le32(b, pos + 4);
        let start = pos + 8;
        let padded = size + size % 2;
        if start + padded <= riff_end {
            let r = scan_chunks(b, pos, riff_end);
            if id_at(b, pos) != list_id() || size < 4 || id_at(b, start) != info_id() {
                lemma_chunks_known(b, start + padded, riff_end);
                assert(r == scan_chunks(b, start + padded, riff_end));
            } else {
                lemma_fields_known(b, start + 4, size - 4);
                assert(r == scan_fields(b, start + 4, size - 4));
            }
            assert forall|k: int| 0 <= k < r.1.len() implies event_known(#[trigger] r.1[k]) by {
                if id_at(b, pos) != list_id() || size < 4 || id_at(b, start) != info_id() {
                    assert(r.1[k] == scan_chunks(b, start + padded, riff_end).1[k]);
                } else {
                    assert(r.1[k] == scan_fields(b, start + 4, size - 4).1[k]);
                }
            }
        }
    }
}

/// The little-endian 32-bit number at `at`.
pub open spec fn le32(b: Seq<u8>, at: int) -> int {
    b[at] + b[at + 1] * 256 + b[at + 2] * 65536 + b[at + 3] * 16777216
}

pub open spec fn four(a: u8, b: u8, c: u8, d: u8) -> Seq<u8> {
    seq![a, b, c, d]
}

/// `RIFF`, `WAVE`, `LIST`, `INFO` and the four field ids read.
pub open spec fn riff_id() -> Seq<u8> { four(82, 73, 70, 70) }
pub open spec fn wave_id() -> Seq<u8> { four(87, 65, 86, 69) }
pub open spec fn list_id() -> Seq<u8> { four(76, 73, 83, 84) }
pub open spec fn info_id() -> Seq<u8> { four(73, 78, 70, 79) }

pub open spec fn known_field(key: Seq<u8>) -> bool {
    key == four(73, 78, 65, 77) || key == four(73, 65, 82, 84) || key == four(73, 67, 82, 68) || key == four(
        73,
        71,
        78,
        82,
    )
}

pub open spec fn id_at(b: Seq<u8>, at: int) -> Seq<u8> {
    b.subrange(at, at + 4)
}

/// The outcome of a scan and the events met before it ended.
pub open spec fn with_event(e: InfoEvent, rest: (Result<(), Seq<char>>, Seq<InfoEvent>)) -> (Result<(), Seq<char>>, Seq<InfoEvent>) {
    (rest.0, seq![e] + rest.1)
}

/// The fields of an INFO list from `pos`, `remaining` bytes long.
pub open spec fn scan_fields(b: Seq<u8>, pos: int, remaining: int) -> (Result<(), Seq<char>>, Seq<InfoEvent>)
    decreases remaining,
{
    if remaining < 8 {
        if remaining != 0 {
            (Err("malformed RIFF INFO trailing bytes"@), seq![])
        } else {
            (Ok(()), seq![])
        }
    } else {
        let key = id_at(b, pos);
        let len = le32(b, pos + 4);
        let rem = remaining - 8;
        let padded = len + len % 2;
        if padded > rem {
            (Err("malformed RIFF INFO field length"@), seq![])
        } else {
            let rest = scan_fields(b, pos + 8 + padded, rem - padded);
            if known_field(key) {
                if len > MAX_RIFF_INFO_VALUE_BYTES {
                    with_event(InfoEvent::Oversized { key }, rest)
                } else {
                    with_event(InfoEvent::Value { key, value: b.subrange(pos + 8, pos + 8 + len) }, rest)
                }
            } else {
                rest
            }
        }
    }
}

/// The chunks from `pos` up to the declared end of the RIFF data.
pub open spec fn scan_chunks(b: Seq<u8>, pos: int, riff_end: int) -> (Result<(), Seq<char>>, Seq<InfoEvent>)
    decreases riff_end - pos,
{
    if pos + 8 > b.len() {
        (Ok(()), seq![])
    } else {
        let size = le32(b, pos + 4);
        let start = pos + 8;
        let padded = size + size % 2;
        if start + padded > riff_end {
            (Err("malformed RIFF: chunk exceeds declared bounds"@), seq![])
        } else if id_at(b, pos) != list_id() || size < 4 {
            scan_chunks(b, start + padded, riff_end)
        } else if id_at(b, start) != info_id() {
            scan_chunks(b, start + padded, riff_end)
        } else {
            scan_fields(b, start + 4, size - 4)
        }
    }
}

/// What reading the RIFF INFO list of the file `b` finds: nothing unless `b`
/// starts with a RIFF WAVE header, an error when a declared size breaks the
/// file's bounds.
pub open spec fn riff_scan(b: Seq<u8>) -> (Result<(), Seq<char>>, Seq<InfoEvent>) {
    if b.len() < 12 || id_at(b, 0) != riff_id() || id_at(b, 8) != wave_id() {
        (Ok(()), seq![])
    } else if 8 + le32(b, 4) > b.len() {
        (Err("malformed RIFF: declared size exceeds file"@), seq![])
    } else {
        scan_chunks(b, 12, 8 + le32(b, 4))
    }
}

fn read_le32(b: &[u8], at: usize) -> (r: u64)
    requires
        at + 4 <= b.len(),
    ensures
        r == le32(b@, at as int),
        r <= u32::MAX,
{
    (b[at] as u64) + (b[at + 1] as u64) * 256 + (b[at + 2] as u64) * 65536 + (b[at + 3] as u64) * 16777216
}

fn id_is(b: &[u8], at: usize, x: u8, y: u8, z: u8, w: u8) -> (r: bool)
    requires
        at + 4 <= b.len(),
    ensures
        r == (id_at(b@, at as int) == four(x, y, z, w)),
{
    let r = b[at] == x && b[at + 1] == y && b[at + 2] == z && b[at + 3] == w;
    proof {
        let s = id_at(b@, at as int);
        if r {
            assert(s =~= four(x, y, z, w));
        } else {
            assert(s[0] == b@[at as int] && s[1] == b@[at + 1] && s[2] == b@[at + 2] && s[3] == b@[at + 3]);
            assert(four(x, y, z, w)[0] == x && four(x, y, z, w)[1] == y);
            assert(four(x, y, z, w)[2] == z && four(x, y, z, w)[3] == w);
        }
    }
    r
}

fn key_at(b: &[u8], at: usize) -> (r: [u8; 4])
    requires
        at + 4 <= b.len(),
    ensures
        r@ == id_at(b@, at as int),
{
    let k = [b[at], b[at + 1], b[at + 2], b[at + 3]];
    assert(k@ =~= id_at(b@, at as int));
    k
}

fn bytes_at(b: &[u8], from: usize, len: usize) -> (r: Vec<u8>)
    requires
        from + len <= b.len(),
    ensures
        r@ == b@.subrange(from as int, from + len),
{
    let mut out: Vec<u8> = Vec::new();
    let mut i: usize = 0;
    while i < len
        invariant
            i <= len,
            from + len <= b.len(),
            out@ == b@.subrange(from as int, from + i),
        decreases len - i,
    {
        out.push(b[from + i]);
        i = i + 1;
        assert(out@ =~= b@.subrange(from as int, from + i));
    }
    out
}

fn err_text(s: &str) -> (r: Result<(), String>)
    ensures
        r matches Err(e) && e@ == s@,
{
    Err(s.to_owned())
}

/// The fields of one INFO list.
fn read_fields(b: &[u8], start: usize, total: u64) -> (r: (Result<(), String>, Vec<RiffInfoEvent>))
    requires
        start + total <= b.len(),
    ensures
        ({
            let s = scan_fields(b@, start as int, total as int);
            &&& match r.0 {
                Ok(()) => s.0 is Ok,
                Err(e) => s.0 == Err::<(), Seq<char>>(e@),
            }
            &&& events_view(r.1@) == s.1
        }),
    decreases total,
{
    if total < 8 {
        if total != 0 {
            return (err_text("malformed RIFF INFO trailing bytes"), Vec::new());
        }
        return (Ok(()), Vec::new());
    }
    let len = read_le32(b, start + 4);
    let rem = total - 8;
    let padded = len + len % 2;
    if padded > rem {
        return (err_text("malformed RIFF INFO field length"), Vec::new());
    }
    let next = start + 8 + padded as usize;
    let (res, rest) = read_fields(b, next, rem - padded);
    let ghost tail = scan_fields(b@, next as int, (rem - padded) as int);
    let key = key_at(b, start);
    let known = id_is(b, start, 73, 78, 65, 77) || id_is(b, start, 73, 65, 82, 84) || id_is(b, start, 73, 67, 82, 68)
        || id_is(b, start, 73, 71, 78, 82);
    if known {
        let e = if len > MAX_RIFF_INFO_VALUE_BYTES {
            RiffInfoEvent::Oversized { key }
        } else {
            RiffInfoEvent::Value { key, value: bytes_at(b, start + 8, len as usize) }
        };
        let mut out: Vec<RiffInfoEvent> = Vec::new();
        out.push(e);
        let ghost ev = event_view(out@[0]);
        let mut rest = rest;
        out.append(&mut rest);
        assert(events_view(out@) =~= seq![ev] + tail.1);
        (res, out)
    } else {
        (res, rest)
    }
}

/// The events of the first `LIST`/`INFO` chunk from `pos`.
fn read_chunks(b: &[u8], pos: usize, riff_end: u64) -> (r: (Result<(), String>, Vec<RiffInfoEvent>))
    requires
        riff_end <= b.len(),
        pos <= b.len(),
    ensures
        ({
            let s = scan_chunks(b@, pos as int, riff_end as int);
            &&& match r.0 {
                Ok(()) => s.0 is Ok,
                Err(e) => s.0 == Err::<(), Seq<char>>(e@),
            }
            &&& events_view(r.1@) == s.1
        }),
    decreases b.len() - pos,
{
    if b.len() - pos < 8 {
        return (Ok(()), Vec::new());
    }
    let size = read_le32(b, pos + 4);
    let start = pos + 8;
    let padded = size + size % 2;
    if (start as u64) > riff_end || padded > riff_end - (start as u64) {
        return (err_text("malformed RIFF: chunk exceeds declared bounds"), Vec::new());
    }
    if !id_is(b, pos, 76, 73, 83, 84) || size < 4 {
        return read_chunks(b, start + padded as usize, riff_end);
    }
    if !id_is(b, start, 73, 78, 70, 79) {
        return read_chunks(b, start + padded as usize, riff_end);
    }
    read_fields(b, start + 4, size - 4)
}

/// The RIFF INFO fields of interest in the file `bytes`, in file order, and
/// whether its declared sizes hold.
pub fn riff_info_events(bytes: &[u8]) -> (r: (Result<(), String>, Vec<RiffInfoEvent>))
    ensures
        ({
            let s = riff_scan(bytes@);
            &&& match r.0 {
                Ok(()) => s.0 is Ok,
                Err(e) => s.0 == Err::<(), Seq<char>>(e@),
            }
            &&& events_view(r.1@) == s.1
        }),
{
    if bytes.len() < 12 || !id_is(bytes, 0, 82, 73, 70, 70) || !id_is(bytes, 8, 87, 65, 86, 69) {
        return (Ok(()), Vec::new());
    }
    let riff_end = 8 + read_le32(bytes, 4);
    if riff_end > bytes.len() as u64 {
        return (err_text("malformed RIFF: declared size exceeds file"), Vec::new());
    }
    read_chunks(bytes, 12, riff_end)
}

/// The text of RIFF bytes, invalid UTF-8 replaced as `String::from_utf8_lossy` does.
pub uninterp spec fn lossy_text(bytes: Seq<u8>) -> Seq<char>;

/// `String::from_utf8_lossy`, owned: its result is named `lossy_text`.
#[verifier::external_body]
fn utf8_lossy(bytes: &[u8]) -> (r: String)
    ensures
        r@ == lossy_text(bytes@),
{
    String::from_utf8_lossy(bytes).into_owned()
}

/// The message recorded once when a field is too large to read.
pub open spec fn oversized_message(key: Seq<u8>) -> Seq<char> {
    "ignored oversized RIFF INFO value: "@ + key.map_values(|k: u8| k as char)
}

fn oversized_text(key: &[u8; 4]) -> (r: String)
    requires
        key@[0] < 128 && key@[1] < 128 && key@[2] < 128 && key@[3] < 128,
    ensures
        r@ == oversized_message(key@),
{
    let mut out = chars_of("ignored oversized RIFF INFO value: ");
    let ghost p = out@;
    out.push(key[0] as char);
    out.push(key[1] as char);
    out.push(key[2] as char);
    out.push(key[3] as char);
    assert(out@ =~= p + key@.map_values(|k: u8| k as char));
    string_of(out.as_slice())
}

/// The metadata after the INFO events `events`, in order: a value is read
/// as UTF-8 (invalid sequences replaced) and recorded; an oversized field
/// is noted once.
pub open spec fn info_applied(m: MetaView, events: Seq<InfoEvent>) -> MetaView
    decreases events.len(),
{
    if events.len() == 0 {
        m
    } else {
        let m1 = info_applied(m, events.drop_last());
        match events.last() {
            InfoEvent::Value { key, value } => info_recorded(m1, key, lossy_text(value)),
            InfoEvent::Oversized { key } => MetaView {
                title: m1.title,
                artist: m1.artist,
                genres: m1.genres,
                candidates: m1.candidates,
                diagnostics: note_once(m1.diagnostics, oversized_message(key)),
            },
        }
    }
}

/// Read the RIFF INFO list of the WAVE file `bytes` into `metadata`: each
/// value goes through [`collect_riff_info`], each oversized field leaves a
/// diagnostic once. Events before a size error are kept, as a reader
/// working through the file would have recorded them.
pub fn collect_wav_info(bytes: &[u8], metadata: &mut Metadata) -> (r: Result<(), String>)
    ensures
        match r {
            Ok(()) => riff_scan(bytes@).0 is Ok,
            Err(e) => riff_scan(bytes@).0 == Err::<(), Seq<char>>(e@),
        },
        meta_view(*final(metadata)) == info_applied(meta_view(*old(metadata)), riff_scan(bytes@).1),
{
    let ghost m0 = meta_view(*metadata);
    let (res, events) = riff_info_events(bytes);
    proof {
        let ev = riff_scan(bytes@).1;
        if !(bytes@.len() < 12 || id_at(bytes@, 0) != riff_id() || id_at(bytes@, 8) != wave_id())
            && 8 + le32(bytes@, 4) <= bytes@.len() {
            lemma_chunks_known(bytes@, 12, 8 + le32(bytes@, 4));
        }
        assert forall|k: int| 0 <= k < events.len() implies event_known(#[trigger] event_view(events@[k])) by {
            assert(event_view(events@[k]) == events_view(events@)[k]);
            assert(events_view(events@)[k] == ev[k]);
            if !(bytes@.len() < 12 || id_at(bytes@, 0) != riff_id() || id_at(bytes@, 8) != wave_id())
                && 8 + le32(bytes@, 4) <= bytes@.len() {
                let c = scan_chunks(bytes@, 12, 8 + le32(bytes@, 4));
                assert(ev == c.1);
                assert(event_known(c.1[k]));
                assert(event_known(ev[k]));
            } else {
                assert(ev.len() == 0);
            }
        }
    }
    let ghost ev = events_view(events@);
    let mut i: usize = 0;
    while i < events.len()
        invariant
            i <= events.len(),
            forall|k: int| 0 <= k < events.len() ==> event_known(#[trigger] event_view(events@[k])),
            ev == events_view(events@),
            meta_view(*metadata) == info_applied(m0, ev.take(i as int)),
        decreases events.len() - i,
    {
        proof {
            assert(ev.take(i as int + 1).drop_last() =~= ev.take(i as int));
            assert(ev.take(i as int + 1).last() == event_view(events@[i as int]));
        }
        let ghost mid = meta_view(*metadata);
        match &events[i] {
            RiffInfoEvent::Value { key, value } => {
                let text = utf8_lossy(value.as_slice());
                collect_riff_info(key, text.as_str(), metadata);
            },
            RiffInfoEvent::Oversized { key } => {
                assert(event_known(event_view(events@[i as int])));
                assert(known_field(key@));
                let message = oversized_text(key);
                diagnostic_once(metadata, message);
                proof {
                    assert(meta_view(*metadata).diagnostics =~= note_once(mid.diagnostics, oversized_message(key@)));
                }
            },
        }
        i = i + 1;
    }
    assert(ev.take(events.len() as int) =~= ev);
    res
}

} // verus!
