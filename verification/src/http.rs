//! The opt-in, loopback-only current-track endpoint: what it reports, which
//! port it is configured with, and which requests it answers.
use vstd::prelude::*;

use crate::dates::{all_digits, digit_value, split_char, split_chars};
use crate::text::{chars_of, decimal, decimal_chars, trim_chars, trimmed};

verus! {

/// The public shape of the current track as companion tools read it.
#[derive(Debug, PartialEq, Eq)]
pub struct CurrentTrackSnapshot {
    pub version: u8,
    pub title: String,
    pub artist: String,
    pub playing: bool,
}

impl CurrentTrackSnapshot {
    pub fn empty() -> (r: CurrentTrackSnapshot)
        ensures
            r.version == 1,
            r.title@.len() == 0,
            r.artist@.len() == 0,
            !r.playing,
    {
        CurrentTrackSnapshot { version: 1, title: String::new(), artist: String::new(), playing: false }
    }

    /// The snapshot for a player state: the track's title and artist, and
    /// whether it is audibly playing, unless nothing is loaded or the
    /// listener is auditioning, which report the empty snapshot.
    pub fn from_state(metadata: Option<(String, String)>, phase_is_playing: bool, paused: bool, auditioning: bool) -> (r:
        CurrentTrackSnapshot)
        ensures
            r.version == 1,
            match metadata {
                Some((title, artist)) if !auditioning => r.title == title && r.artist == artist && r.playing
                    == (phase_is_playing && !paused),
                _ => r.title@.len() == 0 && r.artist@.len() == 0 && !r.playing,
            },
    {
        match metadata {
            Some((title, artist)) => {
                if auditioning {
                    CurrentTrackSnapshot::empty()
                } else {
                    CurrentTrackSnapshot { version: 1, title, artist, playing: phase_is_playing && !paused }
                }
            },
            None => CurrentTrackSnapshot::empty(),
        }
    }
}

/// The decimal value of a run of ASCII digits.
pub open spec fn digits_value(s: Seq<char>) -> nat
    decreases s.len(),
{
    if s.len() == 0 {
        0
    } else {
        (digits_value(s.drop_last()) * 10 + digit_value(s.last())) as nat
    }
}

/// `u16::from_str`: an optional `+`, then one or more ASCII digits whose
/// value fits in 16 bits.
pub open spec fn parsed_u16(s: Seq<char>) -> Option<u16> {
    let d = if s.len() > 0 && s[0] == '+' {
        s.drop_first()
    } else {
        s
    };
    if d.len() > 0 && all_digits(d) && digits_value(d) <= u16::MAX {
        Some(digits_value(d) as u16)
    } else {
        None
    }
}

proof fn lemma_digits_value_grows(s: Seq<char>, i: int)
    requires
        0 <= i <= s.len(),
        all_digits(s),
    ensures
        digits_value(s.take(i)) <= digits_value(s),
    decreases s.len() - i,
{
    if i < s.len() {
        lemma_digits_value_grows(s, i + 1);
        assert(s.take(i + 1).drop_last() =~= s.take(i));
    } else {
        assert(s.take(i) =~= s);
    }
}

fn parse_u16(s: &[char]) -> (r: Option<u16>)
    ensures
        r == parsed_u16(s@),
{
    let start: usize = if s.len() > 0 && s[0] == '+' {
        1
    } else {
        0
    };
    let ghost d = if s.len() > 0 && s@[0] == '+' {
        s@.drop_first()
    } else {
        s@
    };
    assert(d =~= s@.skip(start as int));
    if start >= s.len() {
        return None;
    }
    let mut acc: u32 = 0;
    let mut i: usize = start;
    assert(d.take(0) =~= seq![]);
    while i < s.len()
        invariant
            start <= i <= s.len(),
            d =~= s@.skip(start as int),
            d == (if s@.len() > 0 && s@[0] == '+' {
                s@.drop_first()
            } else {
                s@
            }),
            d.len() > 0,
            all_digits(d.take(i - start)),
            acc == digits_value(d.take(i - start)),
            acc <= u16::MAX,
        decreases s.len() - i,
    {
        let c = s[i];
        if !('0' <= c && c <= '9') {
            assert(d[i - start] == c);
            assert(!crate::dates::is_digit(d[i - start]));
            return None;
        }
        let ghost pre = d.take(i - start);
        let ghost next = d.take(i - start + 1);
        assert(next.drop_last() =~= pre);
        assert(next.last() == c);
        assert(digits_value(next) == digits_value(pre) * 10 + digit_value(c));
        assert(all_digits(next)) by {
            assert forall|k: int| 0 <= k < next.len() implies crate::dates::is_digit(#[trigger] next[k]) by {
                if k < pre.len() {
                    assert(next[k] == pre[k]);
                }
            }
        }
        acc = acc * 10 + ((c as u32) - ('0' as u32));
        i = i + 1;
        if acc > 65535 {
            proof {
                if all_digits(d) {
                    lemma_digits_value_grows(d, i - start);
                }
            }
            return None;
        }
    }
    assert(d.take(i - start) =~= d);
    Some(acc as u16)
}

/// The port the endpoint listens on: set, a number, and not zero.
pub open spec fn configured_port(raw: Option<Seq<char>>) -> Option<u16> {
    match raw {
        Some(s) => match parsed_u16(s) {
            Some(p) if p != 0 => Some(p),
            _ => None,
        },
        None => None,
    }
}

pub fn configured_port_value(raw: Option<&str>) -> (r: Option<u16>)
    ensures
        r == configured_port(match raw {
            Some(s) => Some(s@),
            None => None,
        }),
{
    match raw {
        Some(s) => {
            let cs = chars_of(s);
            match parse_u16(cs.as_slice()) {
                Some(p) => {
                    if p == 0 {
                        None
                    } else {
                        Some(p)
                    }
                },
                None => None,
            }
        },
        None => None,
    }
}

#[derive(Clone, Copy, Debug, PartialEq, Eq, Structural)]
pub enum RequestKind {
    NowPlaying,
    MethodNotAllowed,
    NotFound,
    Forbidden,
    Malformed,
}

/// Index of the first CR LF in `s`, or -1.
pub open spec fn crlf_pos(s: Seq<char>) -> int
    decreases s.len(),
{
    if s.len() < 2 {
        -1
    } else if s[0] == '\r' && s[1] == '\n' {
        0
    } else {
        let p = crlf_pos(s.drop_first());
        if p < 0 {
            -1
        } else {
            p + 1
        }
    }
}

/// The lines of `s`, split at every CR LF.
pub open spec fn crlf_lines(s: Seq<char>) -> Seq<Seq<char>>
    decreases s.len(),
{
    let p = crlf_pos(s);
    if p < 0 {
        seq![s]
    } else {
        proof {
            lemma_crlf_pos_bound(s);
        }
        seq![s.take(p)] + crlf_lines(s.skip(p + 2))
    }
}

pub open spec fn lower_char(c: char) -> char {
    if 'A' <= c && c <= 'Z' {
        ((c as u32) + 32) as char
    } else {
        c
    }
}

/// `str::eq_ignore_ascii_case`.
pub open spec fn same_ignoring_ascii_case(a: Seq<char>, b: Seq<char>) -> bool {
    a.len() == b.len() && forall|i: int| 0 <= i < a.len() ==> lower_char(#[trigger] a[i]) == lower_char(b[i])
}

/// What the header lines from `i` on decide, given whether a `Host` was
/// seen and whether the last one named this endpoint: `Err` when they
/// settle the answer, else `Ok` with whether the host is valid.
pub open spec fn scan_headers(lines: Seq<Seq<char>>, i: int, host_seen: bool, valid_host: bool, port: u16) -> Result<
    bool,
    RequestKind,
>
    decreases lines.len() - i,
{
    if i >= lines.len() || i < 0 || lines[i].len() == 0 {
        Ok(valid_host)
    } else {
        let line = lines[i];
        let c = crate::dates::char_pos(line, ':');
        if c < 0 {
            Err(RequestKind::Malformed)
        } else {
            let name = line.take(c);
            let value = line.skip(c + 1);
            if same_ignoring_ascii_case(name, "origin"@) {
                Err(RequestKind::Forbidden)
            } else if same_ignoring_ascii_case(name, "host"@) {
                if host_seen {
                    Err(RequestKind::Forbidden)
                } else {
                    let v = trimmed(value);
                    scan_headers(
                        lines,
                        i + 1,
                        true,
                        v == "127.0.0.1:"@ + decimal(port as nat) || v == "localhost:"@ + decimal(port as nat),
                        port,
                    )
                }
            } else {
                scan_headers(lines, i + 1, host_seen, valid_host, port)
            }
        }
    }
}

/// How the endpoint answers a request: only a `GET /now-playing HTTP/1.1`
/// with exactly one `Host` naming this loopback port, and no `Origin`.
pub open spec fn request_kind(request: Seq<char>, port: u16) -> RequestKind {
    let lines = crlf_lines(request);
    let parts = split_char(lines[0], ' ');
    if parts.len() != 3 || parts[2] != "HTTP/1.1"@ {
        RequestKind::Malformed
    } else {
        match scan_headers(lines, 1, false, false, port) {
            Err(k) => k,
            Ok(valid) => if !valid {
                RequestKind::Forbidden
            } else if parts[0] != "GET"@ {
                RequestKind::MethodNotAllowed
            } else if parts[1] != "/now-playing"@ {
                RequestKind::NotFound
            } else {
                RequestKind::NowPlaying
            },
        }
    }
}

/// The text `bytes` hold as UTF-8, or `None` when they are not UTF-8.
pub uninterp spec fn utf8_text(bytes: Seq<u8>) -> Option<Seq<char>>;

/// `std::str::from_utf8`, its text copied out: its result is named `utf8_text`.
#[verifier::external_body]
fn decode_utf8(bytes: &[u8]) -> (r: Option<String>)
    ensures
        match r {
            Some(s) => utf8_text(bytes@) == Some(s@),
            None => utf8_text(bytes@) is None,
        },
{
    match std::str::from_utf8(bytes) {
        Ok(s) => Some(s.to_owned()),
        Err(_) => None,
    }
}

/// A CR LF starts at `k`.
pub open spec fn crlf_at(s: Seq<char>, k: int) -> bool {
    0 <= k && k + 1 < s.len() && s[k] == '\r' && s[k + 1] == '\n'
}

proof fn lemma_crlf_pos_is(s: Seq<char>, i: int)
    requires
        0 <= i,
        forall|k: int| 0 <= k < i ==> !#[trigger] crlf_at(s, k),
        (i + 1 < s.len() && s[i] == '\r' && s[i + 1] == '\n') || i + 1 >= s.len(),
    ensures
        crlf_pos(s) == if i + 1 < s.len() {
            i
        } else {
            -1
        },
    decreases i,
{
    if s.len() >= 2 && i > 0 {
        let t = s.drop_first();
        assert forall|k: int| 0 <= k < i - 1 implies !#[trigger] crlf_at(t, k) by {
            assert(!crlf_at(s, k + 1));
            if k + 1 < t.len() {
                assert(t[k] == s[k + 1] && t[k + 1] == s[k + 2]);
            }
        }
        assert(!crlf_at(s, 0));
        if i < s.len() {
            assert(i - 1 + 1 < t.len() ==> t[i - 1] == s[i] && t[i] == s[i + 1]);
        }
        lemma_crlf_pos_is(t, i - 1);
        assert(!(s[0] == '\r' && s[1] == '\n'));
    }
}

fn slice_chars(s: &[char], from: usize, to: usize) -> (r: Vec<char>)
    requires
        from <= to <= s.len(),
    ensures
        r@ == s@.subrange(from as int, to as int),
{
    let mut out: Vec<char> = Vec::new();
    let mut i: usize = from;
    while i < to
        invariant
            from <= i <= to <= s.len(),
            out@ == s@.subrange(from as int, i as int),
        decreases to - i,
    {
        out.push(s[i]);
        i = i + 1;
        assert(out@ =~= s@.subrange(from as int, i as int));
    }
    out
}

fn lines_of(s: &[char]) -> (r: Vec<Vec<char>>)
    ensures
        r@.map_values(|v: Vec<char>| v@) == crlf_lines(s@),
{
    let mut lines: Vec<Vec<char>> = Vec::new();
    let mut start: usize = 0;
    assert(s@.skip(0) =~= s@);
    loop
        invariant
            start <= s.len(),
            lines@.map_values(|v: Vec<char>| v@) + crlf_lines(s@.skip(start as int)) == crlf_lines(s@),
        decreases s.len() - start,
    {
        let ghost t = s@.skip(start as int);
        let mut j: usize = start;
        while j < s.len() && !(j + 1 < s.len() && s[j] == '\r' && s[j + 1] == '\n')
            invariant
                start <= j <= s.len(),
                t == s@.skip(start as int),
                forall|k: int| start <= k < j ==> !#[trigger] crlf_at(s@, k),
            decreases s.len() - j,
        {
            j = j + 1;
        }
        proof {
            assert forall|k: int| 0 <= k < j - start implies !#[trigger] crlf_at(t, k) by {
                assert(!crlf_at(s@, k + start));
                if k + 1 < t.len() {
                    assert(t[k] == s@[k + start] && t[k + 1] == s@[k + start + 1]);
                }
            }
            if j + 1 < s.len() {
                assert(t[j - start] == s@[j as int] && t[j - start + 1] == s@[j + 1]);
            }
            lemma_crlf_pos_is(t, j - start);
        }
        let ghost lv = lines@.map_values(|v: Vec<char>| v@);
        if j < s.len() && j + 1 < s.len() {
            let line = slice_chars(s, start, j);
            assert(line@ =~= t.take(j - start));
            assert(t.skip(j - start + 2) =~= s@.skip(j + 2));
            lines.push(line);
            assert(lines@.map_values(|v: Vec<char>| v@) =~= lv.push(t.take(j - start)));
            assert(lv + crlf_lines(t) =~= lv.push(t.take(j - start)) + crlf_lines(s@.skip(j + 2)));
            start = j + 2;
        } else {
            let line = slice_chars(s, start, s.len());
            assert(line@ =~= t);
            lines.push(line);
            assert(lines@.map_values(|v: Vec<char>| v@) =~= lv.push(t));
            assert(lv + crlf_lines(t) =~= lv.push(t));
            return lines;
        }
    }
}

fn lower_one(c: char) -> (r: u32)
    ensures
        r == lower_char(c) as u32,
{
    let u = c as u32;
    if 'A' <= c && c <= 'Z' {
        u + 32
    } else {
        u
    }
}

fn eq_ignore_case(a: &[char], b: &str) -> (r: bool)
    ensures
        r == same_ignoring_ascii_case(a@, b@),
{
    let bs = chars_of(b);
    if a.len() != bs.len() {
        return false;
    }
    let mut i: usize = 0;
    while i < a.len()
        invariant
            i <= a.len(),
            a.len() == bs.len(),
            bs@ == b@,
            forall|k: int| 0 <= k < i ==> lower_char(#[trigger] a@[k]) == lower_char(b@[k]),
        decreases a.len() - i,
    {
        if lower_one(a[i]) != lower_one(bs[i]) {
            return false;
        }
        i = i + 1;
    }
    true
}

fn same_chars(a: &[char], b: &Vec<char>) -> (r: bool)
    ensures
        r == (a@ == b@),
{
    if a.len() != b.len() {
        return false;
    }
    let mut i: usize = 0;
    while i < a.len()
        invariant
            i <= a.len(),
            a.len() == b.len(),
            forall|k: int| 0 <= k < i ==> a@[k] == b@[k],
        decreases a.len() - i,
    {
        if a[i] != b[i] {
            return false;
        }
        i = i + 1;
    }
    assert(a@ =~= b@);
    true
}

fn host_text(prefix: &str, port: u16) -> (r: Vec<char>)
    ensures
        r@ == prefix@ + decimal(port as nat),
{
    let mut out: Vec<char> = chars_of(prefix);
    let d = decimal_chars(port as u64);
    let ghost p = out@;
    let mut i: usize = 0;
    while i < d.len()
        invariant
            i <= d.len(),
            out@ == p + d@.take(i as int),
        decreases d.len() - i,
    {
        out.push(d[i]);
        i = i + 1;
        assert(out@ =~= p + d@.take(i as int));
    }
    assert(d@.take(d.len() as int) =~= d@);
    out
}

fn find_colon(s: &[char]) -> (r: Option<usize>)
    ensures
        match r {
            Some(i) => i < s.len() && crate::dates::char_pos(s@, ':') == i,
            None => crate::dates::char_pos(s@, ':') == -1,
        },
{
    crate::dates::find_char(s, ':')
}

/// How the endpoint answers the request text `request` on `port`.
pub fn classify_text(request: &str, port: u16) -> (r: RequestKind)
    ensures
        r == request_kind(request@, port),
{
    let cs = chars_of(request);
    let lines = lines_of(cs.as_slice());
    let ghost lv = lines@.map_values(|v: Vec<char>| v@);
    proof {
        lemma_lines_nonempty(request@);
    }
    assert(lv[0] == lines@[0]@);
    let parts = split_chars(lines[0].as_slice(), ' ');
    let ghost pv = parts@.map_values(|v: Vec<char>| v@);
    if parts.len() != 3 {
        return RequestKind::Malformed;
    }
    assert(pv[0] == parts@[0]@ && pv[1] == parts@[1]@ && pv[2] == parts@[2]@);
    let version = chars_of("HTTP/1.1");
    if !same_chars(parts[2].as_slice(), &version) {
        return RequestKind::Malformed;
    }
    let expected_ip = host_text("127.0.0.1:", port);
    let expected_localhost = host_text("localhost:", port);
    let mut host_seen = false;
    let mut valid_host = false;
    let mut i: usize = 1;
    while i < lines.len() && lines[i].len() > 0
        invariant
            1 <= i <= lines.len(),
            lv == lines@.map_values(|v: Vec<char>| v@),
            lv == crlf_lines(request@),
            lv.len() == lines.len(),
            pv == parts@.map_values(|v: Vec<char>| v@),
            pv == split_char(lv[0], ' '),
            parts.len() == 3,
            pv[2] == "HTTP/1.1"@,
            expected_ip@ == "127.0.0.1:"@ + decimal(port as nat),
            expected_localhost@ == "localhost:"@ + decimal(port as nat),
            scan_headers(lv, 1, false, false, port) == scan_headers(lv, i as int, host_seen, valid_host, port),
        decreases lines.len() - i,
    {
        let line = &lines[i];
        assert(lv[i as int] == line@);
        let c = match find_colon(line.as_slice()) {
            Some(c) => c,
            None => return RequestKind::Malformed,
        };
        let name = slice_chars(line.as_slice(), 0, c);
        let value = slice_chars(line.as_slice(), c + 1, line.len());
        assert(name@ =~= line@.take(c as int));
        assert(value@ =~= line@.skip(c + 1));
        if eq_ignore_case(name.as_slice(), "origin") {
            return RequestKind::Forbidden;
        }
        if eq_ignore_case(name.as_slice(), "host") {
            if host_seen {
                return RequestKind::Forbidden;
            }
            host_seen = true;
            let v = trim_chars(value.as_slice());
            valid_host = same_chars(v.as_slice(), &expected_ip) || same_chars(v.as_slice(), &expected_localhost);
        }
        i = i + 1;
    }
    let valid = valid_host;
    if !valid {
        return RequestKind::Forbidden;
    }
    let get = chars_of("GET");
    if !same_chars(parts[0].as_slice(), &get) {
        return RequestKind::MethodNotAllowed;
    }
    let route = chars_of("/now-playing");
    if !same_chars(parts[1].as_slice(), &route) {
        return RequestKind::NotFound;
    }
    RequestKind::NowPlaying
}

proof fn lemma_lines_nonempty(s: Seq<char>)
    ensures
        crlf_lines(s).len() >= 1,
    decreases s.len(),
{
    let p = crlf_pos(s);
    if p >= 0 {
        lemma_crlf_pos_bound(s);
        lemma_lines_nonempty(s.skip(p + 2));
    }
}

pub proof fn lemma_crlf_pos_bound(s: Seq<char>)
    ensures
        crlf_pos(s) >= 0 ==> crlf_pos(s) + 2 <= s.len(),
    decreases s.len(),
{
    if s.len() >= 2 && !(s[0] == '\r' && s[1] == '\n') {
        lemma_crlf_pos_bound(s.drop_first());
    }
}

/// How the endpoint answers the raw request bytes on `port`; bytes that
/// are not UTF-8 are malformed.
pub fn classify_request(bytes: &[u8], port: u16) -> (r: RequestKind)
    ensures
        r == match utf8_text(bytes@) {
            Some(t) => request_kind(t, port),
            None => RequestKind::Malformed,
        },
{
    match decode_utf8(bytes) {
        Some(text) => classify_text(text.as_str(), port),
        None => RequestKind::Malformed,
    }
}

} // verus!
