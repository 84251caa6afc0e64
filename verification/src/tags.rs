//! Track tags: validated genre and custom tags, their case-insensitive keys,
//! and how embedded and manual tags combine into the effective set.
use vstd::prelude::*;

use crate::order::{lemma_lex_lt_asymmetric, lemma_lex_lt_not_le, lemma_lex_lt_transitive, lex_lt, lex_lt_exec};
use crate::flags::{covers, lemma_selection_insert};
use crate::playlists::{keys_distinct, lemma_keyed_store};
use crate::text::{decimal, decimal_chars, any_control, chars_of, has_control, nfc, nfc_of, string_of, trim_chars, trimmed};

verus! {

/// Most characters a tag value may have.
pub const MAX_SCALARS: usize = 128;

/// Most tags a track may end up with.
pub const MAX_TAGS: usize = 128;

#[derive(Clone, Copy, Debug, PartialEq, Eq, Structural)]
pub enum TagKind {
    Genre,
    Custom,
}

/// What two tags are compared and deduplicated by.
#[derive(Debug, PartialEq, Eq)]
pub struct TagKey {
    pub kind: TagKind,
    pub value: String,
}

#[derive(Debug, PartialEq, Eq)]
pub struct Tag {
    pub kind: TagKind,
    pub value: String,
}

#[derive(Clone, Copy, Debug, PartialEq, Eq, Structural)]
pub enum TagError {
    Empty,
    ControlCharacter,
    TooLong,
}

#[derive(Clone, Copy, Debug, PartialEq, Eq, Structural)]
pub enum YearState {
    Auto,
    SetTo { value: u16 },
    Unset,
}

#[derive(Debug, PartialEq, Eq)]
pub struct TrackManualState {
    pub year: YearState,
    pub manual_additions: Vec<Tag>,
    pub suppressed_auto_tags: Vec<Tag>,
}

#[derive(Clone, Copy, Debug, PartialEq, Eq, Structural)]
pub enum TagOrigin {
    Embedded,
    Manual,
    Both,
}

#[derive(Debug, PartialEq, Eq)]
pub struct EffectiveTag {
    pub tag: Tag,
    pub origin: TagOrigin,
}

/// The value a tag stores for `value`: trimmed, then composed (NFC).
pub open spec fn tag_value(value: Seq<char>) -> Seq<char> {
    nfc(trimmed(value))
}

/// ASCII uppercase letters lowered; everything else kept.
pub open spec fn fold_char(c: char) -> char {
    if 'A' <= c && c <= 'Z' {
        ((c as u32) + 32) as char
    } else {
        c
    }
}

pub open spec fn folded(s: Seq<char>) -> Seq<char> {
    s.map_values(|c: char| fold_char(c))
}

/// The key of a tag: its kind and its ASCII-folded value.
pub open spec fn key_of(t: Tag) -> (TagKind, Seq<char>) {
    (t.kind, folded(t.value@))
}

fn fold_one(c: char) -> (r: char)
    ensures
        r == fold_char(c),
{
    if 'A' <= c && c <= 'Z' {
        let u = (c as u32) + 32;
        proof {
            assert(u == (c as u32) + 32);
        }
        char_from(u)
    } else {
        c
    }
}

/// `u` as a character, for `u` an ASCII lowercase letter.
fn char_from(u: u32) -> (r: char)
    requires
        0x61 <= u <= 0x7A,
    ensures
        r == u as char,
{
    if u == 0x61 { 'a' } else if u == 0x62 { 'b' } else if u == 0x63 { 'c' } else if u == 0x64 { 'd' }
    else if u == 0x65 { 'e' } else if u == 0x66 { 'f' } else if u == 0x67 { 'g' } else if u == 0x68 { 'h' }
    else if u == 0x69 { 'i' } else if u == 0x6A { 'j' } else if u == 0x6B { 'k' } else if u == 0x6C { 'l' }
    else if u == 0x6D { 'm' } else if u == 0x6E { 'n' } else if u == 0x6F { 'o' } else if u == 0x70 { 'p' }
    else if u == 0x71 { 'q' } else if u == 0x72 { 'r' } else if u == 0x73 { 's' } else if u == 0x74 { 't' }
    else if u == 0x75 { 'u' } else if u == 0x76 { 'v' } else if u == 0x77 { 'w' } else if u == 0x78 { 'x' }
    else if u == 0x79 { 'y' } else { 'z' }
}

/// The ASCII-folded characters of `s`.
pub fn ascii_fold(s: &str) -> (r: String)
    ensures
        r@ == folded(s@),
{
    let cs = chars_of(s);
    let mut out: Vec<char> = Vec::new();
    let mut i: usize = 0;
    while i < cs.len()
        invariant
            i <= cs.len(),
            cs@ == s@,
            out@ == folded(s@).take(i as int),
        decreases cs.len() - i,
    {
        out.push(fold_one(cs[i]));
        i = i + 1;
        assert(out@ =~= folded(s@).take(i as int));
    }
    assert(folded(s@).take(cs.len() as int) =~= folded(s@));
    string_of(out.as_slice())
}

impl Tag {
    /// A tag of `kind` whose value is `value` trimmed and composed, when
    /// that is non-empty, free of control characters and at most
    /// [`MAX_SCALARS`] characters long.
    pub fn new(kind: TagKind, value: &str) -> (r: Result<Tag, TagError>)
        ensures
            ({
                let v = tag_value(value@);
                if v.len() == 0 {
                    r == Err::<Tag, TagError>(TagError::Empty)
                } else if has_control(v) {
                    r == Err::<Tag, TagError>(TagError::ControlCharacter)
                } else if v.len() > MAX_SCALARS {
                    r == Err::<Tag, TagError>(TagError::TooLong)
                } else {
                    r matches Ok(t) && t.kind == kind && t.value@ == v
                }
            }),
    {
        let cs = chars_of(value);
        let t = trim_chars(cs.as_slice());
        let ts = string_of(t.as_slice());
        let v = nfc_of(ts.as_str());
        let vc = chars_of(v.as_str());
        if vc.len() == 0 {
            return Err(TagError::Empty);
        }
        if any_control(vc.as_slice()) {
            return Err(TagError::ControlCharacter);
        }
        if vc.len() > MAX_SCALARS {
            return Err(TagError::TooLong);
        }
        Ok(Tag { kind, value: v })
    }

    pub fn key(&self) -> (r: TagKey)
        ensures
            r.kind == self.kind,
            r.value@ == folded(self.value@),
    {
        TagKey { kind: self.kind, value: ascii_fold(self.value.as_str()) }
    }

    /// A copy of this tag.
    pub fn duplicate(&self) -> (r: Tag)
        ensures
            r == *self,
    {
        Tag { kind: self.kind, value: self.value.clone() }
    }
}

/// Whether two tags share a key.
fn same_key(a: &Tag, b: &Tag) -> (r: bool)
    ensures
        r == (key_of(*a) == key_of(*b)),
{
    let ka = a.key();
    let kb = b.key();
    ka.kind == kb.kind && ka.value == kb.value
}

pub open spec fn kind_rank(k: TagKind) -> int {
    match k {
        TagKind::Genre => 0,
        TagKind::Custom => 1,
    }
}

/// Key order: genres first, then by folded value.
pub open spec fn key_before(a: (TagKind, Seq<char>), b: (TagKind, Seq<char>)) -> bool {
    kind_rank(a.0) < kind_rank(b.0) || (a.0 == b.0 && lex_lt(a.1, b.1))
}

/// Index of the last element of `s` with key `k`, or -1.
pub open spec fn last_with_key(s: Seq<Tag>, k: (TagKind, Seq<char>)) -> int
    decreases s.len(),
{
    if s.len() == 0 {
        -1
    } else if key_of(s.last()) == k {
        s.len() - 1
    } else {
        last_with_key(s.drop_last(), k)
    }
}

pub open spec fn lists_key(s: Seq<Tag>, k: (TagKind, Seq<char>)) -> bool {
    exists|i: int| 0 <= i < s.len() && key_of(#[trigger] s[i]) == k
}

/// Two different positions of `s` have key `k`.
pub open spec fn repeats_key(s: Seq<Tag>, k: (TagKind, Seq<char>)) -> bool {
    exists|i: int, j: int| 0 <= i < j < s.len() && key_of(#[trigger] s[i]) == k && key_of(#[trigger] s[j]) == k
}

/// An embedded tag with key `k` survives suppression.
pub open spec fn auto_live(auto: Seq<Tag>, manual: TrackManualState, k: (TagKind, Seq<char>)) -> bool {
    lists_key(auto, k) && !lists_key(manual.suppressed_auto_tags@, k)
}

/// `e` is the effective tag for key `k`: the last manual tag with that key
/// when there is one, else the last embedded one; `Both` when a manual tag
/// meets a surviving embedded one or another manual tag of the same key.
pub open spec fn effective_for(e: EffectiveTag, auto: Seq<Tag>, manual: TrackManualState, k: (TagKind, Seq<char>)) -> bool {
    let ms = manual.manual_additions@;
    if lists_key(ms, k) {
        &&& e.tag == ms[last_with_key(ms, k)]
        &&& e.origin == if auto_live(auto, manual, k) || repeats_key(ms, k) {
            TagOrigin::Both
        } else {
            TagOrigin::Manual
        }
    } else {
        &&& auto_live(auto, manual, k)
        &&& e.tag == auto[last_with_key(auto, k)]
        &&& e.origin == TagOrigin::Embedded
    }
}

pub proof fn lemma_last_with_key(s: Seq<Tag>, k: (TagKind, Seq<char>))
    ensures
        last_with_key(s, k) == -1 <==> !lists_key(s, k),
        last_with_key(s, k) != -1 ==> 0 <= last_with_key(s, k) < s.len() && key_of(s[last_with_key(s, k)]) == k,
    decreases s.len(),
{
    if s.len() > 0 {
        lemma_last_with_key(s.drop_last(), k);
        if last_with_key(s.drop_last(), k) == -1 && key_of(s.last()) != k {
            assert forall|i: int| 0 <= i < s.len() implies key_of(#[trigger] s[i]) != k by {
                if i < s.len() - 1 {
                    assert(s[i] == s.drop_last()[i]);
                }
            }
        }
        if lists_key(s.drop_last(), k) {
            let i = choose|i: int| 0 <= i < s.drop_last().len() && key_of(#[trigger] s.drop_last()[i]) == k;
            assert(s[i] == s.drop_last()[i]);
        }
    }
}

/// Position of the last tag of `s` with the key of `t`, and whether another
/// tag of `s` has that key too.
fn scan_key(s: &Vec<Tag>, t: &Tag) -> (r: (Option<usize>, bool))
    ensures
        match r.0 {
            Some(i) => i < s.len() && last_with_key(s@, key_of(*t)) == i,
            None => last_with_key(s@, key_of(*t)) == -1,
        },
        r.1 == repeats_key(s@, key_of(*t)),
{
    let ghost k = key_of(*t);
    let mut last: Option<usize> = None;
    let mut repeated = false;
    let mut i: usize = 0;
    assert(s@.take(0) =~= seq![]);
    while i < s.len()
        invariant
            i <= s.len(),
            k == key_of(*t),
            match last {
                Some(j) => j < i && last_with_key(s@.take(i as int), k) == j,
                None => last_with_key(s@.take(i as int), k) == -1,
            },
            repeated == repeats_key(s@.take(i as int), k),
        decreases s.len() - i,
    {
        let ghost pre = s@.take(i as int);
        let ghost next = s@.take(i as int + 1);
        assert(next.drop_last() =~= pre);
        proof {
            lemma_last_with_key(pre, k);
        }
        if same_key(&s[i], t) {
            if last.is_some() {
                repeated = true;
                proof {
                    let j = last_with_key(pre, k);
                    assert(next[j] == pre[j]);
                    assert(key_of(next[j]) == k && key_of(next[i as int]) == k);
                }
            } else {
                proof {
                    if repeats_key(next, k) {
                        let (a, b) = choose|a: int, b: int| 0 <= a < b < next.len() && key_of(#[trigger] next[a]) == k && key_of(#[trigger] next[b]) == k;
                        assert(next[a] == pre[a]);
                        assert(lists_key(pre, k));
                    }
                }
            }
            last = Some(i);
        } else {
            proof {
                if repeats_key(next, k) {
                    let (a, b) = choose|a: int, b: int| 0 <= a < b < next.len() && key_of(#[trigger] next[a]) == k && key_of(#[trigger] next[b]) == k;
                    assert(next[a] == pre[a] && next[b] == pre[b]);
                }
                if repeats_key(pre, k) {
                    let (a, b) = choose|a: int, b: int| 0 <= a < b < pre.len() && key_of(#[trigger] pre[a]) == k && key_of(#[trigger] pre[b]) == k;
                    assert(next[a] == pre[a] && next[b] == pre[b]);
                }
            }
        }
        proof {
            if !same_key_spec(s@[i as int], *t) && repeats_key(pre, k) {
                let (a, b) = choose|a: int, b: int| 0 <= a < b < pre.len() && key_of(#[trigger] pre[a]) == k && key_of(#[trigger] pre[b]) == k;
                assert(next[a] == pre[a] && next[b] == pre[b]);
            }
            if repeats_key(pre, k) {
                let (a, b) = choose|a: int, b: int| 0 <= a < b < pre.len() && key_of(#[trigger] pre[a]) == k && key_of(#[trigger] pre[b]) == k;
                assert(next[a] == pre[a] && next[b] == pre[b]);
            }
        }
        i = i + 1;
    }
    assert(s@.take(s.len() as int) =~= s@);
    (last, repeated)
}

spec fn same_key_spec(a: Tag, b: Tag) -> bool {
    key_of(a) == key_of(b)
}

fn build_effective(auto: &Vec<Tag>, manual: &TrackManualState, t: &Tag) -> (e: EffectiveTag)
    requires
        lists_key(manual.manual_additions@, key_of(*t)) || auto_live(auto@, *manual, key_of(*t)),
    ensures
        key_of(e.tag) == key_of(*t),
        effective_for(e, auto@, *manual, key_of(*t)),
{
    let ghost k = key_of(*t);
    proof {
        lemma_last_with_key(manual.manual_additions@, k);
        lemma_last_with_key(auto@, k);
        lemma_last_with_key(manual.suppressed_auto_tags@, k);
    }
    let (lm, repeated) = scan_key(&manual.manual_additions, t);
    let (la, _) = scan_key(auto, t);
    match lm {
        Some(m) => {
            let (ls, _) = scan_key(&manual.suppressed_auto_tags, t);
            let live = la.is_some() && ls.is_none();
            let origin = if live || repeated {
                TagOrigin::Both
            } else {
                TagOrigin::Manual
            };
            EffectiveTag { tag: manual.manual_additions[m].duplicate(), origin }
        },
        None => {
            let a = match la {
                Some(a) => a,
                None => {
                    proof {
                        assert(false);
                    }
                    0
                },
            };
            EffectiveTag { tag: auto[a].duplicate(), origin: TagOrigin::Embedded }
        },
    }
}

/// `es` has an entry for key `k`.
pub open spec fn lists_effective(es: Seq<EffectiveTag>, k: (TagKind, Seq<char>)) -> bool {
    exists|i: int| 0 <= i < es.len() && key_of(#[trigger] es[i].tag) == k
}

fn has_effective(es: &Vec<EffectiveTag>, t: &Tag) -> (r: bool)
    ensures
        r == lists_effective(es@, key_of(*t)),
{
    let mut i: usize = 0;
    while i < es.len()
        invariant
            i <= es.len(),
            forall|j: int| 0 <= j < i ==> key_of(#[trigger] es@[j].tag) != key_of(*t),
        decreases es.len() - i,
    {
        if same_key(&es[i].tag, t) {
            return true;
        }
        i = i + 1;
    }
    false
}

/// Whether some tag of `s` has the key of `t`.
fn has_key(s: &Vec<Tag>, t: &Tag) -> (r: bool)
    ensures
        r == lists_key(s@, key_of(*t)),
{
    let mut i: usize = 0;
    while i < s.len()
        invariant
            i <= s.len(),
            forall|j: int| 0 <= j < i ==> key_of(#[trigger] s@[j]) != key_of(*t),
        decreases s.len() - i,
    {
        if same_key(&s[i], t) {
            return true;
        }
        i = i + 1;
    }
    false
}

/// One effective tag per key, in first-seen order.
#[verifier::rlimit(40)]
fn collect_effective(auto: &Vec<Tag>, manual: &TrackManualState) -> (r: Vec<EffectiveTag>)
    ensures
        forall|k: int| 0 <= k < r.len() ==> effective_for(#[trigger] r@[k], auto@, *manual, key_of(r@[k].tag)),
        forall|a: int, b: int| 0 <= a < b < r.len() ==> key_of(#[trigger] r@[a].tag) != key_of(#[trigger] r@[b].tag),
        forall|k: (TagKind, Seq<char>)|
            auto_live(auto@, *manual, k) || lists_key(manual.manual_additions@, k) ==> #[trigger] lists_effective(r@, k),
{
    let mut out: Vec<EffectiveTag> = Vec::new();
    let mut i: usize = 0;
    while i < auto.len()
        invariant
            i <= auto.len(),
            forall|k: int| 0 <= k < out.len() ==> effective_for(#[trigger] out@[k], auto@, *manual, key_of(out@[k].tag)),
            forall|a: int, b: int| 0 <= a < b < out.len() ==> key_of(#[trigger] out@[a].tag) != key_of(#[trigger] out@[b].tag),
            forall|j: int| 0 <= j < i && auto_live(auto@, *manual, key_of(auto@[j])) ==> #[trigger] lists_effective(out@, key_of(auto@[j])),
        decreases auto.len() - i,
    {
        let ghost old_out = out@;
        let live = !has_key(&manual.suppressed_auto_tags, &auto[i]);
        proof {
            assert(lists_key(auto@, key_of(auto@[i as int])));
        }
        if live && !has_effective(&out, &auto[i]) {
            let e = build_effective(auto, manual, &auto[i]);
            out.push(e);
            proof {
                assert forall|k: int| 0 <= k < out.len() implies effective_for(#[trigger] out@[k], auto@, *manual, key_of(out@[k].tag)) by {
                    if k < old_out.len() {
                        assert(out@[k] == old_out[k]);
                    }
                }
                assert forall|a: int, b: int| 0 <= a < b < out.len() implies key_of(#[trigger] out@[a].tag) != key_of(#[trigger] out@[b].tag) by {
                    assert(out@[a] == old_out[a]);
                    if b < old_out.len() {
                        assert(out@[b] == old_out[b]);
                    }
                }
                assert forall|j: int| 0 <= j < i + 1 && auto_live(auto@, *manual, key_of(auto@[j])) implies #[trigger] lists_effective(out@, key_of(auto@[j])) by {
                    if j < i {
                        assert(lists_effective(old_out, key_of(auto@[j])));
                        let k = choose|k: int| 0 <= k < old_out.len() && key_of(#[trigger] old_out[k].tag) == key_of(auto@[j]);
                        assert(out@[k] == old_out[k]);
                    } else {
                        assert(key_of(out@[old_out.len() as int].tag) == key_of(auto@[j]));
                    }
                }
            }
        }
        i = i + 1;
    }
    let ms = &manual.manual_additions;
    let mut j: usize = 0;
    while j < ms.len()
        invariant
            j <= ms.len(),
            ms@ == manual.manual_additions@,
            forall|k: int| 0 <= k < out.len() ==> effective_for(#[trigger] out@[k], auto@, *manual, key_of(out@[k].tag)),
            forall|a: int, b: int| 0 <= a < b < out.len() ==> key_of(#[trigger] out@[a].tag) != key_of(#[trigger] out@[b].tag),
            forall|q: int| 0 <= q < auto.len() && auto_live(auto@, *manual, key_of(auto@[q])) ==> #[trigger] lists_effective(out@, key_of(auto@[q])),
            forall|q: int| 0 <= q < j ==> #[trigger] lists_effective(out@, key_of(ms@[q])),
        decreases ms.len() - j,
    {
        let ghost old_out = out@;
        proof {
            assert(lists_key(ms@, key_of(ms@[j as int])));
        }
        if !has_effective(&out, &ms[j]) {
            let e = build_effective(auto, manual, &ms[j]);
            out.push(e);
            proof {
                assert forall|k: int| 0 <= k < out.len() implies effective_for(#[trigger] out@[k], auto@, *manual, key_of(out@[k].tag)) by {
                    if k < old_out.len() {
                        assert(out@[k] == old_out[k]);
                    }
                }
                assert forall|a: int, b: int| 0 <= a < b < out.len() implies key_of(#[trigger] out@[a].tag) != key_of(#[trigger] out@[b].tag) by {
                    assert(out@[a] == old_out[a]);
                    if b < old_out.len() {
                        assert(out@[b] == old_out[b]);
                    }
                }
                assert forall|q: int| 0 <= q < auto.len() && auto_live(auto@, *manual, key_of(auto@[q])) implies #[trigger] lists_effective(out@, key_of(auto@[q])) by {
                    assert(lists_effective(old_out, key_of(auto@[q])));
                    let k = choose|k: int| 0 <= k < old_out.len() && key_of(#[trigger] old_out[k].tag) == key_of(auto@[q]);
                    assert(out@[k] == old_out[k]);
                }
                assert forall|q: int| 0 <= q < j + 1 implies #[trigger] lists_effective(out@, key_of(ms@[q])) by {
                    if q < j {
                        assert(lists_effective(old_out, key_of(ms@[q])));
                        let k = choose|k: int| 0 <= k < old_out.len() && key_of(#[trigger] old_out[k].tag) == key_of(ms@[q]);
                        assert(out@[k] == old_out[k]);
                    } else {
                        assert(key_of(out@[old_out.len() as int].tag) == key_of(ms@[q]));
                    }
                }
            }
        }
        j = j + 1;
    }
    proof {
        assert forall|k: (TagKind, Seq<char>)|
            auto_live(auto@, *manual, k) || lists_key(manual.manual_additions@, k) implies #[trigger] lists_effective(out@, k) by {
            if lists_key(manual.manual_additions@, k) {
                let q = choose|q: int| 0 <= q < ms@.len() && key_of(#[trigger] ms@[q]) == k;
                assert(lists_effective(out@, key_of(ms@[q])));
            } else {
                let q = choose|q: int| 0 <= q < auto@.len() && key_of(#[trigger] auto@[q]) == k;
                assert(lists_effective(out@, key_of(auto@[q])));
            }
        }
    }
    out
}

pub open spec fn effective_before(a: EffectiveTag, b: EffectiveTag) -> bool {
    key_before(key_of(a.tag), key_of(b.tag))
}

pub open spec fn effective_sorted(s: Seq<EffectiveTag>) -> bool {
    forall|i: int, j: int| 0 <= i < j < s.len() ==> !effective_before(#[trigger] s[j], #[trigger] s[i])
}

proof fn lemma_effective_before_order(a: EffectiveTag, b: EffectiveTag, c: EffectiveTag)
    ensures
        effective_before(a, b) ==> !effective_before(b, a),
        effective_before(a, b) && effective_before(b, c) ==> effective_before(a, c),
{
    let (ka, kb, kc) = (key_of(a.tag).1, key_of(b.tag).1, key_of(c.tag).1);
    if lex_lt(ka, kb) {
        lemma_lex_lt_asymmetric(ka, kb);
    }
    if lex_lt(ka, kb) && lex_lt(kb, kc) {
        lemma_lex_lt_transitive(ka, kb, kc);
    }
}

fn effective_goes_before(a: &EffectiveTag, b: &EffectiveTag) -> (r: bool)
    ensures
        r == effective_before(*a, *b),
{
    let ka = a.tag.key();
    let kb = b.tag.key();
    let ra: u8 = match ka.kind {
        TagKind::Genre => 0,
        TagKind::Custom => 1,
    };
    let rb: u8 = match kb.kind {
        TagKind::Genre => 0,
        TagKind::Custom => 1,
    };
    if ra != rb {
        ra < rb
    } else {
        lex_lt_exec(ka.value.as_str(), kb.value.as_str())
    }
}

proof fn lemma_effective_insert_sorted(out: Seq<EffectiveTag>, p: int, x: EffectiveTag)
    requires
        effective_sorted(out),
        0 <= p <= out.len(),
        forall|q: int| 0 <= q < p ==> !effective_before(x, #[trigger] out[q]),
        p < out.len() ==> effective_before(x, out[p]),
    ensures
        effective_sorted(out.insert(p, x)),
{
    let n = out.insert(p, x);
    assert forall|i: int, j: int| 0 <= i < j < n.len() implies !effective_before(#[trigger] n[j], #[trigger] n[i]) by {
        if j < p {
            assert(n[i] == out[i] && n[j] == out[j]);
        } else if j == p {
            assert(n[i] == out[i]);
        } else if i < p {
            assert(n[i] == out[i] && n[j] == out[j - 1]);
        } else if i == p {
            assert(n[j] == out[j - 1]);
            lemma_effective_before_order(x, out[p], x);
            if j - 1 > p {
                lemma_effective_before_order(out[j - 1], x, out[p]);
            }
        } else {
            assert(n[i] == out[i - 1] && n[j] == out[j - 1]);
        }
    }
}

fn sort_effective(v: Vec<EffectiveTag>) -> (r: (Vec<EffectiveTag>, Ghost<Seq<int>>))
    ensures
        r.0.len() == v.len(),
        effective_sorted(r.0@),
        r.1@.len() == v.len(),
        forall|k: int| 0 <= k < v.len() ==> 0 <= #[trigger] r.1@[k] < v.len() && r.0@[k] == v@[r.1@[k]],
        forall|a: int, b: int| 0 <= a < b < v.len() ==> #[trigger] r.1@[a] != #[trigger] r.1@[b],
        forall|j: int| 0 <= j < v.len() ==> #[trigger] covers(r.1@, j),
{
    let ghost v0 = v@;
    let mut v = v;
    let mut out: Vec<EffectiveTag> = Vec::new();
    let ghost mut perm: Seq<int> = seq![];
    while v.len() > 0
        invariant
            v@ == v0.take(v.len() as int),
            out.len() + v.len() == v0.len(),
            perm.len() == out.len(),
            effective_sorted(out@),
            forall|k: int| 0 <= k < out.len() ==> v.len() <= #[trigger] perm[k] < v0.len() && out@[k] == v0[perm[k]],
            forall|a: int, b: int| 0 <= a < b < perm.len() ==> #[trigger] perm[a] != #[trigger] perm[b],
            forall|j: int| v.len() <= j < v0.len() ==> #[trigger] covers(perm, j),
        decreases v.len(),
    {
        let x = v.pop().unwrap();
        let ghost xi = v.len() as int;
        assert(x == v0[xi]);
        let mut p: usize = 0;
        while p < out.len()
            invariant
                p <= out.len(),
                forall|q: int| 0 <= q < p ==> !effective_before(x, #[trigger] out@[q]),
            ensures
                p <= out.len(),
                forall|q: int| 0 <= q < p ==> !effective_before(x, #[trigger] out@[q]),
                p < out.len() ==> effective_before(x, out@[p as int]),
            decreases out.len() - p,
        {
            if effective_goes_before(&x, &out[p]) {
                break;
            }
            p = p + 1;
        }
        proof {
            lemma_effective_insert_sorted(out@, p as int, x);
            lemma_selection_insert(out@, perm, v0, p as int, x, xi);
            perm = perm.insert(p as int, xi);
        }
        out.insert(p, x);
    }
    (out, Ghost(perm))
}

/// The effective tags of a track: its embedded tags minus those whose key
/// the listener suppressed, merged by key with its manual additions, one
/// per key, in key order.
/// What [`effective_tags`] promises of its list: one entry per key that a
/// manual tag lists or a surviving embedded tag carries, the effective one,
/// in key order.
pub open spec fn effective_list(r: Seq<EffectiveTag>, auto: Seq<Tag>, manual: TrackManualState) -> bool {
    &&& forall|k: int| 0 <= k < r.len() ==> effective_for(#[trigger] r[k], auto, manual, key_of(r[k].tag))
    &&& forall|a: int, b: int| 0 <= a < b < r.len() ==> key_of(#[trigger] r[a].tag) != key_of(#[trigger] r[b].tag)
    &&& effective_sorted(r)
    &&& forall|k: (TagKind, Seq<char>)|
        auto_live(auto, manual, k) || lists_key(manual.manual_additions@, k) ==> #[trigger] lists_effective(r, k)
}

pub fn effective_tags(auto: &[Tag], manual: &TrackManualState) -> (r: Vec<EffectiveTag>)
    ensures
        effective_list(r@, auto@, *manual),
        forall|k: int| 0 <= k < r.len() ==> effective_for(#[trigger] r@[k], auto@, *manual, key_of(r@[k].tag)),
        forall|a: int, b: int| 0 <= a < b < r.len() ==> key_of(#[trigger] r@[a].tag) != key_of(#[trigger] r@[b].tag),
        effective_sorted(r@),
        forall|k: (TagKind, Seq<char>)|
            auto_live(auto@, *manual, k) || lists_key(manual.manual_additions@, k) ==> #[trigger] lists_effective(r@, k),
{
    let mut auto_v: Vec<Tag> = Vec::new();
    let mut i: usize = 0;
    while i < auto.len()
        invariant
            i <= auto.len(),
            auto_v@ == auto@.take(i as int),
        decreases auto.len() - i,
    {
        auto_v.push(auto[i].duplicate());
        i = i + 1;
        assert(auto_v@ =~= auto@.take(i as int));
    }
    assert(auto@.take(auto.len() as int) =~= auto@);
    let u = collect_effective(&auto_v, manual);
    let ghost u0 = u@;
    let (sorted, perm) = sort_effective(u);
    let ghost perm = perm@;
    proof {
        assert forall|k: int| 0 <= k < sorted.len() implies effective_for(#[trigger] sorted@[k], auto@, *manual, key_of(sorted@[k].tag)) by {
            assert(sorted@[k] == u0[perm[k]]);
        }
        assert forall|a: int, b: int| 0 <= a < b < sorted.len() implies key_of(#[trigger] sorted@[a].tag) != key_of(#[trigger] sorted@[b].tag) by {
            assert(sorted@[a] == u0[perm[a]]);
            assert(sorted@[b] == u0[perm[b]]);
            if perm[a] < perm[b] {
                assert(key_of(u0[perm[a]].tag) != key_of(u0[perm[b]].tag));
            } else {
                assert(key_of(u0[perm[b]].tag) != key_of(u0[perm[a]].tag));
            }
        }
        assert forall|k: (TagKind, Seq<char>)|
            auto_live(auto@, *manual, k) || lists_key(manual.manual_additions@, k) implies #[trigger] lists_effective(sorted@, k) by {
            assert(lists_effective(u0, k));
            let k0 = choose|q: int| 0 <= q < u0.len() && key_of(#[trigger] u0[q].tag) == k;
            assert(covers(perm, k0));
            let q = choose|q: int| 0 <= q < perm.len() && #[trigger] perm[q] == k0;
            assert(key_of(sorted@[q].tag) == k);
        }
    }
    sorted
}

/// `r` is the canonical form of `s`: one tag per key, the last `s` has for
/// it, in key order.
pub open spec fn canonical_of(r: Seq<Tag>, s: Seq<Tag>) -> bool {
    &&& forall|i: int| 0 <= i < r.len() ==> lists_key(s, key_of(#[trigger] r[i])) && r[i] == s[last_with_key(s, key_of(r[i]))]
    &&& forall|k: (TagKind, Seq<char>)| lists_key(s, k) ==> #[trigger] lists_key(r, k)
    &&& forall|a: int, b: int| 0 <= a < b < r.len() ==> key_of(#[trigger] r[a]) != key_of(#[trigger] r[b])
    &&& forall|a: int, b: int| 0 <= a < b < r.len() ==> !key_before(key_of(#[trigger] r[b]), key_of(#[trigger] r[a]))
}

/// No two tags of `s` share a key.
pub open spec fn distinct_keys(s: Seq<Tag>) -> bool {
    forall|a: int, b: int| 0 <= a < b < s.len() ==> key_of(#[trigger] s[a]) != key_of(#[trigger] s[b])
}

pub fn copy_tags(s: &Vec<Tag>) -> (r: Vec<Tag>)
    ensures
        r@ == s@,
{
    let mut out: Vec<Tag> = Vec::new();
    let mut i: usize = 0;
    while i < s.len()
        invariant
            i <= s.len(),
            out@ == s@.take(i as int),
        decreases s.len() - i,
    {
        out.push(s[i].duplicate());
        i = i + 1;
        assert(out@ =~= s@.take(i as int));
    }
    assert(s@.take(s.len() as int) =~= s@);
    out
}

/// One tag per key, the last given for it, in key order.
pub fn canonicalize(tags: Vec<Tag>) -> (r: Vec<Tag>)
    ensures
        canonical_of(r@, tags@),
{
    let ghost s = tags@;
    let state = TrackManualState { year: YearState::Auto, manual_additions: tags, suppressed_auto_tags: Vec::new() };
    let es = effective_tags(&[], &state);
    let mut out: Vec<Tag> = Vec::new();
    let mut i: usize = 0;
    while i < es.len()
        invariant
            i <= es.len(),
            out.len() == i,
            forall|k: int| 0 <= k < i ==> #[trigger] out@[k] == es@[k].tag,
        decreases es.len() - i,
    {
        out.push(es[i].tag.duplicate());
        i = i + 1;
    }
    proof {
        let e: Seq<Tag> = seq![];
        assert forall|k: (TagKind, Seq<char>)| !auto_live(e, state, k) by {}
        assert forall|i: int| 0 <= i < out.len() implies lists_key(s, key_of(#[trigger] out@[i])) && out@[i]
            == s[last_with_key(s, key_of(out@[i]))] by {
            assert(out@[i] == es@[i].tag);
            assert(effective_for(es@[i], e, state, key_of(es@[i].tag)));
        }
        assert forall|k: (TagKind, Seq<char>)| lists_key(s, k) implies #[trigger] lists_key(out@, k) by {
            assert(lists_effective(es@, k));
            let q = choose|q: int| 0 <= q < es@.len() && key_of(#[trigger] es@[q].tag) == k;
            assert(out@[q] == es@[q].tag);
        }
        assert forall|a: int, b: int| 0 <= a < b < out.len() implies key_of(#[trigger] out@[a]) != key_of(#[trigger] out@[b]) by {
            assert(out@[a] == es@[a].tag && out@[b] == es@[b].tag);
        }
        assert forall|a: int, b: int| 0 <= a < b < out.len() implies !key_before(key_of(#[trigger] out@[b]), key_of(#[trigger] out@[a])) by {
            assert(out@[a] == es@[a].tag && out@[b] == es@[b].tag);
            assert(!effective_before(es@[b], es@[a]));
        }
    }
    out
}

/// The tags of `s` whose keys neither `a` nor `b` list, in order.
fn keep_tags(s: &Vec<Tag>, a: &Vec<Tag>, b: &Vec<Tag>) -> (r: Vec<Tag>)
    ensures
        forall|i: int| 0 <= i < r.len() ==> !lists_key(a@, key_of(#[trigger] r@[i])) && !lists_key(b@, key_of(r@[i]))
            && lists_key(s@, key_of(r@[i])),
        forall|k: (TagKind, Seq<char>)| #[trigger] lists_key(r@, k) <==> (lists_key(s@, k) && !lists_key(a@, k)
            && !lists_key(b@, k)),
        distinct_keys(s@) ==> distinct_keys(r@),
        distinct_keys(s@) ==> forall|i: int| 0 <= i < r.len() ==> #[trigger] r@[i] == s@[last_with_key(s@, key_of(r@[i]))],
{
    let mut out: Vec<Tag> = Vec::new();
    let ghost mut w: Seq<int> = seq![];
    let mut i: usize = 0;
    while i < s.len()
        invariant
            i <= s.len(),
            w.len() == out.len(),
            forall|x: int| 0 <= x < out.len() ==> 0 <= #[trigger] w[x] < i && out@[x] == s@[w[x]],
            forall|x: int, y: int| 0 <= x < y < out.len() ==> #[trigger] w[x] < #[trigger] w[y],
            forall|x: int| 0 <= x < out.len() ==> !lists_key(a@, key_of(#[trigger] out@[x])) && !lists_key(b@, key_of(out@[x])),
            forall|j: int| 0 <= j < i && !lists_key(a@, key_of(s@[j])) && !lists_key(b@, key_of(s@[j])) ==> #[trigger] lists_key(out@, key_of(s@[j])),
        decreases s.len() - i,
    {
        let ghost before = out@;
        if !has_key(a, &s[i]) && !has_key(b, &s[i]) {
            out.push(s[i].duplicate());
            proof {
                w = w.push(i as int);
                assert forall|j: int| 0 <= j < i + 1 && !lists_key(a@, key_of(s@[j])) && !lists_key(b@, key_of(s@[j])) implies #[trigger] lists_key(out@, key_of(s@[j])) by {
                    if j < i {
                        assert(lists_key(before, key_of(s@[j])));
                        let x = choose|x: int| 0 <= x < before.len() && key_of(#[trigger] before[x]) == key_of(s@[j]);
                        assert(out@[x] == before[x]);
                    } else {
                        assert(out@[before.len() as int] == s@[j]);
                    }
                }
            }
        }
        i = i + 1;
    }
    proof {
        assert forall|x: int| 0 <= x < out.len() implies lists_key(s@, key_of(#[trigger] out@[x])) by {
            assert(out@[x] == s@[w[x]]);
        }
        assert forall|k: (TagKind, Seq<char>)| #[trigger] lists_key(out@, k) <==> (lists_key(s@, k) && !lists_key(a@, k) && !lists_key(b@, k)) by {
            if lists_key(out@, k) {
                let x = choose|x: int| 0 <= x < out.len() && key_of(#[trigger] out@[x]) == k;
                assert(out@[x] == s@[w[x]]);
            }
            if lists_key(s@, k) && !lists_key(a@, k) && !lists_key(b@, k) {
                let j = choose|j: int| 0 <= j < s@.len() && key_of(#[trigger] s@[j]) == k;
                assert(lists_key(out@, key_of(s@[j])));
            }
        }
        if distinct_keys(s@) {
            assert forall|x: int, y: int| 0 <= x < y < out.len() implies key_of(#[trigger] out@[x]) != key_of(#[trigger] out@[y]) by {
                assert(out@[x] == s@[w[x]] && out@[y] == s@[w[y]]);
                assert(w[x] < w[y]);
            }
            assert forall|x: int| 0 <= x < out.len() implies #[trigger] out@[x] == s@[last_with_key(s@, key_of(out@[x]))] by {
                lemma_last_distinct(s@, w[x]);
            }
        }
    }
    out
}

/// In a sequence with distinct keys, the last tag with a key is its only one.
proof fn lemma_last_distinct(s: Seq<Tag>, i: int)
    requires
        distinct_keys(s),
        0 <= i < s.len(),
    ensures
        last_with_key(s, key_of(s[i])) == i,
{
    lemma_last_with_key(s, key_of(s[i]));
    assert(lists_key(s, key_of(s[i])));
    let j = last_with_key(s, key_of(s[i]));
    if j != i {
        if j < i {
            assert(key_of(s[j]) != key_of(s[i]));
        } else {
            assert(key_of(s[i]) != key_of(s[j]));
        }
    }
}

/// The last tag with a key in `a + b` is `b`'s when `b` has one, else `a`'s.
proof fn lemma_last_concat(a: Seq<Tag>, b: Seq<Tag>, k: (TagKind, Seq<char>))
    ensures
        last_with_key(a + b, k) == if lists_key(b, k) {
            a.len() + last_with_key(b, k)
        } else {
            last_with_key(a, k)
        },
    decreases b.len(),
{
    lemma_last_with_key(b, k);
    if b.len() == 0 {
        assert(a + b =~= a);
    } else {
        assert((a + b).drop_last() =~= a + b.drop_last());
        lemma_last_concat(a, b.drop_last(), k);
        lemma_last_with_key(b.drop_last(), k);
        if key_of(b.last()) != k {
            if lists_key(b, k) {
                let j = choose|j: int| 0 <= j < b.len() && key_of(#[trigger] b[j]) == k;
                assert(b.drop_last()[j] == b[j]);
            }
            if lists_key(b.drop_last(), k) {
                let j = choose|j: int| 0 <= j < b.drop_last().len() && key_of(#[trigger] b.drop_last()[j]) == k;
                assert(b.drop_last()[j] == b[j]);
            }
        }
    }
}

/// `t` is `s[j]`, and no earlier tag of `s` has its key.
pub open spec fn is_first_at(s: Seq<Tag>, j: int, t: Tag) -> bool {
    0 <= j < s.len() && s[j] == t && forall|j2: int| 0 <= j2 < j ==> key_of(#[trigger] s[j2]) != key_of(t)
}

/// `t` is the first tag of its key among the first `n` of `s`.
pub open spec fn first_within(s: Seq<Tag>, n: int, t: Tag) -> bool {
    exists|j: int| 0 <= j < n && #[trigger] is_first_at(s, j, t)
}

/// `s` with only the first tag of each key.
fn first_per_key(s: &Vec<Tag>) -> (r: Vec<Tag>)
    ensures
        distinct_keys(r@),
        forall|k: (TagKind, Seq<char>)| #[trigger] lists_key(r@, k) <==> lists_key(s@, k),
        forall|i: int| 0 <= i < r.len() ==> first_within(s@, s.len() as int, #[trigger] r@[i]),
{
    let mut out: Vec<Tag> = Vec::new();
    let mut i: usize = 0;
    while i < s.len()
        invariant
            i <= s.len(),
            distinct_keys(out@),
            forall|k: (TagKind, Seq<char>)| #[trigger] lists_key(out@, k) <==> lists_key(s@.take(i as int), k),
            forall|x: int| 0 <= x < out.len() ==> first_within(s@, i as int, #[trigger] out@[x]),
        decreases s.len() - i,
    {
        let ghost before = out@;
        let ghost pre = s@.take(i as int);
        let ghost next = s@.take(i as int + 1);
        proof {
            assert forall|k: (TagKind, Seq<char>)| lists_key(next, k) <==> (lists_key(pre, k) || key_of(s@[i as int]) == k) by {
                if lists_key(next, k) {
                    let j = choose|j: int| 0 <= j < next.len() && key_of(#[trigger] next[j]) == k;
                    if j < i {
                        assert(pre[j] == next[j]);
                    }
                }
                if lists_key(pre, k) {
                    let j = choose|j: int| 0 <= j < pre.len() && key_of(#[trigger] pre[j]) == k;
                    assert(pre[j] == next[j]);
                }
                if key_of(s@[i as int]) == k {
                    assert(next[i as int] == s@[i as int]);
                }
            }
        }
        if !has_key(&out, &s[i]) {
            out.push(s[i].duplicate());
            proof {
                assert forall|k: (TagKind, Seq<char>)| #[trigger] lists_key(out@, k) <==> lists_key(next, k) by {
                    if lists_key(out@, k) {
                        let x = choose|x: int| 0 <= x < out@.len() && key_of(#[trigger] out@[x]) == k;
                        if x < before.len() {
                            assert(before[x] == out@[x]);
                        }
                    }
                    if lists_key(before, k) {
                        let x = choose|x: int| 0 <= x < before.len() && key_of(#[trigger] before[x]) == k;
                        assert(before[x] == out@[x]);
                    }
                    if key_of(s@[i as int]) == k {
                        assert(out@[before.len() as int] == s@[i as int]);
                    }
                }
                assert forall|x: int, y: int| 0 <= x < y < out.len() implies key_of(#[trigger] out@[x]) != key_of(#[trigger] out@[y]) by {
                    assert(out@[x] == before[x]);
                    if y < before.len() {
                        assert(out@[y] == before[y]);
                    } else {
                        assert(lists_key(before, key_of(before[x])));
                    }
                }
                assert forall|x: int| 0 <= x < out.len() implies first_within(s@, i + 1, #[trigger] out@[x]) by {
                    if x < before.len() {
                        assert(out@[x] == before[x]);
                        assert(first_within(s@, i as int, before[x]));
                        let j = choose|j: int| 0 <= j < i && #[trigger] is_first_at(s@, j, before[x]);
                        assert(is_first_at(s@, j, out@[x]));
                    } else {
                        assert(out@[x] == s@[i as int]);
                        assert forall|j2: int| 0 <= j2 < i implies key_of(#[trigger] s@[j2]) != key_of(out@[x]) by {
                            assert(pre[j2] == s@[j2]);
                            if key_of(s@[j2]) == key_of(out@[x]) {
                                assert(lists_key(pre, key_of(s@[i as int])));
                            }
                        }
                        assert(is_first_at(s@, i as int, out@[x]));
                    }
                }
            }
        } else {
            proof {
                assert forall|k: (TagKind, Seq<char>)| #[trigger] lists_key(out@, k) <==> lists_key(next, k) by {}
                assert forall|x: int| 0 <= x < out.len() implies first_within(s@, i + 1, #[trigger] out@[x]) by {
                    let j = choose|j: int| 0 <= j < i && #[trigger] is_first_at(s@, j, out@[x]);
                }
            }
        }
        i = i + 1;
    }
    assert(s@.take(s.len() as int) =~= s@);
    out
}

/// A batch edit of manual tag state. `year_change: None` leaves the year alone.
#[derive(Debug, PartialEq, Eq)]
pub struct TrackTagPatch {
    pub year_change: Option<YearState>,
    pub add: Vec<Tag>,
    pub remove: Vec<Tag>,
}

#[derive(Clone, Copy, Debug, PartialEq, Eq, Structural)]
pub enum LoadState {
    Missing,
    Ready,
    Corrupt,
    UnsupportedSchema,
    IoError,
}

#[derive(Debug, PartialEq, Eq)]
pub enum StoreError {
    ReadOnly(LoadState),
    Conflict,
    Busy,
    InvalidPatch,
    Io(String),
}

/// A tag already in the form `Tag::new` gives its own value.
pub open spec fn normal_tag(t: Tag) -> bool {
    let v = tag_value(t.value@);
    v.len() > 0 && !has_control(v) && v.len() <= MAX_SCALARS && v == t.value@
}

/// A patch the store accepts: a manual year in `1000..=9999`, tags in
/// normal form, and no key both added and removed.
pub open spec fn patch_valid(p: TrackTagPatch) -> bool {
    &&& match p.year_change {
        Some(YearState::SetTo { value }) => 1000 <= value <= 9999,
        _ => true,
    }
    &&& forall|i: int| 0 <= i < p.add@.len() ==> normal_tag(#[trigger] p.add@[i])
    &&& forall|i: int| 0 <= i < p.remove@.len() ==> normal_tag(#[trigger] p.remove@[i])
    &&& forall|i: int| 0 <= i < p.add@.len() ==> !lists_key(p.remove@, key_of(#[trigger] p.add@[i]))
}

fn is_normal(t: &Tag) -> (r: bool)
    ensures
        r == normal_tag(*t),
{
    match Tag::new(t.kind, t.value.as_str()) {
        Ok(n) => n.value == t.value,
        Err(_) => false,
    }
}

fn all_normal(s: &Vec<Tag>) -> (r: bool)
    ensures
        r == forall|i: int| 0 <= i < s@.len() ==> normal_tag(#[trigger] s@[i]),
{
    let mut i: usize = 0;
    while i < s.len()
        invariant
            i <= s.len(),
            forall|j: int| 0 <= j < i ==> normal_tag(#[trigger] s@[j]),
        decreases s.len() - i,
    {
        if !is_normal(&s[i]) {
            return false;
        }
        i = i + 1;
    }
    true
}

/// `Ok` exactly for a patch the store accepts.
pub fn validate_patch(patch: &TrackTagPatch) -> (r: Result<(), StoreError>)
    ensures
        r is Ok <==> patch_valid(*patch),
        r is Err ==> r == Err::<(), StoreError>(StoreError::InvalidPatch),
{
    match patch.year_change {
        Some(YearState::SetTo { value }) => {
            if value < 1000 || value > 9999 {
                return Err(StoreError::InvalidPatch);
            }
        },
        _ => {},
    }
    let mut i: usize = 0;
    while i < patch.add.len()
        invariant
            i <= patch.add.len(),
            forall|j: int| 0 <= j < i ==> !lists_key(patch.remove@, key_of(#[trigger] patch.add@[j])),
        decreases patch.add.len() - i,
    {
        if has_key(&patch.remove, &patch.add[i]) {
            return Err(StoreError::InvalidPatch);
        }
        i = i + 1;
    }
    if !all_normal(&patch.add) || !all_normal(&patch.remove) {
        return Err(StoreError::InvalidPatch);
    }
    Ok(())
}

/// The manual additions after a patch: each added key with its last added
/// tag, and each kept key not removed with its tag, in key order.
pub open spec fn additions_after(n: Seq<Tag>, a0: Seq<Tag>, remove: Seq<Tag>, add: Seq<Tag>) -> bool {
    &&& forall|i: int| 0 <= i < n.len() ==> {
        let k = key_of(#[trigger] n[i]);
        if lists_key(add, k) {
            n[i] == add[last_with_key(add, k)]
        } else {
            lists_key(a0, k) && !lists_key(remove, k) && n[i] == a0[last_with_key(a0, k)]
        }
    }
    &&& forall|k: (TagKind, Seq<char>)| lists_key(add, k) || (lists_key(a0, k) && !lists_key(remove, k)) ==> #[trigger] lists_key(n, k)
    &&& distinct_keys(n)
    &&& forall|a: int, b: int| 0 <= a < b < n.len() ==> !key_before(key_of(#[trigger] n[b]), key_of(#[trigger] n[a]))
}

/// The suppressed embedded tags after a patch: each key kept or newly
/// removed, unless added back; a kept key keeps its tag, a new one takes the
/// first removed tag of its key; in key order.
pub open spec fn suppressed_after(n: Seq<Tag>, s0: Seq<Tag>, remove: Seq<Tag>, add: Seq<Tag>) -> bool {
    &&& forall|i: int| 0 <= i < n.len() ==> {
        let k = key_of(#[trigger] n[i]);
        &&& !lists_key(add, k)
        &&& if lists_key(s0, k) {
            n[i] == s0[last_with_key(s0, k)]
        } else {
            first_within(remove, remove.len() as int, n[i])
        }
    }
    &&& forall|k: (TagKind, Seq<char>)| (lists_key(s0, k) || lists_key(remove, k)) && !lists_key(add, k) ==> #[trigger] lists_key(n, k)
    &&& distinct_keys(n)
    &&& forall|a: int, b: int| 0 <= a < b < n.len() ==> !key_before(key_of(#[trigger] n[b]), key_of(#[trigger] n[a]))
}

fn append_tags(a: Vec<Tag>, b: &Vec<Tag>) -> (r: Vec<Tag>)
    ensures
        r@ == a@ + b@,
{
    let mut out = a;
    let mut c = copy_tags(b);
    out.append(&mut c);
    out
}

/// One record after a patch. Records keep one tag per key, so the result is
/// exact; more than [`MAX_TAGS`] manual additions are refused.
pub fn apply_one(record: &TrackManualState, patch: &TrackTagPatch) -> (r: Result<TrackManualState, StoreError>)
    requires
        distinct_keys(record.manual_additions@),
        distinct_keys(record.suppressed_auto_tags@),
    ensures
        match r {
            Ok(n) => {
                &&& n.year == match patch.year_change {
                    Some(y) => y,
                    None => record.year,
                }
                &&& additions_after(n.manual_additions@, record.manual_additions@, patch.remove@, patch.add@)
                &&& suppressed_after(n.suppressed_auto_tags@, record.suppressed_auto_tags@, patch.remove@, patch.add@)
                &&& n.manual_additions@.len() <= MAX_TAGS
            },
            Err(e) => e == StoreError::InvalidPatch && exists|n: Seq<Tag>|
                additions_after(n, record.manual_additions@, patch.remove@, patch.add@) && n.len() > MAX_TAGS,
        },
{
    let year = match patch.year_change {
        Some(y) => y,
        None => record.year,
    };
    let ghost a0 = record.manual_additions@;
    let ghost s0 = record.suppressed_auto_tags@;
    let ghost rm = patch.remove@;
    let ghost ad = patch.add@;
    let kept = keep_tags(&record.manual_additions, &patch.remove, &patch.add);
    let ghost kv = kept@;
    let merged = append_tags(kept, &patch.add);
    let additions = canonicalize(merged);
    proof {
        assert forall|i: int| 0 <= i < additions@.len() implies {
            let k = key_of(#[trigger] additions@[i]);
            if lists_key(ad, k) {
                additions@[i] == ad[last_with_key(ad, k)]
            } else {
                lists_key(a0, k) && !lists_key(rm, k) && additions@[i] == a0[last_with_key(a0, k)]
            }
        } by {
            let k = key_of(additions@[i]);
            assert(merged@ =~= kv + ad);
            lemma_last_concat(kv, ad, k);
            lemma_last_with_key(ad, k);
            if !lists_key(ad, k) {
                lemma_last_with_key(kv, k);
                let j = last_with_key(kv, k);
                assert(kv[j] == merged@[j]);
            }
        }
        assert forall|k: (TagKind, Seq<char>)| lists_key(ad, k) || (lists_key(a0, k) && !lists_key(rm, k)) implies #[trigger] lists_key(additions@, k) by {
            assert(merged@ =~= kv + ad);
            if lists_key(ad, k) {
                let j = choose|j: int| 0 <= j < ad.len() && key_of(#[trigger] ad[j]) == k;
                assert(merged@[kv.len() + j] == ad[j]);
                assert(lists_key(merged@, k));
            } else {
                assert(lists_key(kv, k));
                let j = choose|j: int| 0 <= j < kv.len() && key_of(#[trigger] kv[j]) == k;
                assert(merged@[j] == kv[j]);
                assert(lists_key(merged@, k));
            }
        }
    }
    assert(additions_after(additions@, a0, rm, ad));
    if additions.len() > MAX_TAGS {
        assert(exists|n: Seq<Tag>| additions_after(n, a0, rm, ad) && n.len() > MAX_TAGS) by {
            assert(additions_after(additions@, a0, rm, ad) && additions@.len() > MAX_TAGS);
        }
        return Err(StoreError::InvalidPatch);
    }
    let firsts = first_per_key(&patch.remove);
    let fresh = keep_tags(&firsts, &record.suppressed_auto_tags, &patch.add);
    let old_kept = keep_tags(&record.suppressed_auto_tags, &patch.add, &patch.add);
    let ghost fv = fresh@;
    let s_merged = append_tags(fresh, &old_kept);
    let suppressed = canonicalize(s_merged);
    proof {
        assert(s_merged@ =~= fv + old_kept@);
        assert forall|i: int| 0 <= i < suppressed@.len() implies {
            let k = key_of(#[trigger] suppressed@[i]);
            &&& !lists_key(ad, k)
            &&& if lists_key(s0, k) {
                suppressed@[i] == s0[last_with_key(s0, k)]
            } else {
                first_within(rm, rm.len() as int, suppressed@[i])
            }
        } by {
            let k = key_of(suppressed@[i]);
            lemma_last_concat(fv, old_kept@, k);
            if lists_key(old_kept@, k) {
                lemma_last_with_key(old_kept@, k);
                let j = last_with_key(old_kept@, k);
                assert(old_kept@[j] == s0[last_with_key(s0, key_of(old_kept@[j]))]);
            } else {
                lemma_last_with_key(fv, k);
                let j = last_with_key(fv, k);
                assert(fv[j] == s_merged@[j]);
                assert(fv[j] == firsts@[last_with_key(firsts@, key_of(fv[j]))]);
                assert(lists_key(firsts@, key_of(fv[j])));
                lemma_last_with_key(firsts@, key_of(fv[j]));
                let q = last_with_key(firsts@, key_of(fv[j]));
                assert(0 <= q < firsts@.len());
                assert(first_within(rm, rm.len() as int, firsts@[q]));
            }
        }
        assert forall|k: (TagKind, Seq<char>)| (lists_key(s0, k) || lists_key(rm, k)) && !lists_key(ad, k) implies #[trigger] lists_key(suppressed@, k) by {
            if lists_key(s0, k) {
                assert(lists_key(old_kept@, k));
                let j = choose|j: int| 0 <= j < old_kept@.len() && key_of(#[trigger] old_kept@[j]) == k;
                assert(s_merged@[fv.len() + j] == old_kept@[j]);
            } else {
                assert(lists_key(firsts@, k));
                assert(lists_key(fresh@, k));
                let j = choose|j: int| 0 <= j < fresh@.len() && key_of(#[trigger] fresh@[j]) == k;
                assert(s_merged@[j] == fresh@[j]);
            }
            assert(lists_key(s_merged@, k));
        }
    }
    Ok(TrackManualState { year, manual_additions: additions, suppressed_auto_tags: suppressed })
}

/// The whole manual tag file: records keyed by content hash.
#[derive(Debug, PartialEq, Eq)]
pub struct Document {
    pub schema_version: u32,
    pub generation: u64,
    pub tracks: Vec<(String, TrackManualState)>,
}

/// What a successful batch edit reports.
#[derive(Debug, PartialEq, Eq)]
pub struct ApplyResult {
    pub changed: usize,
    pub no_op: usize,
    pub revision: String,
}

/// Every record keeps one tag per key.
pub open spec fn document_ok(d: Document) -> bool {
    forall|i: int| 0 <= i < d.tracks@.len() ==> distinct_keys(#[trigger] d.tracks@[i].1.manual_additions@)
        && distinct_keys(d.tracks@[i].1.suppressed_auto_tags@)
}

/// The revision text of a document generation.
pub open spec fn revision_text(generation: nat) -> Seq<char> {
    "track-tags-v1:"@ + decimal(generation)
}

pub fn revision_of(doc: &Document) -> (r: String)
    ensures
        r@ == revision_text(doc.generation as nat),
{
    let mut out = chars_of("track-tags-v1:");
    let ghost p = out@;
    let d = decimal_chars(doc.generation);
    let mut i: usize = 0;
    while i < d.len()
        invariant
            i <= d.len(),
            out@ == p + d@.take(i as int),
        decreases d.len() - i,
    {
        out.push(d[i]);
        i = i + 1;
        assert(out@ =~= p + d@.take(i as int));
    }
    assert(d@.take(d.len() as int) =~= d@);
    string_of(out.as_slice())
}

/// Whether an entry is stored under `h`.
pub open spec fn keyed(h: Seq<char>) -> spec_fn((String, TrackManualState)) -> bool {
    |t: (String, TrackManualState)| t.0@ == h
}

pub open spec fn track_pos(tracks: Seq<(String, TrackManualState)>, h: Seq<char>) -> int {
    crate::playlists::first_pos(tracks, keyed(h))
}

/// A record as year and tag sequences.
pub open spec fn record_view(r: TrackManualState) -> (YearState, Seq<Tag>, Seq<Tag>) {
    (r.year, r.manual_additions@, r.suppressed_auto_tags@)
}

/// The record stored for `h`, or the empty one.
pub open spec fn record_for(tracks: Seq<(String, TrackManualState)>, h: Seq<char>) -> (YearState, Seq<Tag>, Seq<Tag>) {
    let p = track_pos(tracks, h);
    if p >= 0 {
        record_view(tracks[p].1)
    } else {
        (YearState::Auto, seq![], seq![])
    }
}

/// The record `after` is the record `before` with `patch` applied.
pub open spec fn record_patched(after: (YearState, Seq<Tag>, Seq<Tag>), before: (YearState, Seq<Tag>, Seq<Tag>), patch: TrackTagPatch) -> bool {
    &&& after.0 == match patch.year_change {
        Some(y) => y,
        None => before.0,
    }
    &&& additions_after(after.1, before.1, patch.remove@, patch.add@)
    &&& suppressed_after(after.2, before.2, patch.remove@, patch.add@)
}

/// How many different hashes `hs` names.
pub open spec fn distinct_count(hs: Seq<String>) -> nat
    decreases hs.len(),
{
    if hs.len() == 0 {
        0
    } else if exists|i: int| 0 <= i < hs.len() - 1 && #[trigger] hs[i]@ == hs.last()@ {
        distinct_count(hs.drop_last())
    } else {
        distinct_count(hs.drop_last()) + 1
    }
}

fn copy_record(r: &TrackManualState) -> (c: TrackManualState)
    ensures
        record_view(c) == record_view(*r),
{
    TrackManualState {
        year: r.year,
        manual_additions: copy_tags(&r.manual_additions),
        suppressed_auto_tags: copy_tags(&r.suppressed_auto_tags),
    }
}

fn find_track(tracks: &Vec<(String, TrackManualState)>, h: &String) -> (r: Option<usize>)
    ensures
        match r {
            Some(i) => i < tracks.len() && track_pos(tracks@, h@) == i,
            None => track_pos(tracks@, h@) == -1,
        },
        r is None ==> forall|j: int| 0 <= j < tracks@.len() ==> #[trigger] tracks@[j].0@ != h@,
        r matches Some(i) ==> tracks@[i as int].0@ == h@,
{
    let ghost f = keyed(h@);
    let mut i: usize = 0;
    while i < tracks.len()
        invariant
            i <= tracks.len(),
            f == keyed(h@),
            forall|j: int| 0 <= j < i ==> !f(#[trigger] tracks@[j]),
        decreases tracks.len() - i,
    {
        if tracks[i].0 == *h {
            proof {
                crate::playlists::lemma_first_pos_is(tracks@, f, i as int);
            }
            return Some(i);
        }
        i = i + 1;
    }
    proof {
        crate::playlists::lemma_first_pos_is(tracks@, f, -1);
    }
    None
}

pub open spec fn tags_view(s: Seq<Tag>) -> Seq<(TagKind, Seq<char>)> {
    s.map_values(|t: Tag| (t.kind, t.value@))
}

fn same_tags(a: &Vec<Tag>, b: &Vec<Tag>) -> (r: bool)
    ensures
        r == (tags_view(a@) == tags_view(b@)),
{
    if a.len() != b.len() {
        assert(tags_view(a@).len() != tags_view(b@).len());
        return false;
    }
    let mut i: usize = 0;
    while i < a.len()
        invariant
            i <= a.len(),
            a.len() == b.len(),
            forall|j: int| 0 <= j < i ==> tags_view(a@)[j] == tags_view(b@)[j],
        decreases a.len() - i,
    {
        if a[i].kind != b[i].kind || a[i].value != b[i].value {
            assert(tags_view(a@)[i as int] != tags_view(b@)[i as int]);
            return false;
        }
        i = i + 1;
    }
    assert(tags_view(a@) =~= tags_view(b@));
    true
}

/// The record views agree tag by tag, as records compare by value.
pub open spec fn same_record(a: (YearState, Seq<Tag>, Seq<Tag>), b: (YearState, Seq<Tag>, Seq<Tag>)) -> bool {
    a.0 == b.0 && tags_view(a.1) == tags_view(b.1) && tags_view(a.2) == tags_view(b.2)
}

/// Applying `patch` to the record `before` can leave it as it was.
pub open spec fn patch_leaves(before: (YearState, Seq<Tag>, Seq<Tag>), patch: TrackTagPatch) -> bool {
    exists|after: (YearState, Seq<Tag>, Seq<Tag>)| record_patched(after, before, patch) && same_record(after, before)
}

/// Position of the first occurrence of `hs[i]`'s text in `hs`.
pub open spec fn first_mention(hs: Seq<String>, i: int) -> bool {
    forall|j: int| 0 <= j < i ==> #[trigger] hs[j]@ != hs[i]@
}

fn empty_record() -> (r: TrackManualState)
    ensures
        record_view(r) == (YearState::Auto, Seq::<Tag>::empty(), Seq::<Tag>::empty()),
{
    TrackManualState { year: YearState::Auto, manual_additions: Vec::new(), suppressed_auto_tags: Vec::new() }
}

fn mentioned_before(hs: &[String], i: usize) -> (r: bool)
    requires
        i < hs.len(),
    ensures
        r == !first_mention(hs@, i as int),
{
    let mut j: usize = 0;
    while j < i
        invariant
            j <= i < hs.len(),
            forall|k: int| 0 <= k < j ==> #[trigger] hs@[k]@ != hs@[i as int]@,
        decreases i - j,
    {
        if hs[j] == hs[i] {
            return true;
        }
        j = j + 1;
    }
    false
}

/// The embedded tags known for track `h`: those of its first entry in
/// `auto_by_hash`, or none.
pub open spec fn auto_of(auto_by_hash: Seq<(String, Vec<Tag>)>, h: Seq<char>) -> Seq<Tag>
    decreases auto_by_hash.len(),
{
    if auto_by_hash.len() == 0 {
        seq![]
    } else if auto_by_hash[0].0@ == h {
        auto_by_hash[0].1@
    } else {
        auto_of(auto_by_hash.drop_first(), h)
    }
}

/// Patching the record `before` breaks a limit: more than [`MAX_TAGS`]
/// manual additions, or, with the embedded tags `auto`, more than
/// [`MAX_TAGS`] effective tags.
pub open spec fn refused(before: (YearState, Seq<Tag>, Seq<Tag>), patch: TrackTagPatch, auto: Seq<Tag>) -> bool {
    ||| exists|n: Seq<Tag>| #[trigger] additions_after(n, before.1, patch.remove@, patch.add@) && n.len() > MAX_TAGS
    ||| exists|m: TrackManualState, es: Seq<EffectiveTag>|
        #![trigger effective_list(es, auto, m)]
        record_patched(record_view(m), before, patch) && effective_list(es, auto, m) && es.len() > MAX_TAGS
}

/// A patch whose result keeps to both limits is not refused: the result is
/// the only one it can have.
proof fn lemma_not_refused(
    before: (YearState, Seq<Tag>, Seq<Tag>),
    patch: TrackTagPatch,
    auto: Seq<Tag>,
    after: TrackManualState,
    eff: Seq<EffectiveTag>,
)
    requires
        record_patched(record_view(after), before, patch),
        after.manual_additions@.len() <= MAX_TAGS,
        effective_list(eff, auto, after),
        eff.len() <= MAX_TAGS,
    ensures
        !refused(before, patch, auto),
{
    assert forall|n: Seq<Tag>| #[trigger] additions_after(n, before.1, patch.remove@, patch.add@) implies n.len() <= MAX_TAGS by {
        lemma_additions_unique(n, after.manual_additions@, before.1, patch.remove@, patch.add@);
    }
    assert forall|m: TrackManualState, es: Seq<EffectiveTag>|
        record_patched(record_view(m), before, patch) && #[trigger] effective_list(es, auto, m) implies es.len() <= MAX_TAGS by {
        lemma_additions_unique(m.manual_additions@, after.manual_additions@, before.1, patch.remove@, patch.add@);
        lemma_suppressed_unique(m.suppressed_auto_tags@, after.suppressed_auto_tags@, before.2, patch.remove@, patch.add@);
        assert(record_view(m) == record_view(after));
        lemma_effective_unique(es, eff, auto, m, after);
    }
}

fn auto_for(auto_by_hash: &[(String, Vec<Tag>)], h: &String) -> (r: Vec<Tag>)
    ensures
        r@ == auto_of(auto_by_hash@, h@),
{
    let mut i: usize = 0;
    assert(auto_by_hash@.skip(0) =~= auto_by_hash@);
    while i < auto_by_hash.len()
        invariant
            i <= auto_by_hash.len(),
            auto_of(auto_by_hash@, h@) == auto_of(auto_by_hash@.skip(i as int), h@),
        decreases auto_by_hash.len() - i,
    {
        proof {
            let rest = auto_by_hash@.skip(i as int);
            assert(rest[0] == auto_by_hash@[i as int]);
            assert(rest.drop_first() =~= auto_by_hash@.skip(i as int + 1));
        }
        if auto_by_hash[i].0.as_str().to_owned() == h.as_str().to_owned() {
            return copy_tags(&auto_by_hash[i].1);
        }
        i = i + 1;
    }
    Vec::new()
}

fn put_record(tracks: &mut Vec<(String, TrackManualState)>, h: String, rec: TrackManualState)
    ensures
        record_for(final(tracks)@, h@) == record_view(rec),
        forall|k: Seq<char>| k != h@ ==> #[trigger] record_for(final(tracks)@, k) == record_for(old(tracks)@, k),
        keys_distinct(old(tracks)@) ==> keys_distinct(final(tracks)@),
{
    let ghost old_t = tracks@;
    let ghost f = keyed(h@);
    let ghost key = h@;
    match find_track(tracks, &h) {
        Some(p) => {
            proof {
                crate::playlists::lemma_first_pos(old_t, f);
            }
            tracks.set(p, (h, rec));
            proof {
                assert forall|j: int| 0 <= j < p implies !f(#[trigger] tracks@[j]) by {
                    crate::playlists::lemma_first_pos(old_t, f);
                    assert(tracks@[j] == old_t[j]);
                }
                crate::playlists::lemma_first_pos_is(tracks@, f, p as int);
                if keys_distinct(old_t) {
                    lemma_keyed_store(old_t, tracks@, key, p as int);
                }
                assert forall|k: Seq<char>| k != h@ implies #[trigger] record_for(tracks@, k) == record_for(old_t, k) by {
                    lemma_first_pos_same_except(old_t, tracks@, p as int, k);
                }
            }
        },
        None => {
            tracks.push((h, rec));
            proof {
                crate::playlists::lemma_first_pos(old_t, f);
                crate::playlists::lemma_first_pos_is(tracks@, f, old_t.len() as int);
                if keys_distinct(old_t) {
                    lemma_keyed_store(old_t, tracks@, key, -1);
                }
                assert forall|k: Seq<char>| k != h@ implies #[trigger] record_for(tracks@, k) == record_for(old_t, k) by {
                    lemma_first_pos_same_except(old_t, tracks@, old_t.len() as int, k);
                }
            }
        },
    }
}

/// Changing the entry at `p` to one with key `h` leaves lookups of other keys alone.
proof fn lemma_first_pos_same_except(
    old: Seq<(String, TrackManualState)>,
    new: Seq<(String, TrackManualState)>,
    p: int,
    k: Seq<char>,
)
    requires
        0 <= p <= old.len(),
        new.len() == if p < old.len() { old.len() } else { old.len() + 1 },
        forall|j: int| 0 <= j < old.len() && j != p ==> #[trigger] new[j] == old[j],
        p < new.len(),
        new[p].0@ != k,
        p < old.len() ==> old[p].0@ == new[p].0@,
    ensures
        record_for(new, k) == record_for(old, k),
{
    let f = keyed(k);
    crate::playlists::lemma_first_pos(old, f);
    let q = track_pos(old, k);
    if q >= 0 {
        assert(q != p);
        assert forall|j: int| 0 <= j < q implies !f(#[trigger] new[j]) by {
            if j != p {
                assert(new[j] == old[j]);
            }
        }
        assert(new[q] == old[q]);
        crate::playlists::lemma_first_pos_is(new, f, q);
    } else {
        assert forall|j: int| 0 <= j < new.len() implies !f(#[trigger] new[j]) by {
            if j != p {
                assert(new[j] == old[j]);
            }
        }
        crate::playlists::lemma_first_pos_is(new, f, -1);
    }
}


/// The lookup of `h` in `tracks` is the disk record with `patch` applied,
/// or the unchanged disk record when the patch changes nothing.
pub open spec fn patched_at(
    tracks: Seq<(String, TrackManualState)>,
    disk: Seq<(String, TrackManualState)>,
    h: Seq<char>,
    patch: TrackTagPatch,
) -> bool {
    exists|after: (YearState, Seq<Tag>, Seq<Tag>)|
        record_patched(after, record_for(disk, h), patch) && if same_record(after, record_for(disk, h)) {
            record_for(tracks, h) == record_for(disk, h)
        } else {
            record_for(tracks, h) == after
        }
}

proof fn lemma_same_lookup(a: Seq<(String, TrackManualState)>, b: Seq<(String, TrackManualState)>, k: Seq<char>)
    requires
        a.len() == b.len(),
        forall|j: int| 0 <= j < a.len() ==> #[trigger] a[j].0 == b[j].0 && record_view(a[j].1) == record_view(b[j].1),
    ensures
        record_for(a, k) == record_for(b, k),
{
    let f = keyed(k);
    crate::playlists::lemma_first_pos(b, f);
    let q = track_pos(b, k);
    assert forall|j: int| 0 <= j < (if q >= 0 { q } else { a.len() as int }) implies !f(#[trigger] a[j]) by {
        assert(a[j].0 == b[j].0);
    }
    if q >= 0 {
        assert(a[q].0 == b[q].0);
    }
    crate::playlists::lemma_first_pos_is(a, f, q);
}

proof fn lemma_distinct_step(hs: Seq<String>, i: int)
    requires
        0 <= i < hs.len(),
    ensures
        distinct_count(hs.take(i + 1)) == distinct_count(hs.take(i)) + if first_mention(hs, i) { 1nat } else { 0nat },
{
    let t = hs.take(i + 1);
    assert(t.drop_last() =~= hs.take(i));
    assert(t.last() == hs[i]);
    if first_mention(hs, i) {
        assert forall|j: int| 0 <= j < t.len() - 1 implies #[trigger] t[j]@ != t.last()@ by {
            assert(t[j] == hs[j]);
        }
    } else {
        let j = choose|j: int| 0 <= j < i && #[trigger] hs[j]@ == hs[i]@;
        assert(t[j] == hs[j]);
    }
}

/// `now` is, as far as its year and tag texts go, the record `before` with
/// `patch` applied.
pub open spec fn patch_result(now: (YearState, Seq<Tag>, Seq<Tag>), before: (YearState, Seq<Tag>, Seq<Tag>), patch: TrackTagPatch) -> bool {
    exists|after: (YearState, Seq<Tag>, Seq<Tag>)| #[trigger] record_patched(after, before, patch) && same_record(now, after)
}

/// How many different tracks of `hs` the patch changes.
pub open spec fn changing_count(hs: Seq<String>, tracks: Seq<(String, TrackManualState)>, patch: TrackTagPatch) -> nat
    decreases hs.len(),
{
    if hs.len() == 0 {
        0
    } else if (exists|i: int| 0 <= i < hs.len() - 1 && #[trigger] hs[i]@ == hs.last()@) || patch_leaves(
        record_for(tracks, hs.last()@),
        patch,
    ) {
        changing_count(hs.drop_last(), tracks, patch)
    } else {
        changing_count(hs.drop_last(), tracks, patch) + 1
    }
}

proof fn lemma_changing_step(hs: Seq<String>, tracks: Seq<(String, TrackManualState)>, patch: TrackTagPatch, i: int)
    requires
        0 <= i < hs.len(),
    ensures
        changing_count(hs.take(i + 1), tracks, patch) == changing_count(hs.take(i), tracks, patch) + if first_mention(hs, i)
            && !patch_leaves(record_for(tracks, hs[i]@), patch) {
            1nat
        } else {
            0nat
        },
{
    let t = hs.take(i + 1);
    assert(t.drop_last() =~= hs.take(i));
    assert(t.last() == hs[i]);
    if first_mention(hs, i) {
        assert forall|j: int| 0 <= j < t.len() - 1 implies #[trigger] t[j]@ != t.last()@ by {
            assert(t[j] == hs[j]);
        }
    } else {
        let j = choose|j: int| 0 <= j < i && #[trigger] hs[j]@ == hs[i]@;
        assert(t[j] == hs[j]);
    }
}

/// A patch has one result.
proof fn lemma_patch_unique(
    a1: (YearState, Seq<Tag>, Seq<Tag>),
    a2: (YearState, Seq<Tag>, Seq<Tag>),
    before: (YearState, Seq<Tag>, Seq<Tag>),
    patch: TrackTagPatch,
)
    requires
        record_patched(a1, before, patch),
        record_patched(a2, before, patch),
    ensures
        a1 == a2,
{
    lemma_additions_unique(a1.1, a2.1, before.1, patch.remove@, patch.add@);
    lemma_suppressed_unique(a1.2, a2.2, before.2, patch.remove@, patch.add@);
}

/// What a batch edit of the records of `hashes` does to the document read
/// from disk: a stale `expected_revision` is a conflict; each named track's
/// record is patched, and a result over the limits refuses the whole batch;
/// a batch that changes nothing writes nothing; otherwise the new document
/// advances the generation.
pub fn plan_patch(
    disk: &Document,
    hashes: &[String],
    expected_revision: &str,
    patch: &TrackTagPatch,
    auto_by_hash: &[(String, Vec<Tag>)],
) -> (r: Result<(Option<Document>, ApplyResult), StoreError>)
    requires
        document_ok(*disk),
    ensures
        revision_text(disk.generation as nat) != expected_revision@ <==> r == Err::<(Option<Document>, ApplyResult), StoreError>(StoreError::Conflict),
        match r {
            Ok((None, res)) => {
                &&& res.changed == 0
                &&& changing_count(hashes@, disk.tracks@, *patch) == 0
                &&& res.no_op == distinct_count(hashes@)
                &&& res.revision@ == revision_text(disk.generation as nat)
                &&& forall|i: int| 0 <= i < hashes.len() ==> patch_leaves(record_for(disk.tracks@, (#[trigger] hashes@[i])@), *patch)
            },
            Ok((Some(doc), res)) => {
                &&& res.changed > 0
                &&& res.changed == changing_count(hashes@, disk.tracks@, *patch)
                &&& res.changed + res.no_op == distinct_count(hashes@)
                &&& doc.generation == disk.generation + 1
                &&& doc.schema_version == disk.schema_version
                &&& res.revision@ == revision_text(doc.generation as nat)
                &&& forall|i: int| 0 <= i < hashes.len() ==> patch_result(
                    record_for(doc.tracks@, (#[trigger] hashes@[i])@),
                    record_for(disk.tracks@, hashes@[i]@),
                    *patch,
                )
                &&& forall|k: Seq<char>| (forall|i: int| 0 <= i < hashes.len() ==> #[trigger] hashes@[i]@ != k) ==> #[trigger] record_for(doc.tracks@, k) == record_for(disk.tracks@, k)
                &&& keys_distinct(disk.tracks@) ==> keys_distinct(doc.tracks@)
            },
            Err(StoreError::Io(m)) => m@ == "revision exhausted"@ && disk.generation == u64::MAX,
            Err(e) => e == StoreError::Conflict || e == StoreError::InvalidPatch,
        },
        r == Err::<(Option<Document>, ApplyResult), StoreError>(StoreError::InvalidPatch) <==> revision_text(
            disk.generation as nat,
        ) == expected_revision@ && exists|i: int|
            0 <= i < hashes.len() && refused(
                record_for(disk.tracks@, (#[trigger] hashes@[i])@),
                *patch,
                auto_of(auto_by_hash@, hashes@[i]@),
            ),
{
    let rev = revision_of(disk);
    if rev.as_str().to_owned() != expected_revision.to_owned() {
        return Err(StoreError::Conflict);
    }
    let mut tracks: Vec<(String, TrackManualState)> = Vec::new();
    let mut t: usize = 0;
    while t < disk.tracks.len()
        invariant
            t <= disk.tracks.len(),
            tracks.len() == t,
            forall|j: int| 0 <= j < t ==> #[trigger] tracks@[j].0 == disk.tracks@[j].0 && record_view(tracks@[j].1) == record_view(disk.tracks@[j].1),
        decreases disk.tracks.len() - t,
    {
        tracks.push((disk.tracks[t].0.clone(), copy_record(&disk.tracks[t].1)));
        t = t + 1;
    }
    proof {
        assert forall|k: Seq<char>| #[trigger] record_for(tracks@, k) == record_for(disk.tracks@, k) by {
            lemma_same_lookup(tracks@, disk.tracks@, k);
        }
        if keys_distinct(disk.tracks@) {
            assert forall|a: int, b: int| 0 <= a < b < tracks@.len() implies #[trigger] tracks@[a].0@ != #[trigger] tracks@[b].0@ by {
                assert(tracks@[a].0 == disk.tracks@[a].0 && tracks@[b].0 == disk.tracks@[b].0);
            }
        }
    }
    let mut changed: usize = 0;
    let mut distinct: usize = 0;
    let mut i: usize = 0;
    assert(hashes@.take(0) =~= seq![]);
    while i < hashes.len()
        invariant
            i <= hashes.len(),
            document_ok(*disk),
            revision_text(disk.generation as nat) == expected_revision@,
            rev@ == revision_text(disk.generation as nat),
            distinct == distinct_count(hashes@.take(i as int)),
            changed <= distinct,
            distinct <= i,
            forall|k: Seq<char>| (forall|j: int| 0 <= j < i ==> #[trigger] hashes@[j]@ != k) ==> #[trigger] record_for(tracks@, k) == record_for(disk.tracks@, k),
            forall|j: int| 0 <= j < i ==> #[trigger] patched_at(tracks@, disk.tracks@, hashes@[j]@, *patch),
            changed == 0 ==> forall|j: int| 0 <= j < i ==> #[trigger] record_for(tracks@, hashes@[j]@) == record_for(disk.tracks@, hashes@[j]@),
            changed == changing_count(hashes@.take(i as int), disk.tracks@, *patch),
            keys_distinct(disk.tracks@) ==> keys_distinct(tracks@),
            forall|j: int| 0 <= j < i ==> !refused(
                record_for(disk.tracks@, (#[trigger] hashes@[j])@),
                *patch,
                auto_of(auto_by_hash@, hashes@[j]@),
            ),
        decreases hashes.len() - i,
    {
        proof {
            lemma_distinct_step(hashes@, i as int);
            lemma_changing_step(hashes@, disk.tracks@, *patch, i as int);
        }
        if !mentioned_before(hashes, i) {
            distinct = distinct + 1;
            let h = &hashes[i];
            let before = match find_track(&disk.tracks, h) {
                Some(p) => copy_record(&disk.tracks[p].1),
                None => empty_record(),
            };
            let ghost bv = record_view(before);
            assert(bv == record_for(disk.tracks@, h@));
            let after = match apply_one(&before, patch) {
                Ok(a) => a,
                Err(e) => {
                    proof {
                        let n = choose|n: Seq<Tag>|
                            additions_after(n, before.manual_additions@, patch.remove@, patch.add@) && n.len() > MAX_TAGS;
                        assert(before.manual_additions@ == bv.1);
                        assert(additions_after(n, record_for(disk.tracks@, hashes@[i as int]@).1, patch.remove@, patch.add@));
                        assert(refused(record_for(disk.tracks@, hashes@[i as int]@), *patch, auto_of(auto_by_hash@, hashes@[i as int]@)));
                    }
                    return Err(e);
                },
            };
            let ghost av = record_view(after);
            assert(record_patched(av, bv, *patch));
            let auto = auto_for(auto_by_hash, h);
            let eff = effective_tags(auto.as_slice(), &after);
            if eff.len() > MAX_TAGS {
                proof {
                    assert(effective_list(eff@, auto@, after));
                    assert(refused(record_for(disk.tracks@, hashes@[i as int]@), *patch, auto_of(auto_by_hash@, hashes@[i as int]@)));
                }
                return Err(StoreError::InvalidPatch);
            }
            proof {
                lemma_not_refused(bv, *patch, auto@, after, eff@);
            }
            let ghost old_tracks = tracks@;
            if !(before.year == after.year && same_tags(&before.manual_additions, &after.manual_additions)
                && same_tags(&before.suppressed_auto_tags, &after.suppressed_auto_tags)) {
                proof {
                    assert(!same_record(av, bv));
                    if patch_leaves(bv, *patch) {
                        let a2 = choose|a2: (YearState, Seq<Tag>, Seq<Tag>)| record_patched(a2, bv, *patch) && same_record(a2, bv);
                        lemma_patch_unique(a2, av, bv, *patch);
                    }
                }
                put_record(&mut tracks, h.clone(), after);
                changed = changed + 1;
                proof {
                    assert(record_for(tracks@, h@) == av);
                    assert(patched_at(tracks@, disk.tracks@, h@, *patch));
                }
            } else {
                proof {
                    assert(same_record(av, bv));
                    assert(patch_leaves(bv, *patch));
                    assert(record_for(tracks@, h@) == bv) by {
                        assert(forall|j: int| 0 <= j < i ==> #[trigger] hashes@[j]@ != h@);
                    }
                    assert(patched_at(tracks@, disk.tracks@, h@, *patch));
                }
            }
            proof {
                assert forall|j: int| 0 <= j < i + 1 implies #[trigger] patched_at(tracks@, disk.tracks@, hashes@[j]@, *patch) by {
                    if j < i {
                        assert(hashes@[j]@ != h@);
                        assert(patched_at(old_tracks, disk.tracks@, hashes@[j]@, *patch));
                    }
                }
            }
        } else {
            proof {
                let j0 = choose|j0: int| 0 <= j0 < i && #[trigger] hashes@[j0]@ == hashes@[i as int]@;
                assert(patched_at(tracks@, disk.tracks@, hashes@[j0]@, *patch));
                assert(!refused(record_for(disk.tracks@, hashes@[j0]@), *patch, auto_of(auto_by_hash@, hashes@[j0]@)));
            }
        }
        i = i + 1;
    }
    assert(hashes@.take(hashes.len() as int) =~= hashes@);
    if changed == 0 {
        proof {
            assert forall|i: int| 0 <= i < hashes.len() implies patch_leaves(record_for(disk.tracks@, (#[trigger] hashes@[i])@), *patch) by {
                let h = hashes@[i]@;
                assert(patched_at(tracks@, disk.tracks@, h, *patch));
                let after = choose|after: (YearState, Seq<Tag>, Seq<Tag>)|
                    record_patched(after, record_for(disk.tracks@, h), *patch) && if same_record(after, record_for(disk.tracks@, h)) {
                        record_for(tracks@, h) == record_for(disk.tracks@, h)
                    } else {
                        record_for(tracks@, h) == after
                    };
                assert(record_for(tracks@, h) == record_for(disk.tracks@, h));
                assert(same_record(after, record_for(disk.tracks@, h)));
            }
        }
        return Ok((None, ApplyResult { changed: 0, no_op: distinct, revision: rev }));
    }
    if disk.generation == u64::MAX {
        return Err(StoreError::Io("revision exhausted".to_owned()));
    }
    proof {
        assert forall|i: int| 0 <= i < hashes.len() implies patch_result(
            record_for(tracks@, (#[trigger] hashes@[i])@),
            record_for(disk.tracks@, hashes@[i]@),
            *patch,
        ) by {
            let h = hashes@[i]@;
            assert(patched_at(tracks@, disk.tracks@, h, *patch));
            let after = choose|after: (YearState, Seq<Tag>, Seq<Tag>)|
                record_patched(after, record_for(disk.tracks@, h), *patch) && if same_record(after, record_for(disk.tracks@, h)) {
                    record_for(tracks@, h) == record_for(disk.tracks@, h)
                } else {
                    record_for(tracks@, h) == after
                };
            assert(same_record(record_for(tracks@, h), after));
        }
    }
    let doc = Document { schema_version: disk.schema_version, generation: disk.generation + 1, tracks };
    let revision = revision_of(&doc);
    Ok((Some(doc), ApplyResult { changed, no_op: distinct - changed, revision }))
}

} // verus!

verus! {

/// A stored record the store accepts: every tag in the form `Tag::new`
/// gives, at most [`MAX_TAGS`] manual tags once one per key is kept, and a
/// set year of four digits.
pub open spec fn record_acceptable(r: TrackManualState, canonical_additions: Seq<Tag>) -> bool {
    &&& forall|i: int| 0 <= i < r.manual_additions@.len() ==> normal_tag(#[trigger] r.manual_additions@[i])
    &&& forall|i: int| 0 <= i < r.suppressed_auto_tags@.len() ==> normal_tag(#[trigger] r.suppressed_auto_tags@[i])
    &&& canonical_additions.len() <= MAX_TAGS
    &&& match r.year {
        YearState::SetTo { value } => 1000 <= value <= 9999,
        _ => true,
    }
}

/// Read a stored record: its tag lists made canonical (one tag per key, the
/// last given, in key order), or `None` when the stored document is
/// corrupt because of it.
pub fn accept_record(record: TrackManualState) -> (r: Option<TrackManualState>)
    ensures
        match r {
            Some(x) => {
                &&& x.year == record.year
                &&& canonical_of(x.manual_additions@, record.manual_additions@)
                &&& canonical_of(x.suppressed_auto_tags@, record.suppressed_auto_tags@)
                &&& record_acceptable(record, x.manual_additions@)
                &&& distinct_keys(x.manual_additions@)
                &&& distinct_keys(x.suppressed_auto_tags@)
            },
            None => forall|c: Seq<Tag>| canonical_of(c, record.manual_additions@) ==> !record_acceptable(record, c),
        },
{
    if !all_normal(&record.manual_additions) || !all_normal(&record.suppressed_auto_tags) {
        return None;
    }
    let year = record.year;
    match year {
        YearState::SetTo { value } => {
            if value < 1000 || value > 9999 {
                return None;
            }
        },
        _ => {},
    }
    let ghost before = record;
    let TrackManualState { year: _, manual_additions, suppressed_auto_tags } = record;
    let additions = canonicalize(manual_additions);
    let suppressed = canonicalize(suppressed_auto_tags);
    if additions.len() > MAX_TAGS {
        proof {
            assert forall|c: Seq<Tag>| canonical_of(c, before.manual_additions@) implies !record_acceptable(before, c) by {
                lemma_canonical_len(c, additions@, before.manual_additions@);
            }
        }
        return None;
    }
    Some(TrackManualState { year, manual_additions: additions, suppressed_auto_tags: suppressed })
}

/// Two canonical forms of one list have the same length.
proof fn lemma_canonical_len(a: Seq<Tag>, b: Seq<Tag>, s: Seq<Tag>)
    requires
        canonical_of(a, s),
        canonical_of(b, s),
    ensures
        a.len() == b.len(),
{
    // Both list each key of `s` exactly once.
    let ka = a.map_values(|t: Tag| key_of(t));
    let kb = b.map_values(|t: Tag| key_of(t));
    assert(ka.no_duplicates()) by {
        assert forall|i: int, j: int| 0 <= i < ka.len() && 0 <= j < ka.len() && i != j implies ka[i] != ka[j] by {
            if i < j {
                assert(key_of(a[i]) != key_of(a[j]));
            } else {
                assert(key_of(a[j]) != key_of(a[i]));
            }
        }
    }
    assert(kb.no_duplicates()) by {
        assert forall|i: int, j: int| 0 <= i < kb.len() && 0 <= j < kb.len() && i != j implies kb[i] != kb[j] by {
            if i < j {
                assert(key_of(b[i]) != key_of(b[j]));
            } else {
                assert(key_of(b[j]) != key_of(b[i]));
            }
        }
    }
    assert(ka.to_set() =~= kb.to_set()) by {
        assert forall|k: (TagKind, Seq<char>)| ka.to_set().contains(k) implies kb.to_set().contains(k) by {
            let i = choose|i: int| 0 <= i < ka.len() && ka[i] == k;
            assert(lists_key(s, key_of(a[i])));
            assert(lists_key(b, k));
            let j = choose|j: int| 0 <= j < b.len() && key_of(#[trigger] b[j]) == k;
            assert(kb[j] == k);
        }
        assert forall|k: (TagKind, Seq<char>)| kb.to_set().contains(k) implies ka.to_set().contains(k) by {
            let i = choose|i: int| 0 <= i < kb.len() && kb[i] == k;
            assert(lists_key(s, key_of(b[i])));
            assert(lists_key(a, k));
            let j = choose|j: int| 0 <= j < a.len() && key_of(#[trigger] a[j]) == k;
            assert(ka[j] == k);
        }
    }
    ka.unique_seq_to_set();
    kb.unique_seq_to_set();
}

} // verus!

verus! {

/// Two different keys are ordered one way or the other, never both.
proof fn lemma_key_order(x: (TagKind, Seq<char>), y: (TagKind, Seq<char>))
    requires
        x != y,
    ensures
        key_before(x, y) || key_before(y, x),
        !(key_before(x, y) && key_before(y, x)),
{
    if x.0 == y.0 {
        assert(x.1 != y.1);
        lemma_lex_lt_not_le(x.1, y.1);
        lemma_lex_lt_not_le(y.1, x.1);
        crate::order::lemma_lex_total(x.1, y.1);
    }
}

/// In a list with distinct keys, a tag's own position is the last one with
/// its key.
proof fn lemma_own_last(r: Seq<Tag>, i: int)
    requires
        distinct_keys(r),
        0 <= i < r.len(),
    ensures
        last_with_key(r, key_of(r[i])) == i,
{
    lemma_last_with_key(r, key_of(r[i]));
    let j = last_with_key(r, key_of(r[i]));
    if j != i {
        if j < i {
            assert(key_of(r[j]) != key_of(r[i]));
        } else {
            assert(key_of(r[i]) != key_of(r[j]));
        }
    }
}

/// A list with distinct keys in key order is its own canonical form.
pub proof fn lemma_canonical_self(r: Seq<Tag>)
    requires
        distinct_keys(r),
        forall|a: int, b: int| 0 <= a < b < r.len() ==> !key_before(key_of(#[trigger] r[b]), key_of(#[trigger] r[a])),
    ensures
        canonical_of(r, r),
{
    assert forall|i: int| 0 <= i < r.len() implies lists_key(r, key_of(#[trigger] r[i])) && r[i] == r[last_with_key(r, key_of(r[i]))] by {
        lemma_own_last(r, i);
    }
}

/// A list has one canonical form: two agree element by element.
pub proof fn lemma_canonical_unique(a: Seq<Tag>, b: Seq<Tag>, s: Seq<Tag>)
    requires
        canonical_of(a, s),
        canonical_of(b, s),
    ensures
        a == b,
{
    lemma_canonical_len(a, b, s);
    lemma_canonical_prefix(a, b, s, a.len() as int);
    assert forall|i: int| 0 <= i < a.len() implies a[i] == b[i] by {
        lemma_last_with_key(s, key_of(a[i]));
    }
    assert(a =~= b);
}

/// Two canonical forms of `s` list the same keys in the first `n` places.
proof fn lemma_canonical_prefix(a: Seq<Tag>, b: Seq<Tag>, s: Seq<Tag>, n: int)
    requires
        canonical_of(a, s),
        canonical_of(b, s),
        a.len() == b.len(),
        0 <= n <= a.len(),
    ensures
        forall|i: int| 0 <= i < n ==> #[trigger] key_of(a[i]) == key_of(b[i]),
    decreases n,
{
    if n > 0 {
        lemma_canonical_prefix(a, b, s, n - 1);
        let i = n - 1;
        let ka = key_of(a[i]);
        let kb = key_of(b[i]);
        if ka != kb {
            lemma_key_order(ka, kb);
            // Each key is listed by the other form, at some place `j`.
            assert(lists_key(s, ka));
            assert(lists_key(b, ka));
            let j = choose|j: int| 0 <= j < b.len() && key_of(#[trigger] b[j]) == ka;
            assert(lists_key(s, kb));
            assert(lists_key(a, kb));
            let k = choose|k: int| 0 <= k < a.len() && key_of(#[trigger] a[k]) == kb;
            if j < i {
                assert(key_of(a[j]) == key_of(b[j]));
                assert(key_of(a[j]) != key_of(a[i]));
            } else if j > i {
                // kb comes before ka in b, so ka is not before kb.
                assert(!key_before(key_of(b[j]), key_of(b[i])));
                if k < i {
                    assert(key_of(a[k]) == key_of(b[k]));
                    assert(key_of(b[k]) != key_of(b[i]));
                } else if k > i {
                    assert(!key_before(key_of(a[k]), key_of(a[i])));
                }
            }
        }
    }
}

/// A record read back after it was stored is read unchanged: the lists the
/// store keeps are their own canonical forms.
pub proof fn lemma_accepted_lists_are_stable(x: Seq<Tag>, s: Seq<Tag>, y: Seq<Tag>)
    requires
        canonical_of(x, s),
        canonical_of(y, x),
    ensures
        y == x,
{
    lemma_canonical_self(x);
    lemma_canonical_unique(y, x, x);
}

/// `s` lists each key once, in key order.
pub open spec fn keyed_sorted<T>(s: Seq<T>, key: spec_fn(T) -> (TagKind, Seq<char>)) -> bool {
    forall|a: int, b: int|
        0 <= a < b < s.len() ==> key(#[trigger] s[a]) != key(#[trigger] s[b]) && !key_before(key(s[b]), key(s[a]))
}

/// Some element of `s` has key `k`.
pub open spec fn keyed_has<T>(s: Seq<T>, key: spec_fn(T) -> (TagKind, Seq<char>), k: (TagKind, Seq<char>)) -> bool {
    exists|i: int| 0 <= i < s.len() && key(#[trigger] s[i]) == k
}

/// Two lists in key order with one element per key, the same keys, and the
/// same element for each key, are one list.
proof fn lemma_keyed_unique<T>(a: Seq<T>, b: Seq<T>, key: spec_fn(T) -> (TagKind, Seq<char>))
    requires
        keyed_sorted(a, key),
        keyed_sorted(b, key),
        forall|k: (TagKind, Seq<char>)| #[trigger] keyed_has(a, key, k) ==> keyed_has(b, key, k),
        forall|k: (TagKind, Seq<char>)| #[trigger] keyed_has(b, key, k) ==> keyed_has(a, key, k),
        forall|i: int, j: int| 0 <= i < a.len() && 0 <= j < b.len() && key(a[i]) == key(b[j]) ==> #[trigger] a[i] == #[trigger] b[j],
    ensures
        a == b,
{
    let n = if a.len() < b.len() { a.len() as int } else { b.len() as int };
    lemma_keyed_prefix(a, b, key, n);
    if a.len() < b.len() {
        let k = key(b[n]);
        assert(keyed_has(b, key, k));
        assert(keyed_has(a, key, k));
        let j = choose|j: int| 0 <= j < a.len() && key(#[trigger] a[j]) == k;
        assert(key(a[j]) == key(b[j]));
    } else if b.len() < a.len() {
        let k = key(a[n]);
        assert(keyed_has(a, key, k));
        assert(keyed_has(b, key, k));
        let j = choose|j: int| 0 <= j < b.len() && key(#[trigger] b[j]) == k;
        assert(key(a[j]) == key(b[j]));
    }
    assert forall|i: int| 0 <= i < a.len() implies a[i] == b[i] by {
        assert(key(a[i]) == key(b[i]));
    }
    assert(a =~= b);
}

proof fn lemma_keyed_prefix<T>(a: Seq<T>, b: Seq<T>, key: spec_fn(T) -> (TagKind, Seq<char>), n: int)
    requires
        keyed_sorted(a, key),
        keyed_sorted(b, key),
        forall|k: (TagKind, Seq<char>)| #[trigger] keyed_has(a, key, k) ==> keyed_has(b, key, k),
        forall|k: (TagKind, Seq<char>)| #[trigger] keyed_has(b, key, k) ==> keyed_has(a, key, k),
        0 <= n <= a.len(),
        n <= b.len(),
    ensures
        forall|i: int| 0 <= i < n ==> key(#[trigger] a[i]) == key(b[i]),
    decreases n,
{
    if n > 0 {
        lemma_keyed_prefix(a, b, key, n - 1);
        let i = n - 1;
        let ka = key(a[i]);
        let kb = key(b[i]);
        if ka != kb {
            lemma_key_order(ka, kb);
            assert(keyed_has(a, key, ka));
            assert(keyed_has(b, key, ka));
            let j = choose|j: int| 0 <= j < b.len() && key(#[trigger] b[j]) == ka;
            assert(keyed_has(b, key, kb));
            assert(keyed_has(a, key, kb));
            let k = choose|k: int| 0 <= k < a.len() && key(#[trigger] a[k]) == kb;
            if j < i {
                assert(key(a[j]) == key(b[j]));
                assert(key(a[j]) != key(a[i]));
            } else if j > i {
                assert(!key_before(key(b[j]), key(b[i])));
                if k < i {
                    assert(key(a[k]) == key(b[k]));
                    assert(key(b[k]) != key(b[i]));
                } else if k > i {
                    assert(!key_before(key(a[k]), key(a[i])));
                }
            }
        }
    }
}

pub open spec fn tag_key() -> spec_fn(Tag) -> (TagKind, Seq<char>) {
    |t: Tag| key_of(t)
}

/// A patch leaves one list of manual additions.
proof fn lemma_additions_unique(n1: Seq<Tag>, n2: Seq<Tag>, a0: Seq<Tag>, rm: Seq<Tag>, ad: Seq<Tag>)
    requires
        additions_after(n1, a0, rm, ad),
        additions_after(n2, a0, rm, ad),
    ensures
        n1 == n2,
{
    let key = tag_key();
    assert forall|k: (TagKind, Seq<char>)| #[trigger] keyed_has(n1, key, k) implies keyed_has(n2, key, k) by {
        let i = choose|i: int| 0 <= i < n1.len() && key(#[trigger] n1[i]) == k;
        assert(key_of(n1[i]) == k);
        assert(lists_key(n2, k));
        let j = choose|j: int| 0 <= j < n2.len() && key_of(#[trigger] n2[j]) == k;
        assert(key(n2[j]) == k);
    }
    assert forall|k: (TagKind, Seq<char>)| #[trigger] keyed_has(n2, key, k) implies keyed_has(n1, key, k) by {
        let i = choose|i: int| 0 <= i < n2.len() && key(#[trigger] n2[i]) == k;
        assert(key_of(n2[i]) == k);
        assert(lists_key(n1, k));
        let j = choose|j: int| 0 <= j < n1.len() && key_of(#[trigger] n1[j]) == k;
        assert(key(n1[j]) == k);
    }
    assert forall|i: int, j: int| 0 <= i < n1.len() && 0 <= j < n2.len() && key(n1[i]) == key(n2[j]) implies #[trigger] n1[i]
        == #[trigger] n2[j] by {
        assert(key_of(n1[i]) == key_of(n2[j]));
    }
    lemma_keyed_unique(n1, n2, key);
}

/// Two tags first of their key in `s` with the same key are one tag.
proof fn lemma_first_within_unique(s: Seq<Tag>, t1: Tag, t2: Tag)
    requires
        first_within(s, s.len() as int, t1),
        first_within(s, s.len() as int, t2),
        key_of(t1) == key_of(t2),
    ensures
        t1 == t2,
{
    let j1 = choose|j: int| 0 <= j < s.len() && #[trigger] is_first_at(s, j, t1);
    let j2 = choose|j: int| 0 <= j < s.len() && #[trigger] is_first_at(s, j, t2);
    if j1 < j2 {
        assert(key_of(s[j1]) != key_of(t2));
    } else if j2 < j1 {
        assert(key_of(s[j2]) != key_of(t1));
    }
}

/// A patch leaves one list of suppressed embedded tags.
proof fn lemma_suppressed_unique(n1: Seq<Tag>, n2: Seq<Tag>, s0: Seq<Tag>, rm: Seq<Tag>, ad: Seq<Tag>)
    requires
        suppressed_after(n1, s0, rm, ad),
        suppressed_after(n2, s0, rm, ad),
    ensures
        n1 == n2,
{
    let key = tag_key();
    assert forall|k: (TagKind, Seq<char>)| #[trigger] keyed_has(n1, key, k) implies keyed_has(n2, key, k) by {
        let i = choose|i: int| 0 <= i < n1.len() && key(#[trigger] n1[i]) == k;
        assert(key_of(n1[i]) == k);
        if !lists_key(s0, k) {
            let j = choose|j: int| 0 <= j < rm.len() && #[trigger] is_first_at(rm, j, n1[i]);
            assert(key_of(rm[j]) == k);
        }
        assert(lists_key(n2, k));
        let j = choose|j: int| 0 <= j < n2.len() && key_of(#[trigger] n2[j]) == k;
        assert(key(n2[j]) == k);
    }
    assert forall|k: (TagKind, Seq<char>)| #[trigger] keyed_has(n2, key, k) implies keyed_has(n1, key, k) by {
        let i = choose|i: int| 0 <= i < n2.len() && key(#[trigger] n2[i]) == k;
        assert(key_of(n2[i]) == k);
        if !lists_key(s0, k) {
            let j = choose|j: int| 0 <= j < rm.len() && #[trigger] is_first_at(rm, j, n2[i]);
            assert(key_of(rm[j]) == k);
        }
        assert(lists_key(n1, k));
        let j = choose|j: int| 0 <= j < n1.len() && key_of(#[trigger] n1[j]) == k;
        assert(key(n1[j]) == k);
    }
    assert forall|i: int, j: int| 0 <= i < n1.len() && 0 <= j < n2.len() && key(n1[i]) == key(n2[j]) implies #[trigger] n1[i]
        == #[trigger] n2[j] by {
        let k = key_of(n1[i]);
        assert(key_of(n2[j]) == k);
        if !lists_key(s0, k) {
            lemma_first_within_unique(rm, n1[i], n2[j]);
        }
    }
    lemma_keyed_unique(n1, n2, key);
}

pub open spec fn effective_key() -> spec_fn(EffectiveTag) -> (TagKind, Seq<char>) {
    |e: EffectiveTag| key_of(e.tag)
}

/// Records with the same year and lists have the same effective tags.
proof fn lemma_effective_unique(e1: Seq<EffectiveTag>, e2: Seq<EffectiveTag>, auto: Seq<Tag>, m1: TrackManualState, m2: TrackManualState)
    requires
        effective_list(e1, auto, m1),
        effective_list(e2, auto, m2),
        record_view(m1) == record_view(m2),
    ensures
        e1 == e2,
{
    let key = effective_key();
    assert forall|k: (TagKind, Seq<char>)| #[trigger] keyed_has(e1, key, k) implies keyed_has(e2, key, k) by {
        let i = choose|i: int| 0 <= i < e1.len() && key(#[trigger] e1[i]) == k;
        assert(effective_for(e1[i], auto, m1, k));
        assert(lists_effective(e2, k));
        let j = choose|j: int| 0 <= j < e2.len() && key_of(#[trigger] e2[j].tag) == k;
        assert(key(e2[j]) == k);
    }
    assert forall|k: (TagKind, Seq<char>)| #[trigger] keyed_has(e2, key, k) implies keyed_has(e1, key, k) by {
        let i = choose|i: int| 0 <= i < e2.len() && key(#[trigger] e2[i]) == k;
        assert(effective_for(e2[i], auto, m2, k));
        assert(lists_effective(e1, k));
        let j = choose|j: int| 0 <= j < e1.len() && key_of(#[trigger] e1[j].tag) == k;
        assert(key(e1[j]) == k);
    }
    assert forall|i: int, j: int| 0 <= i < e1.len() && 0 <= j < e2.len() && key(e1[i]) == key(e2[j]) implies #[trigger] e1[i]
        == #[trigger] e2[j] by {
        let k = key_of(e1[i].tag);
        assert(effective_for(e1[i], auto, m1, k));
        assert(effective_for(e2[j], auto, m2, k));
    }
    assert forall|a: int, b: int| 0 <= a < b < e1.len() implies key(#[trigger] e1[a]) != key(#[trigger] e1[b]) && !key_before(
        key(e1[b]),
        key(e1[a]),
    ) by {
        assert(!effective_before(e1[b], e1[a]));
    }
    assert forall|a: int, b: int| 0 <= a < b < e2.len() implies key(#[trigger] e2[a]) != key(#[trigger] e2[b]) && !key_before(
        key(e2[b]),
        key(e2[a]),
    ) by {
        assert(!effective_before(e2[b], e2[a]));
    }
    lemma_keyed_unique(e1, e2, key);
}

/// A batch edit the store takes up: a valid patch naming no empty hash;
/// anything else is `InvalidPatch`.
pub fn check_batch(hashes: &[String], patch: &TrackTagPatch) -> (r: Result<(), StoreError>)
    ensures
        r is Ok <==> patch_valid(*patch) && forall|i: int| 0 <= i < hashes.len() ==> (#[trigger] hashes@[i])@.len() > 0,
        r is Err ==> r == Err::<(), StoreError>(StoreError::InvalidPatch),
{
    match validate_patch(patch) {
        Ok(()) => {},
        Err(e) => return Err(e),
    }
    let mut i: usize = 0;
    while i < hashes.len()
        invariant
            i <= hashes.len(),
            forall|j: int| 0 <= j < i ==> (#[trigger] hashes@[j])@.len() > 0,
        decreases hashes.len() - i,
    {
        if hashes[i].as_str().unicode_len() == 0 {
            return Err(StoreError::InvalidPatch);
        }
        i = i + 1;
    }
    Ok(())
}

} // verus!
