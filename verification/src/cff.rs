//! The combined single file (`.cff`): the configuration, information, header and data
//! files one after another, each introduced by a line `--- file type XXX ---`.
//!
//! A marker is a line that starts with `--- file type`; the first ASCII word after it
//! (past spaces and a colon) names the part: `CFG`, `INF`, `HDR` or `DAT` (any letter
//! case). A part holds the bytes from the line after its marker up to the next marker;
//! the data part, which may be binary, runs to the end of the file. When a part appears
//! twice, the first one is kept; bytes before the first marker and parts of other names
//! are ignored.

use vstd::prelude::*;

use crate::encoding::{decode, decoded, detected};
use crate::inf::{parse_text, states, InfFile};

verus! {

/// The bytes `--- file type`.
pub open spec fn marker_bytes() -> Seq<u8> {
    seq![45u8, 45u8, 45u8, 32u8, 102u8, 105u8, 108u8, 101u8, 32u8, 116u8, 121u8, 112u8, 101u8]
}

/// A marker line starts at `p`.
pub open spec fn is_marker_at(b: Seq<u8>, p: int) -> bool {
    &&& 0 <= p
    &&& p + 13 <= b.len()
    &&& (p == 0 || b[p - 1] == 10u8)
    &&& b.subrange(p, p + 13) == marker_bytes()
}

/// End of the line that starts at or before `p`: the next newline at or after `p`, or the
/// end of the bytes.
pub open spec fn line_end(b: Seq<u8>, p: int) -> int
    decreases b.len() - p,
{
    if p < 0 || p >= b.len() {
        b.len() as int
    } else if b[p] == 10u8 {
        p
    } else {
        line_end(b, p + 1)
    }
}

/// Past the spaces and colons from `i` (before `e`).
pub open spec fn skip_sep(b: Seq<u8>, i: int, e: int) -> int
    decreases e - i,
{
    if 0 <= i < e && i < b.len() && (b[i] == 32u8 || b[i] == 58u8) {
        skip_sep(b, i + 1, e)
    } else {
        i
    }
}

/// An ASCII letter.
pub open spec fn is_letter(x: u8) -> bool {
    (65u8 <= x <= 90u8) || (97u8 <= x <= 122u8)
}

/// Past the ASCII letters from `i` (before `e`).
pub open spec fn word_end(b: Seq<u8>, i: int, e: int) -> int
    decreases e - i,
{
    if 0 <= i < e && i < b.len() && is_letter(b[i]) {
        word_end(b, i + 1, e)
    } else {
        i
    }
}

/// ASCII upper case of a byte.
pub open spec fn upper_byte(x: u8) -> u8 {
    if 97u8 <= x <= 122u8 {
        (x - 32) as u8
    } else {
        x
    }
}

/// The part a marker word names: 0 configuration, 1 information, 2 header, 3 data,
/// 4 anything else.
pub open spec fn kind_of_word(w: Seq<u8>) -> nat {
    let u = w.map_values(|x: u8| upper_byte(x));
    if u == seq![67u8, 70u8, 71u8] {
        0
    } else if u == seq![73u8, 78u8, 70u8] {
        1
    } else if u == seq![72u8, 68u8, 82u8] {
        2
    } else if u == seq![68u8, 65u8, 84u8] {
        3
    } else {
        4
    }
}

/// The part named by the marker at `p`.
pub open spec fn marker_kind(b: Seq<u8>, p: int) -> nat {
    let e = line_end(b, p);
    let i = skip_sep(b, p + 13, e);
    let j = word_end(b, i, e);
    kind_of_word(b.subrange(i, j))
}

/// Where the part after the marker at `p` starts: after the marker's newline.
pub open spec fn content_start(b: Seq<u8>, p: int) -> int {
    let e = line_end(b, p);
    if e < b.len() {
        e + 1
    } else {
        e
    }
}

/// The first marker at or after `q`.
pub open spec fn next_marker(b: Seq<u8>, q: int) -> Option<int>
    decreases b.len() - q,
{
    if q < 0 || q >= b.len() {
        None
    } else if is_marker_at(b, q) {
        Some(q)
    } else {
        next_marker(b, q + 1)
    }
}

/// The raw parts found so far: configuration, information, header, data.
pub type RawParts = (Option<Seq<u8>>, Option<Seq<u8>>, Option<Seq<u8>>, Option<Seq<u8>>);

/// `parts` with part `k` set to `v` unless it is already set (or `k` names no part).
pub open spec fn keep_first(parts: RawParts, k: nat, v: Seq<u8>) -> RawParts {
    if k == 0 && parts.0 is None {
        (Some(v), parts.1, parts.2, parts.3)
    } else if k == 1 && parts.1 is None {
        (parts.0, Some(v), parts.2, parts.3)
    } else if k == 2 && parts.2 is None {
        (parts.0, parts.1, Some(v), parts.3)
    } else if k == 3 && parts.3 is None {
        (parts.0, parts.1, parts.2, Some(v))
    } else {
        parts
    }
}

/// The parts read from the marker at `p` on.
pub open spec fn parts_from(b: Seq<u8>, p: int, acc: RawParts) -> RawParts
    decreases b.len() - p,
{
    if !is_marker_at(b, p) {
        acc
    } else {
        let k = marker_kind(b, p);
        let s = content_start(b, p);
        if k == 3 {
            keep_first(acc, 3, b.subrange(s, b.len() as int))
        } else {
            match next_marker(b, s) {
                Some(q) => if p < q < b.len() {
                    parts_from(b, q, keep_first(acc, k, b.subrange(s, q)))
                } else {
                    acc
                },
                None => keep_first(acc, k, b.subrange(s, b.len() as int)),
            }
        }
    }
}

/// The raw parts of a combined file.
pub open spec fn raw_parts(b: Seq<u8>) -> RawParts {
    match next_marker(b, 0) {
        Some(p) => parts_from(b, p, (None, None, None, None)),
        None => (None, None, None, None),
    }
}

} // verus!

verus! {

proof fn lemma_line_end(b: Seq<u8>, p: int)
    requires
        0 <= p <= b.len(),
    ensures
        p <= line_end(b, p) <= b.len(),
        line_end(b, p) < b.len() ==> b[line_end(b, p)] == 10u8,
    decreases b.len() - p,
{
    if p < b.len() && b[p] != 10u8 {
        lemma_line_end(b, p + 1);
    }
}

proof fn lemma_next_marker(b: Seq<u8>, q: int)
    requires
        0 <= q,
    ensures
        next_marker(b, q) matches Some(p) ==> q <= p < b.len() && is_marker_at(b, p),
    decreases b.len() - q,
{
    if q < b.len() && !is_marker_at(b, q) {
        lemma_next_marker(b, q + 1);
    }
}

fn line_end_of(b: &[u8], p: usize) -> (e: usize)
    requires
        p <= b@.len(),
    ensures
        e as int == line_end(b@, p as int),
        p <= e <= b@.len(),
{
    let n = b.len();
    let mut i = p;
    while i < n && b[i] != 10
        invariant
            n == b@.len(),
            p <= i <= n,
            line_end(b@, i as int) == line_end(b@, p as int),
        decreases n - i,
    {
        i = i + 1;
    }
    i
}

fn marker_at(b: &[u8], p: usize) -> (r: bool)
    ensures
        r == is_marker_at(b@, p as int),
{
    let n = b.len();
    if p > n || n - p < 13 {
        return false;
    }
    if p > 0 && b[p - 1] != 10 {
        return false;
    }
    let m: [u8; 13] = [45, 45, 45, 32, 102, 105, 108, 101, 32, 116, 121, 112, 101];
    assert(m@ =~= marker_bytes());
    let mut k: usize = 0;
    while k < 13
        invariant
            n == b@.len(),
            p + 13 <= n,
            k <= 13,
            m@ == marker_bytes(),
            forall|j: int| 0 <= j < k ==> b@[p + j] == m@[j],
        decreases 13 - k,
    {
        if b[p + k] != m[k] {
            assert(b@.subrange(p as int, p as int + 13)[k as int] != marker_bytes()[k as int]);
            return false;
        }
        k = k + 1;
    }
    assert(b@.subrange(p as int, p as int + 13) =~= marker_bytes());
    true
}

fn find_marker_from(b: &[u8], q: usize) -> (r: Option<usize>)
    ensures
        match r {
            Some(p) => next_marker(b@, q as int) == Some(p as int),
            None => next_marker(b@, q as int) is None,
        },
{
    let n = b.len();
    let mut i = q;
    while i < n
        invariant
            n == b@.len(),
            q <= i,
            next_marker(b@, i as int) == next_marker(b@, q as int),
        decreases n - i,
    {
        if marker_at(b, i) {
            return Some(i);
        }
        i = i + 1;
    }
    None
}

fn kind_at(b: &[u8], p: usize) -> (k: usize)
    requires
        is_marker_at(b@, p as int),
    ensures
        k as nat == marker_kind(b@, p as int),
{
    let n = b.len();
    let e = line_end_of(b, p);
    proof {
        lemma_line_end(b@, p as int);
    }
    let mut i = p + 13;
    if i > e {
        i = e;
        assert(skip_sep(b@, p + 13, e as int) == p + 13);
        assert(word_end(b@, p + 13, e as int) == p + 13);
        assert(b@.subrange(p + 13, p + 13) =~= Seq::<u8>::empty());
        return 4;
    }
    let start = i;
    while i < e && (b[i] == 32 || b[i] == 58)
        invariant
            n == b@.len(),
            start <= i <= e <= n,
            skip_sep(b@, i as int, e as int) == skip_sep(b@, start as int, e as int),
        decreases e - i,
    {
        i = i + 1;
    }
    let ws = i;
    while i < e && (('A' as u8) <= b[i] && b[i] <= ('Z' as u8) || ('a' as u8) <= b[i] && b[i] <= (
    'z' as u8))
        invariant
            n == b@.len(),
            ws <= i <= e <= n,
            word_end(b@, i as int, e as int) == word_end(b@, ws as int, e as int),
        decreases e - i,
    {
        i = i + 1;
    }
    let ghost w = b@.subrange(ws as int, i as int);
    if i - ws != 3 {
        assert(w.map_values(|x: u8| upper_byte(x)).len() != 3);
        return 4;
    }
    let c0 = upper(b[ws]);
    let c1 = upper(b[ws + 1]);
    let c2 = upper(b[ws + 2]);
    let ghost u = w.map_values(|x: u8| upper_byte(x));
    assert(u[0] == c0 && u[1] == c1 && u[2] == c2);
    if c0 == 67 && c1 == 70 && c2 == 71 {
        assert(u =~= seq![67u8, 70u8, 71u8]);
        0
    } else if c0 == 73 && c1 == 78 && c2 == 70 {
        assert(u =~= seq![73u8, 78u8, 70u8]);
        1
    } else if c0 == 72 && c1 == 68 && c2 == 82 {
        assert(u =~= seq![72u8, 68u8, 82u8]);
        2
    } else if c0 == 68 && c1 == 65 && c2 == 84 {
        assert(u =~= seq![68u8, 65u8, 84u8]);
        3
    } else {
        assert(u != seq![67u8, 70u8, 71u8]);
        assert(u != seq![73u8, 78u8, 70u8]);
        assert(u != seq![72u8, 68u8, 82u8]);
        assert(u != seq![68u8, 65u8, 84u8]);
        4
    }
}

fn upper(x: u8) -> (r: u8)
    ensures
        r == upper_byte(x),
{
    if 97 <= x && x <= 122 {
        x - 32
    } else {
        x
    }
}

fn copy_range(b: &[u8], a: usize, e: usize) -> (r: Vec<u8>)
    requires
        a <= e <= b@.len(),
    ensures
        r@ == b@.subrange(a as int, e as int),
{
    let mut r: Vec<u8> = Vec::new();
    let mut k = a;
    while k < e
        invariant
            a <= k <= e,
            e <= b@.len(),
            r@ == b@.subrange(a as int, k as int),
        decreases e - k,
    {
        r.push(b[k]);
        k = k + 1;
        assert(r@ =~= b@.subrange(a as int, k as int));
    }
    r
}

/// The contents of an optional part.
pub open spec fn part_view(o: Option<Vec<u8>>) -> Option<Seq<u8>> {
    match o {
        Some(v) => Some(v@),
        None => None,
    }
}

fn keep(slot: &mut Option<Vec<u8>>, v: Vec<u8>)
    ensures
        part_view(*final(slot)) == (if *old(slot) is None {
            Some(v@)
        } else {
            part_view(*old(slot))
        }),
{
    if slot.is_none() {
        *slot = Some(v);
    }
}

/// Splits a combined file into its raw parts (see the module's description).
pub fn split_parts(b: &[u8]) -> (r: (Option<Vec<u8>>, Option<Vec<u8>>, Option<Vec<u8>>, Option<Vec<u8>>))
    ensures
        (part_view(r.0), part_view(r.1), part_view(r.2), part_view(r.3)) == raw_parts(b@),
{
    let n = b.len();
    let mut c0: Option<Vec<u8>> = None;
    let mut c1: Option<Vec<u8>> = None;
    let mut c2: Option<Vec<u8>> = None;
    let mut c3: Option<Vec<u8>> = None;
    let first = find_marker_from(b, 0);
    proof {
        lemma_next_marker(b@, 0);
    }
    let (mut p, mut active) = match first {
        Some(p) => (p, true),
        None => (0, false),
    };
    while active
        invariant
            n == b@.len(),
            p <= n,
            active ==> is_marker_at(b@, p as int),
            raw_parts(b@) == if active {
                parts_from(
                    b@,
                    p as int,
                    (part_view(c0), part_view(c1), part_view(c2), part_view(c3)),
                )
            } else {
                (part_view(c0), part_view(c1), part_view(c2), part_view(c3))
            },
        decreases n - p + (if active { 1int } else { 0int }),
    {
        let ghost acc = (part_view(c0), part_view(c1), part_view(c2), part_view(c3));
        let k = kind_at(b, p);
        let e = line_end_of(b, p);
        let s = if e < n { e + 1 } else { e };
        assert(s as int == content_start(b@, p as int));
        if k == 3 {
            keep(&mut c3, copy_range(b, s, n));
            active = false;
        } else {
            let next = find_marker_from(b, s);
            proof {
                lemma_next_marker(b@, s as int);
            }
            match next {
                Some(q) => {
                    if p < q && q < n {
                        let v = copy_range(b, s, q);
                        if k == 0 {
                            keep(&mut c0, v);
                        } else if k == 1 {
                            keep(&mut c1, v);
                        } else if k == 2 {
                            keep(&mut c2, v);
                        }
                        p = q;
                    } else {
                        active = false;
                    }
                },
                None => {
                    let v = copy_range(b, s, n);
                    if k == 0 {
                        keep(&mut c0, v);
                    } else if k == 1 {
                        keep(&mut c1, v);
                    } else if k == 2 {
                        keep(&mut c2, v);
                    }
                    active = false;
                },
            }
        }
    }
    (c0, c1, c2, c3)
}

} // verus!

verus! {

/// The parts of a combined file, decoded as text (the data part also kept as bytes).
#[derive(Debug, Clone, Default)]
pub struct CffSections {
    /// Configuration part.
    pub cfg: Option<String>,
    /// Information part.
    pub inf: Option<String>,
    /// Header part.
    pub hdr: Option<String>,
    /// Data part as text (for the ASCII layout).
    pub dat: Option<String>,
    /// Data part as bytes (for the binary layouts).
    pub dat_bytes: Option<Vec<u8>>,
}

/// A combined single file.
#[derive(Debug, Clone, Default)]
pub struct CffFile {
    /// Its parts.
    pub sections: CffSections,
}

/// The text of an optional part, decoded in the encoding detected for it.
pub open spec fn part_text(o: Option<Seq<u8>>) -> Option<Seq<char>> {
    match o {
        Some(v) => Some(decoded(v, detected(v))),
        None => None,
    }
}

/// The text of an optional string.
pub open spec fn string_view(o: Option<String>) -> Option<Seq<char>> {
    match o {
        Some(s) => Some(s@),
        None => None,
    }
}

fn decode_part(o: &Option<Vec<u8>>) -> (r: Option<String>)
    requires
        o matches Some(v) ==> v@.len() <= usize::MAX / 16,
    ensures
        string_view(r) == part_text(part_view(*o)),
{
    match o {
        Some(v) => Some(decode(v.as_slice())),
        None => None,
    }
}

proof fn lemma_parts_short(b: Seq<u8>)
    ensures
        ({
            let r = raw_parts(b);
            &&& r.0 matches Some(v) ==> v.len() <= b.len()
            &&& r.1 matches Some(v) ==> v.len() <= b.len()
            &&& r.2 matches Some(v) ==> v.len() <= b.len()
            &&& r.3 matches Some(v) ==> v.len() <= b.len()
        }),
{
    lemma_next_marker(b, 0);
    match next_marker(b, 0) {
        Some(p) => lemma_parts_from_short(b, p, (None, None, None, None)),
        None => {},
    }
}

/// Every part read lies within the bytes.
pub open spec fn parts_within(r: RawParts, n: nat) -> bool {
    &&& r.0 matches Some(v) ==> v.len() <= n
    &&& r.1 matches Some(v) ==> v.len() <= n
    &&& r.2 matches Some(v) ==> v.len() <= n
    &&& r.3 matches Some(v) ==> v.len() <= n
}

proof fn lemma_parts_from_short(b: Seq<u8>, p: int, acc: RawParts)
    requires
        0 <= p,
        parts_within(acc, b.len()),
    ensures
        parts_within(parts_from(b, p, acc), b.len()),
    decreases b.len() - p,
{
    if is_marker_at(b, p) {
        let k = marker_kind(b, p);
        let s = content_start(b, p);
        lemma_line_end(b, p);
        if k != 3 {
            lemma_next_marker(b, s);
            match next_marker(b, s) {
                Some(q) => {
                    if p < q < b.len() {
                        lemma_parts_from_short(b, q, keep_first(acc, k, b.subrange(s, q)));
                    }
                },
                None => {},
            }
        }
    }
}

impl CffFile {
    /// Splits a combined file into its parts; the text parts are decoded in the encoding
    /// detected for each (UTF-8 when valid, GBK otherwise).
    pub fn from_bytes(bytes: &[u8]) -> (r: CffFile)
        requires
            bytes@.len() <= usize::MAX / 16,
        ensures
            string_view(r.sections.cfg) == part_text(raw_parts(bytes@).0),
            string_view(r.sections.inf) == part_text(raw_parts(bytes@).1),
            string_view(r.sections.hdr) == part_text(raw_parts(bytes@).2),
            string_view(r.sections.dat) == part_text(raw_parts(bytes@).3),
            part_view(r.sections.dat_bytes) == raw_parts(bytes@).3,
    {
        let (c0, c1, c2, c3) = split_parts(bytes);
        proof {
            lemma_parts_short(bytes@);
        }
        let cfg = decode_part(&c0);
        let inf = decode_part(&c1);
        let hdr = decode_part(&c2);
        let dat = decode_part(&c3);
        CffFile { sections: CffSections { cfg, inf, hdr, dat, dat_bytes: c3 } }
    }

    /// The information part read as an information file, if there is one.
    pub fn to_inf(&self) -> (r: Option<InfFile>)
        ensures
            match self.sections.inf {
                Some(t) => r matches Some(f) && states(f.sections@) == parse_text(t@),
                None => r is None,
            },
    {
        match &self.sections.inf {
            Some(t) => Some(InfFile::from_str(t.as_str())),
            None => None,
        }
    }
}

} // verus!

verus! {

/// The marker line of a part: `--- file type NAME ---` and a newline.
pub open spec fn marker_line(name: Seq<u8>) -> Seq<u8> {
    marker_bytes() + seq![32u8] + name + seq![32u8, 45u8, 45u8, 45u8, 10u8]
}

/// The names `CFG`, `INF` and `DAT`.
pub open spec fn part_name(k: nat) -> Seq<u8> {
    if k == 0 {
        seq![67u8, 70u8, 71u8]
    } else if k == 1 {
        seq![73u8, 78u8, 70u8]
    } else {
        seq![68u8, 65u8, 84u8]
    }
}

/// A combined file as written: the configuration part, the information part when there
/// is one, each followed by a newline, then the data part.
pub open spec fn framed(cfg: Seq<u8>, inf: Option<Seq<u8>>, dat: Seq<u8>) -> Seq<u8> {
    let head = marker_line(part_name(0)) + cfg + seq![10u8];
    let mid = match inf {
        Some(i) => marker_line(part_name(1)) + i + seq![10u8],
        None => Seq::<u8>::empty(),
    };
    head + mid + marker_line(part_name(2)) + dat
}

/// The UTF-8 bytes of an optional text.
pub open spec fn text_bytes(o: Option<&str>) -> Option<Seq<u8>> {
    match o {
        Some(t) => Some(vstd::utf8::encode_utf8(t@)),
        None => None,
    }
}

fn push_bytes(out: &mut Vec<u8>, b: &[u8])
    ensures
        final(out)@ == old(out)@ + b@,
{
    let mut i: usize = 0;
    while i < b.len()
        invariant
            i <= b@.len(),
            out@ == old(out)@ + b@.take(i as int),
        decreases b.len() - i,
    {
        out.push(b[i]);
        i = i + 1;
        assert(out@ =~= old(out)@ + b@.take(i as int));
    }
    assert(b@.take(b@.len() as int) =~= b@);
}

fn push_marker(out: &mut Vec<u8>, k: usize)
    requires
        k <= 2,
    ensures
        final(out)@ == old(out)@ + marker_line(part_name(k as nat)),
{
    let (a, b, c): (u8, u8, u8) = if k == 0 {
        (67, 70, 71)
    } else if k == 1 {
        (73, 78, 70)
    } else {
        (68, 65, 84)
    };
    let m: [u8; 22] = [45, 45, 45, 32, 102, 105, 108, 101, 32, 116, 121, 112, 101, 32, a, b, c, 32,
        45, 45, 45, 10];
    assert(m@ =~= marker_line(part_name(k as nat)));
    push_bytes(out, &m);
}

impl CffFile {
    /// The bytes of a combined file with the given configuration text, optional
    /// information text and data bytes (see `framed`).
    pub fn encode_parts(cfg_text: &str, inf_text: Option<&str>, dat: &[u8]) -> (r: Vec<u8>)
        ensures
            r@ == framed(vstd::utf8::encode_utf8(cfg_text@), text_bytes(inf_text), dat@),
    {
        let mut out: Vec<u8> = Vec::new();
        push_marker(&mut out, 0);
        push_bytes(&mut out, cfg_text.as_bytes());
        out.push(10);
        match inf_text {
            Some(t) => {
                push_marker(&mut out, 1);
                push_bytes(&mut out, t.as_bytes());
                out.push(10);
            },
            None => {},
        }
        push_marker(&mut out, 2);
        push_bytes(&mut out, dat);
        assert(out@ =~= framed(vstd::utf8::encode_utf8(cfg_text@), text_bytes(inf_text), dat@));
        out
    }
}


/// Bytes holding a line that starts with `--- file type`.
pub open spec fn has_marker_line(c: Seq<u8>) -> bool {
    exists|q: int|
        0 <= q && q + 13 <= c.len() && (q == 0 || c[q - 1] == 10u8) && #[trigger] c.subrange(
            q,
            q + 13,
        ) == marker_bytes()
}

proof fn lemma_line_end_run(b: Seq<u8>, p: int, n: int)
    requires
        0 <= p,
        0 <= n,
        p + n < b.len(),
        forall|i: int| p <= i < p + n ==> #[trigger] b[i] != 10u8,
        b[p + n] == 10u8,
    ensures
        line_end(b, p) == p + n,
    decreases n,
{
    if n > 0 {
        lemma_line_end_run(b, p + 1, n - 1);
    }
}

/// A marker line written at `p` is read as a marker of its part.
proof fn lemma_marker_line_at(b: Seq<u8>, p: int, k: nat)
    requires
        0 <= p,
        k <= 2,
        p + 22 <= b.len(),
        b.subrange(p, p + 22) == marker_line(part_name(k)),
        p == 0 || b[p - 1] == 10u8,
    ensures
        is_marker_at(b, p),
        marker_kind(b, p) == (if k == 2 {
            3nat
        } else {
            k
        }),
        content_start(b, p) == p + 22,
{
    let m = marker_line(part_name(k));
    assert forall|i: int| 0 <= i < 22 implies #[trigger] b[p + i] == m[i] by {
        assert(b.subrange(p, p + 22)[i] == b[p + i]);
    }
    assert(b.subrange(p, p + 13) =~= marker_bytes()) by {
        assert forall|i: int| 0 <= i < 13 implies #[trigger] b.subrange(p, p + 13)[i]
            == marker_bytes()[i] by {
            assert(b[p + i] == m[i]);
        }
    }
    assert forall|i: int| p <= i < p + 21 implies #[trigger] b[i] != 10u8 by {
        assert(b[p + (i - p)] == m[i - p]);
    }
    assert(b[p + 21] == m[21]);
    lemma_line_end_run(b, p, 21);
    let e = p + 21;
    assert(b[p + 13] == m[13]);
    assert(b[p + 14] == m[14]);
    assert(b[p + 15] == m[15]);
    assert(b[p + 16] == m[16]);
    assert(b[p + 17] == m[17]);
    assert(skip_sep(b, p + 14, e) == p + 14);
    assert(skip_sep(b, p + 13, e) == p + 14);
    assert(word_end(b, p + 17, e) == p + 17);
    assert(word_end(b, p + 16, e) == p + 17);
    assert(word_end(b, p + 15, e) == p + 17);
    assert(word_end(b, p + 14, e) == p + 17);
    let w = b.subrange(p + 14, p + 17);
    assert(w =~= part_name(k));
    assert(w.map_values(|x: u8| upper_byte(x)) =~= part_name(k));
}

/// No marker starts within text that has no marker line, written after a newline and
/// followed by one.
proof fn lemma_no_marker_in(b: Seq<u8>, s: int, c: Seq<u8>, t: int)
    requires
        1 <= s,
        b[s - 1] == 10u8,
        s + c.len() < b.len(),
        b.subrange(s, s + c.len()) == c,
        b[s + c.len()] == 10u8,
        !has_marker_line(c),
        s <= t <= s + c.len(),
    ensures
        !is_marker_at(b, t),
{
    if is_marker_at(b, t) {
        let n = c.len() as int;
        if t + 13 <= s + n {
            let q = t - s;
            assert(c.subrange(q, q + 13) =~= b.subrange(t, t + 13)) by {
                assert forall|i: int| 0 <= i < 13 implies #[trigger] c.subrange(q, q + 13)[i]
                    == b.subrange(t, t + 13)[i] by {
                    assert(c[q + i] == b.subrange(s, s + n)[q + i]);
                }
            }
            if q > 0 {
                assert(c[q - 1] == b.subrange(s, s + n)[q - 1]);
            }
            assert(has_marker_line(c));
        } else {
            let j = s + n - t;
            assert(b.subrange(t, t + 13)[j] == b[s + n]);
            assert(marker_bytes()[j] != 10u8);
        }
    }
}

proof fn lemma_next_marker_skip(b: Seq<u8>, s: int, e: int)
    requires
        0 <= s <= e <= b.len(),
        forall|t: int| s <= t < e ==> !is_marker_at(b, t),
    ensures
        next_marker(b, s) == next_marker(b, e),
    decreases e - s,
{
    if s < e {
        lemma_next_marker_skip(b, s + 1, e);
    }
}

/// After a part written at `s` (after its marker line) and its newline, the next marker is
/// the one that follows.
proof fn lemma_part_then_marker(b: Seq<u8>, s: int, c: Seq<u8>)
    requires
        1 <= s,
        b[s - 1] == 10u8,
        s + c.len() < b.len(),
        b.subrange(s, s + c.len()) == c,
        b[s + c.len()] == 10u8,
        !has_marker_line(c),
        is_marker_at(b, s + c.len() + 1),
    ensures
        next_marker(b, s) == Some(s + c.len() + 1),
        b.subrange(s, s + c.len() + 1) == c.push(10u8),
{
    let e = s + c.len() + 1;
    assert forall|t: int| s <= t < e implies !is_marker_at(b, t) by {
        lemma_no_marker_in(b, s, c, t);
    }
    lemma_next_marker_skip(b, s, e);
    assert(b.subrange(s, e) =~= c.push(10u8)) by {
        assert forall|i: int| 0 <= i < c.len() implies #[trigger] b.subrange(s, e)[i] == c[i] by {
            assert(b.subrange(s, s + c.len())[i] == b[s + i]);
        }
    }
}

/// Writing a combined file and splitting it gives back its parts, each text part with the
/// newline written after it, provided no line of a text part starts with `--- file type`.
pub proof fn lemma_frame_read_back(cfg: Seq<u8>, inf: Option<Seq<u8>>, dat: Seq<u8>)
    requires
        !has_marker_line(cfg),
        inf matches Some(i) ==> !has_marker_line(i),
    ensures
        raw_parts(framed(cfg, inf, dat)) == (
            Some(cfg.push(10u8)),
            match inf {
                Some(i) => Some(i.push(10u8)),
                None => None::<Seq<u8>>,
            },
            None::<Seq<u8>>,
            Some(dat),
        ),
{
    let b = framed(cfg, inf, dat);
    let m0 = marker_line(part_name(0));
    let m2 = marker_line(part_name(2));
    let head = m0 + cfg + seq![10u8];
    let mid = match inf {
        Some(i) => marker_line(part_name(1)) + i + seq![10u8],
        None => Seq::<u8>::empty(),
    };
    let q1 = head.len() as int;
    let q2 = q1 + mid.len();
    assert(b == head + mid + m2 + dat);
    assert(b.subrange(0, 22) =~= m0);
    lemma_marker_line_at(b, 0, 0);
    assert(next_marker(b, 0) == Some(0int));
    // the data marker and the data part
    assert(b.subrange(q2, q2 + 22) =~= m2);
    assert(b[q2 - 1] == 10u8) by {
        match inf {
            Some(i) => {
                assert(b[q2 - 1] == mid[mid.len() - 1]);
            },
            None => {
                assert(b[q2 - 1] == head[head.len() - 1]);
            },
        }
    }
    lemma_marker_line_at(b, q2, 2);
    assert(b.subrange(q2 + 22, b.len() as int) =~= dat);
    // the configuration part
    assert(b.subrange(22, 22 + cfg.len() as int) =~= cfg);
    assert(b[21] == 10u8);
    assert(b[22 + cfg.len() as int] == 10u8);
    let empty: RawParts = (None, None, None, None);
    match inf {
        Some(i) => {
            let m1 = marker_line(part_name(1));
            assert(b.subrange(q1, q1 + 22) =~= m1);
            assert(b[q1 - 1] == 10u8);
            lemma_marker_line_at(b, q1, 1);
            lemma_part_then_marker(b, 22, cfg);
            assert(b.subrange(q1 + 22, q1 + 22 + i.len()) =~= i);
            assert(b[q1 + 21] == 10u8);
            assert(b[q1 + 22 + i.len()] == 10u8);
            lemma_part_then_marker(b, q1 + 22, i);
            let acc1 = keep_first(empty, 0, cfg.push(10u8));
            let acc2 = keep_first(acc1, 1, i.push(10u8));
            assert(parts_from(b, q2, acc2) == keep_first(acc2, 3, dat));
            assert(parts_from(b, q1, acc1) == parts_from(b, q2, acc2));
            assert(parts_from(b, 0, empty) == parts_from(b, q1, acc1));
        },
        None => {
            lemma_part_then_marker(b, 22, cfg);
            let acc1 = keep_first(empty, 0, cfg.push(10u8));
            assert(parts_from(b, q2, acc1) == keep_first(acc1, 3, dat));
            assert(parts_from(b, 0, empty) == parts_from(b, q2, acc1));
        },
    }
}

} // verus!
