//! A small pull reader for the XML of device model files.
//!
//! It skips the declaration and comments, reads CDATA sections as text, gives start,
//! self-closing and end tags by their local name (the namespace prefix dropped) with
//! their attributes (single or double quotes), with the entities `&amp;` `&lt;` `&gt;`
//! `&quot;` `&apos;` of their values decoded, and trims character data.

use vstd::prelude::*;
use vstd::utf8::{decode_utf8, valid_utf8};

use crate::encoding::{ascii_chars, copy_bytes, utf8_lossy_string, utf8_ok};
use crate::error::{Error, XmlReason};
use crate::inf::fields_view;
use crate::text::{chars_to_string, last_index_of, occurs_at, occurs_at_chars, rfind_char, slice_chars, str_chars, trim, trim_chars};

verus! {

/// ASCII white space as `u8::is_ascii_whitespace` sees it: space, tab, line feed, form
/// feed, carriage return.
pub open spec fn is_space(b: u8) -> bool {
    b == 0x20u8 || b == 0x09u8 || b == 0x0au8 || b == 0x0cu8 || b == 0x0du8
}

/// Bytes that may stand in a tag or attribute name: ASCII letters and digits, `_`, `:`
/// and `-`.
pub open spec fn is_name_byte(b: u8) -> bool {
    (0x30u8 <= b && b <= 0x39u8) || (0x41u8 <= b && b <= 0x5au8) || (0x61u8 <= b && b <= 0x7au8)
        || b == 0x5fu8 || b == 0x3au8 || b == 0x2du8
}

/// The first position at or after `p` that holds no white space (the end if none does).
pub open spec fn skip_spaces(s: Seq<u8>, p: int) -> int
    decreases s.len() - p,
{
    if 0 <= p < s.len() && is_space(s[p]) {
        skip_spaces(s, p + 1)
    } else {
        p
    }
}

/// The first position at or after `p` that holds no name byte.
pub open spec fn name_end(s: Seq<u8>, p: int) -> int
    decreases s.len() - p,
{
    if 0 <= p < s.len() && is_name_byte(s[p]) {
        name_end(s, p + 1)
    } else {
        p
    }
}

/// The first position at or after `p` that holds `c` (the end if none does).
pub open spec fn find_byte(s: Seq<u8>, p: int, c: u8) -> int
    decreases s.len() - p,
{
    if 0 <= p < s.len() && s[p] != c {
        find_byte(s, p + 1, c)
    } else {
        p
    }
}

/// The three bytes `a b c` stand at `i`.
pub open spec fn closer_at(s: Seq<u8>, i: int, a: u8, b: u8, c: u8) -> bool {
    0 <= i && i + 2 < s.len() && s[i] == a && s[i + 1] == b && s[i + 2] == c
}

/// The first position at or after `p` where `a b c` stand.
pub open spec fn find_closer(s: Seq<u8>, p: int, a: u8, b: u8, c: u8) -> Option<int>
    decreases s.len() - p,
{
    if 0 <= p && p + 2 < s.len() {
        if closer_at(s, p, a, b, c) {
            Some(p)
        } else {
            find_closer(s, p + 1, a, b, c)
        }
    } else {
        None
    }
}

/// Where a search for a closer that starts at `p` gives up: two bytes before the end.
pub open spec fn closer_stop(s: Seq<u8>, p: int) -> int {
    if p + 2 < s.len() {
        s.len() - 2
    } else {
        p
    }
}

/// The position just after a `>` searched from `p` (the end when there is none).
pub open spec fn past_gt(s: Seq<u8>, p: int) -> int {
    let f = find_byte(s, p, 0x3eu8);
    if f < s.len() {
        f + 1
    } else {
        s.len() as int
    }
}

/// A name without its namespace prefix: what follows the last `:`.
pub open spec fn local_part(n: Seq<char>) -> Seq<char> {
    match last_index_of(n, ':') {
        Some(i) => n.skip(i + 1),
        None => n,
    }
}

/// The name read at `p` (after white space) and the position after it.
pub open spec fn name_at(s: Seq<u8>, p: int) -> (Seq<char>, int) {
    let q = skip_spaces(s, p);
    let e = name_end(s, q);
    (local_part(ascii_chars(s.subrange(q, e))), e)
}

pub proof fn lemma_skip_spaces(s: Seq<u8>, p: int)
    requires
        0 <= p,
    ensures
        p <= skip_spaces(s, p),
        p <= s.len() ==> skip_spaces(s, p) <= s.len(),
        skip_spaces(s, p) < s.len() ==> !is_space(s[skip_spaces(s, p)]),
        forall|i: int| p <= i < skip_spaces(s, p) ==> is_space(#[trigger] s[i]),
    decreases s.len() - p,
{
    if 0 <= p < s.len() && is_space(s[p]) {
        lemma_skip_spaces(s, p + 1);
    }
}

pub proof fn lemma_name_end(s: Seq<u8>, p: int)
    requires
        0 <= p,
    ensures
        p <= name_end(s, p),
        p <= s.len() ==> name_end(s, p) <= s.len(),
        name_end(s, p) < s.len() ==> !is_name_byte(s[name_end(s, p)]),
        forall|i: int| p <= i < name_end(s, p) ==> is_name_byte(#[trigger] s[i]),
    decreases s.len() - p,
{
    if 0 <= p < s.len() && is_name_byte(s[p]) {
        lemma_name_end(s, p + 1);
    }
}

pub proof fn lemma_find_byte(s: Seq<u8>, p: int, c: u8)
    requires
        0 <= p,
    ensures
        p <= find_byte(s, p, c),
        p <= s.len() ==> find_byte(s, p, c) <= s.len(),
        find_byte(s, p, c) < s.len() ==> s[find_byte(s, p, c)] == c,
        forall|i: int| p <= i < find_byte(s, p, c) ==> #[trigger] s[i] != c,
    decreases s.len() - p,
{
    if 0 <= p < s.len() && s[p] != c {
        lemma_find_byte(s, p + 1, c);
    }
}

pub proof fn lemma_find_closer(s: Seq<u8>, p: int, a: u8, b: u8, c: u8)
    requires
        0 <= p,
    ensures
        find_closer(s, p, a, b, c) matches Some(i) ==> p <= i && i + 2 < s.len() && closer_at(
            s,
            i,
            a,
            b,
            c,
        ),
    decreases s.len() - p,
{
    if 0 <= p && p + 2 < s.len() && !closer_at(s, p, a, b, c) {
        lemma_find_closer(s, p + 1, a, b, c);
    }
}

pub proof fn lemma_name_at(s: Seq<u8>, p: int)
    requires
        0 <= p <= s.len(),
    ensures
        p <= name_at(s, p).1 <= s.len(),
        name_at(s, p).0.len() > 0 ==> p < name_at(s, p).1,
{
    let q = skip_spaces(s, p);
    lemma_skip_spaces(s, p);
    lemma_name_end(s, q);
    let e = name_end(s, q);
    let n = ascii_chars(s.subrange(q, e));
    if e == q {
        assert(n.len() == 0);
        match last_index_of(n, ':') {
            Some(i) => {
                crate::text::lemma_last_index_of(n, ':');
            },
            None => {},
        }
    }
}

/// An event of the reader.
#[derive(Debug, Clone, PartialEq, Eq)]
pub enum XmlEvent {
    /// A start tag, self-closing when `empty`.
    Start { name: String, attrs: Vec<(String, String)>, empty: bool },
    /// An end tag.
    End { name: String },
    /// Character data (trimmed, never empty) or a CDATA section.
    Text(String),
    /// The end of the input.
    Eof,
}

/// An event as values.
pub enum XmlEventView {
    Start { name: Seq<char>, attrs: Seq<(Seq<char>, Seq<char>)>, empty: bool },
    End { name: Seq<char> },
    Text(Seq<char>),
    Eof,
}

impl View for XmlEvent {
    type V = XmlEventView;

    open spec fn view(&self) -> XmlEventView {
        match self {
            XmlEvent::Start { name, attrs, empty } => XmlEventView::Start {
                name: name@,
                attrs: fields_view(attrs@),
                empty: *empty,
            },
            XmlEvent::End { name } => XmlEventView::End { name: name@ },
            XmlEvent::Text(t) => XmlEventView::Text(t@),
            XmlEvent::Eof => XmlEventView::Eof,
        }
    }
}

/// The length of the entity at the start of `s` (`&amp;` `&lt;` `&gt;` `&quot;`
/// `&apos;`), 0 when none stands there.
pub open spec fn entity_len(s: Seq<char>) -> int {
    if occurs_at(s, seq!['&', 'a', 'm', 'p', ';'], 0) {
        5
    } else if occurs_at(s, seq!['&', 'l', 't', ';'], 0) || occurs_at(s, seq!['&', 'g', 't', ';'], 0) {
        4
    } else if occurs_at(s, seq!['&', 'q', 'u', 'o', 't', ';'], 0) || occurs_at(
        s,
        seq!['&', 'a', 'p', 'o', 's', ';'],
        0,
    ) {
        6
    } else {
        0
    }
}

/// The character that the entity at the start of `s` stands for.
pub open spec fn entity_char(s: Seq<char>) -> char {
    if occurs_at(s, seq!['&', 'a', 'm', 'p', ';'], 0) {
        '&'
    } else if occurs_at(s, seq!['&', 'l', 't', ';'], 0) {
        '<'
    } else if occurs_at(s, seq!['&', 'g', 't', ';'], 0) {
        '>'
    } else if occurs_at(s, seq!['&', 'q', 'u', 'o', 't', ';'], 0) {
        '"'
    } else {
        '\''
    }
}

/// `s` with its entities decoded, from the left.
pub open spec fn unescaped(s: Seq<char>) -> Seq<char>
    decreases s.len(),
{
    if s.len() == 0 {
        s
    } else if entity_len(s) > 0 {
        seq![entity_char(s)] + unescaped(s.skip(entity_len(s)))
    } else {
        seq![s[0]] + unescaped(s.skip(1))
    }
}

/// The entity at position `i` of `s`: its length (0 for none) and its character.
fn entity_from(s: &[char], i: usize) -> (r: (usize, char))
    requires
        i <= s@.len(),
    ensures
        r.0 as int == entity_len(s@.skip(i as int)),
        r.0 > 0 ==> r.1 == entity_char(s@.skip(i as int)),
{
    let amp = vec!['&', 'a', 'm', 'p', ';'];
    let lt = vec!['&', 'l', 't', ';'];
    let gt = vec!['&', 'g', 't', ';'];
    let quot = vec!['&', 'q', 'u', 'o', 't', ';'];
    let apos = vec!['&', 'a', 'p', 'o', 's', ';'];
    let ghost t = s@.skip(i as int);
    proof {
        assert(amp@ =~= seq!['&', 'a', 'm', 'p', ';']);
        assert(lt@ =~= seq!['&', 'l', 't', ';']);
        assert(gt@ =~= seq!['&', 'g', 't', ';']);
        assert(quot@ =~= seq!['&', 'q', 'u', 'o', 't', ';']);
        assert(apos@ =~= seq!['&', 'a', 'p', 'o', 's', ';']);
        assert forall|lit: Seq<char>| occurs_at(s@, lit, i as int) == occurs_at(t, lit, 0) by {
            if i + lit.len() <= s@.len() {
                assert(s@.subrange(i as int, i + lit.len()) =~= t.subrange(0, lit.len() as int));
            }
        }
    }
    if occurs_at_chars(s, &amp, i) {
        (5, '&')
    } else if occurs_at_chars(s, &lt, i) {
        (4, '<')
    } else if occurs_at_chars(s, &gt, i) {
        (4, '>')
    } else if occurs_at_chars(s, &quot, i) {
        (6, '"')
    } else if occurs_at_chars(s, &apos, i) {
        (6, '\'')
    } else {
        (0, ' ')
    }
}

/// Decodes the entities of `s` (see `unescaped`).
pub fn unescape(s: &str) -> (r: String)
    ensures
        r@ == unescaped(s@),
{
    let cs = str_chars(s);
    let mut out: Vec<char> = Vec::new();
    let mut i: usize = 0;
    assert(cs@.skip(0) =~= cs@);
    while i < cs.len()
        invariant
            i <= cs@.len(),
            unescaped(cs@) == out@ + unescaped(cs@.skip(i as int)),
        decreases cs.len() - i,
    {
        let ghost t = cs@.skip(i as int);
        let (n, c) = entity_from(cs.as_slice(), i);
        if n > 0 {
            assert(t.skip(n as int) =~= cs@.skip(i + n));
            out.push(c);
            i = i + n;
        } else {
            assert(t.skip(1) =~= cs@.skip(i + 1));
            out.push(cs[i]);
            i = i + 1;
        }
    }
    assert(cs@.skip(i as int) =~= Seq::<char>::empty());
    assert(out@ =~= unescaped(cs@));
    chars_to_string(out.as_slice())
}

/// What reading an attribute value gives: the value and the position after it, or the
/// position of a value that is not UTF-8.
pub enum ValueOutcome {
    Got(Seq<char>, int),
    Failed(int),
}

/// The attribute value at `p`: the text between matching quotes (the closing quote may be
/// missing at the end of the input), its entities decoded; empty, without moving, when no quote stands at `p`.
pub open spec fn value_at(s: Seq<u8>, p: int) -> ValueOutcome {
    if p >= s.len() || (s[p] != 0x22u8 && s[p] != 0x27u8) {
        ValueOutcome::Got(seq![], p)
    } else {
        let start = p + 1;
        let end = find_byte(s, start, s[p]);
        let bytes = s.subrange(start, end);
        if valid_utf8(bytes) {
            ValueOutcome::Got(
                unescaped(decode_utf8(bytes)),
                if end < s.len() {
                    end + 1
                } else {
                    end
                },
            )
        } else {
            ValueOutcome::Failed(start)
        }
    }
}

/// What reading attributes gives: the attributes and the position after them, or the
/// position of a value that is not UTF-8.
pub enum AttrsOutcome {
    Done(Seq<(Seq<char>, Seq<char>)>, int),
    Failed(int),
}

/// `a` put in front of the attributes of an outcome.
pub open spec fn prepend(a: Seq<(Seq<char>, Seq<char>)>, o: AttrsOutcome) -> AttrsOutcome {
    match o {
        AttrsOutcome::Done(rest, z) => AttrsOutcome::Done(a + rest, z),
        AttrsOutcome::Failed(x) => AttrsOutcome::Failed(x),
    }
}

/// The attributes from `p` on: `name = value` pairs separated by white space, up to `>`,
/// `/`, the end, a name that is empty after its prefix, or a name without `=`.
pub open spec fn attrs_at(s: Seq<u8>, p: int) -> AttrsOutcome
    decreases s.len() - p,
{
    let q = skip_spaces(s, p);
    if p < 0 || q >= s.len() || s[q] == 0x3eu8 || s[q] == 0x2fu8 {
        AttrsOutcome::Done(seq![], q)
    } else {
        let (name, e) = name_at(s, q);
        if name.len() == 0 {
            AttrsOutcome::Done(seq![], e)
        } else {
            let r = skip_spaces(s, e);
            if r < s.len() && s[r] == 0x3du8 {
                let v = skip_spaces(s, r + 1);
                match value_at(s, v) {
                    ValueOutcome::Failed(x) => AttrsOutcome::Failed(x),
                    ValueOutcome::Got(val, after) => {
                        proof {
                            lemma_skip_spaces(s, p);
                            lemma_name_at(s, q);
                            lemma_skip_spaces(s, e);
                            lemma_skip_spaces(s, r + 1);
                            lemma_value_at(s, v);
                        }
                        prepend(seq![(name, val)], attrs_at(s, after))
                    },
                }
            } else {
                AttrsOutcome::Done(seq![], r)
            }
        }
    }
}

pub proof fn lemma_value_at(s: Seq<u8>, p: int)
    requires
        0 <= p <= s.len(),
    ensures
        value_at(s, p) matches ValueOutcome::Got(_, after) ==> p <= after <= s.len() && (p
            < s.len() && (s[p] == 0x22u8 || s[p] == 0x27u8) ==> p < after),
{
    if p < s.len() && (s[p] == 0x22u8 || s[p] == 0x27u8) {
        lemma_find_byte(s, p + 1, s[p]);
    }
}

/// The bytes `lit` stand at `i`.
pub open spec fn starts_at(s: Seq<u8>, i: int, lit: Seq<u8>) -> bool {
    0 <= i && i + lit.len() <= s.len() && s.subrange(i, i + lit.len()) == lit
}

/// The bytes `[CDATA[`.
pub open spec fn cdata_open() -> Seq<u8> {
    seq![0x5bu8, 0x43u8, 0x44u8, 0x41u8, 0x54u8, 0x41u8, 0x5bu8]
}

/// What reading an event gives: the event and the position after it, or the position and
/// the reason of an error.
pub enum EventOutcome {
    Event(XmlEventView, int),
    Failed(int, XmlReason),
}

/// The event read from position `p`.
///
/// White space is skipped first. At the end: `Eof`. At `<`: an error if nothing follows;
/// `<?` skips to past the next `>` and reads on; `<!--` skips past `-->` and reads on (an
/// error if none follows); `<![CDATA[` gives the text up to `]]>` (an error if there is
/// none or it is not UTF-8); any other `<!` reads on after the `!`; `</` gives an end tag
/// named by the name that follows, and moves past the next `>`; otherwise a start tag: its
/// name, its attributes, `/` before `>` for a self-closing tag, and the `>`. Anything else
/// is character data up to the next `<`: an error if it is not UTF-8, read on if it is
/// white space only, else the trimmed text.
pub open spec fn event_at(s: Seq<u8>, p: int) -> EventOutcome
    decreases s.len() - p,
{
    let q = skip_spaces(s, p);
    if p < 0 || q >= s.len() {
        EventOutcome::Event(XmlEventView::Eof, q)
    } else if s[q] == 0x3cu8 {
        let r = q + 1;
        if r >= s.len() {
            EventOutcome::Failed(r, XmlReason::UnexpectedEnd)
        } else if s[r] == 0x3fu8 {
            let t = past_gt(s, r);
            proof {
                lemma_skip_spaces(s, p);
                lemma_find_byte(s, r, 0x3eu8);
            }
            event_at(s, t)
        } else if s[r] == 0x21u8 {
            let r1 = r + 1;
            if starts_at(s, r1, seq![0x2du8, 0x2du8]) {
                let c = r1 + 2;
                match find_closer(s, c, 0x2du8, 0x2du8, 0x3eu8) {
                    Some(i) => {
                        proof {
                            lemma_skip_spaces(s, p);
                            lemma_find_closer(s, c, 0x2du8, 0x2du8, 0x3eu8);
                        }
                        event_at(s, i + 3)
                    },
                    None => EventOutcome::Failed(closer_stop(s, c), XmlReason::UnclosedComment),
                }
            } else if starts_at(s, r1, cdata_open()) {
                let c = r1 + 7;
                match find_closer(s, c, 0x5du8, 0x5du8, 0x3eu8) {
                    Some(i) => {
                        let bytes = s.subrange(c, i);
                        if valid_utf8(bytes) {
                            EventOutcome::Event(XmlEventView::Text(decode_utf8(bytes)), i + 3)
                        } else {
                            EventOutcome::Failed(c, XmlReason::InvalidCdataUtf8)
                        }
                    },
                    None => EventOutcome::Failed(c, XmlReason::UnclosedCdata),
                }
            } else {
                proof {
                    lemma_skip_spaces(s, p);
                }
                event_at(s, r1)
            }
        } else if s[r] == 0x2fu8 {
            let (name, e) = name_at(s, r + 1);
            EventOutcome::Event(XmlEventView::End { name }, past_gt(s, e))
        } else {
            let (name, e) = name_at(s, r);
            match attrs_at(s, e) {
                AttrsOutcome::Failed(x) => EventOutcome::Failed(x, XmlReason::InvalidAttrUtf8),
                AttrsOutcome::Done(list, a) => {
                    let w = skip_spaces(s, a);
                    let empty = w < s.len() && s[w] == 0x2fu8;
                    let w2 = if empty {
                        w + 1
                    } else {
                        w
                    };
                    let w3 = if w2 < s.len() && s[w2] == 0x3eu8 {
                        w2 + 1
                    } else {
                        w2
                    };
                    EventOutcome::Event(XmlEventView::Start { name, attrs: list, empty }, w3)
                },
            }
        }
    } else {
        let e = find_byte(s, q, 0x3cu8);
        let bytes = s.subrange(q, e);
        if !valid_utf8(bytes) {
            EventOutcome::Failed(q, XmlReason::InvalidTextUtf8)
        } else {
            let t = trim(decode_utf8(bytes));
            if t.len() > 0 {
                EventOutcome::Event(XmlEventView::Text(t), e)
            } else {
                proof {
                    lemma_skip_spaces(s, p);
                    lemma_find_byte(s, q, 0x3cu8);
                }
                event_at(s, e)
            }
        }
    }
}

fn skip_spaces_from(s: &[u8], p: usize) -> (r: usize)
    requires
        p <= s@.len(),
    ensures
        r == skip_spaces(s@, p as int),
        p <= r <= s@.len(),
{
    let mut k = p;
    while k < s.len() && (s[k] == 0x20 || s[k] == 0x09 || s[k] == 0x0a || s[k] == 0x0c || s[k]
        == 0x0d)
        invariant
            p <= k <= s@.len(),
            skip_spaces(s@, k as int) == skip_spaces(s@, p as int),
        decreases s.len() - k,
    {
        k = k + 1;
    }
    k
}

fn name_end_from(s: &[u8], p: usize) -> (r: usize)
    requires
        p <= s@.len(),
    ensures
        r == name_end(s@, p as int),
        p <= r <= s@.len(),
{
    let mut k = p;
    while k < s.len() && ((0x30 <= s[k] && s[k] <= 0x39) || (0x41 <= s[k] && s[k] <= 0x5a) || (0x61
        <= s[k] && s[k] <= 0x7a) || s[k] == 0x5f || s[k] == 0x3a || s[k] == 0x2d)
        invariant
            p <= k <= s@.len(),
            name_end(s@, k as int) == name_end(s@, p as int),
        decreases s.len() - k,
    {
        k = k + 1;
    }
    k
}

fn find_byte_from(s: &[u8], p: usize, c: u8) -> (r: usize)
    requires
        p <= s@.len(),
    ensures
        r == find_byte(s@, p as int, c),
        p <= r <= s@.len(),
{
    let mut k = p;
    while k < s.len() && s[k] != c
        invariant
            p <= k <= s@.len(),
            find_byte(s@, k as int, c) == find_byte(s@, p as int, c),
        decreases s.len() - k,
    {
        k = k + 1;
    }
    k
}

fn find_closer_from(s: &[u8], p: usize, a: u8, b: u8, c: u8) -> (r: Option<usize>)
    requires
        p <= s@.len(),
    ensures
        match r {
            Some(i) => find_closer(s@, p as int, a, b, c) == Some(i as int) && i + 2 < s@.len(),
            None => find_closer(s@, p as int, a, b, c) is None,
        },
{
    let n = s.len();
    let mut k = p;
    while n >= 3 && k < n - 2
        invariant
            p <= k <= s@.len(),
            n == s@.len(),
            find_closer(s@, k as int, a, b, c) == find_closer(s@, p as int, a, b, c),
        decreases s.len() - k,
    {
        if s[k] == a && s[k + 1] == b && s[k + 2] == c {
            return Some(k);
        }
        k = k + 1;
    }
    None
}

} // verus!

verus! {

/// The name at `p` (see `name_at`) and the position after it.
fn name_from(s: &[u8], p: usize) -> (r: (String, usize))
    requires
        p <= s@.len(),
    ensures
        r.0@ == name_at(s@, p as int).0,
        r.1 == name_at(s@, p as int).1,
        p <= r.1 <= s@.len(),
{
    let q = skip_spaces_from(s, p);
    let e = name_end_from(s, q);
    let mut cs: Vec<char> = Vec::new();
    let mut k = q;
    while k < e
        invariant
            q <= k <= e <= s@.len(),
            cs@ == ascii_chars(s@.subrange(q as int, k as int)),
        decreases e - k,
    {
        cs.push(s[k] as char);
        k = k + 1;
        assert(cs@ =~= ascii_chars(s@.subrange(q as int, k as int)));
    }
    let local = match rfind_char(cs.as_slice(), ':') {
        Some(i) => {
            proof { crate::text::lemma_last_index_of(cs@, ':'); }
            let l = slice_chars(cs.as_slice(), i + 1, cs.len());
            assert(l@ =~= cs@.skip(i + 1));
            l
        },
        None => cs,
    };
    (chars_to_string(local.as_slice()), e)
}

/// Text of the bytes from `a` to `b` when they are UTF-8.
fn utf8_between(s: &[u8], a: usize, b: usize) -> (r: Option<String>)
    requires
        a <= b <= s@.len(),
    ensures
        match r {
            Some(t) => valid_utf8(s@.subrange(a as int, b as int)) && t@ == decode_utf8(
                s@.subrange(a as int, b as int),
            ),
            None => !valid_utf8(s@.subrange(a as int, b as int)),
        },
{
    let bytes = copy_bytes(s, a, b);
    if utf8_ok(bytes.as_slice()) {
        Some(utf8_lossy_string(bytes.as_slice()))
    } else {
        None
    }
}

/// The attribute value at `p` (see `value_at`).
fn value_from(s: &[u8], p: usize) -> (r: Result<(String, usize), usize>)
    requires
        p <= s@.len(),
    ensures
        match value_at(s@, p as int) {
            ValueOutcome::Got(v, after) => r matches Ok((t, z)) && t@ == v && z == after,
            ValueOutcome::Failed(x) => r == Err::<(String, usize), usize>(x as usize),
        },
{
    if p >= s.len() || (s[p] != 0x22 && s[p] != 0x27) {
        return Ok((String::new(), p));
    }
    let quote = s[p];
    let start = p + 1;
    let end = find_byte_from(s, start, quote);
    match utf8_between(s, start, end) {
        Some(v) => Ok((unescape(v.as_str()), if end < s.len() { end + 1 } else { end })),
        None => Err(start),
    }
}

pub proof fn lemma_prepend_prepend(a: Seq<(Seq<char>, Seq<char>)>, b: Seq<(Seq<char>, Seq<char>)>, o: AttrsOutcome)
    ensures
        prepend(a, prepend(b, o)) == prepend(a + b, o),
{
    match o {
        AttrsOutcome::Done(rest, z) => {
            assert(a + (b + rest) =~= (a + b) + rest);
        },
        AttrsOutcome::Failed(_) => {},
    }
}

/// The attributes from `p` on (see `attrs_at`).
fn attrs_from(s: &[u8], p: usize) -> (r: Result<(Vec<(String, String)>, usize), usize>)
    requires
        p <= s@.len(),
    ensures
        match attrs_at(s@, p as int) {
            AttrsOutcome::Done(l, z) => r matches Ok((v, y)) && fields_view(v@) == l && y == z,
            AttrsOutcome::Failed(x) => r == Err::<(Vec<(String, String)>, usize), usize>(
                x as usize,
            ),
        },
{
    let mut out: Vec<(String, String)> = Vec::new();
    let mut k = p;
    assert(prepend(fields_view(out@), attrs_at(s@, k as int)) == attrs_at(s@, p as int)) by {
        assert(fields_view(out@) =~= Seq::<(Seq<char>, Seq<char>)>::empty());
        match attrs_at(s@, p as int) {
            AttrsOutcome::Done(l, z) => {
                assert(Seq::<(Seq<char>, Seq<char>)>::empty() + l =~= l);
            },
            AttrsOutcome::Failed(_) => {},
        }
    }
    loop
        invariant
            p <= k <= s@.len(),
            prepend(fields_view(out@), attrs_at(s@, k as int)) == attrs_at(s@, p as int),
        decreases s@.len() - k,
    {
        let q = skip_spaces_from(s, k);
        proof {
            lemma_skip_spaces(s@, k as int);
        }
        if q >= s.len() || s[q] == 0x3e || s[q] == 0x2f {
            assert(attrs_at(s@, k as int) == AttrsOutcome::Done(seq![], q as int));
            assert(fields_view(out@) + seq![] =~= fields_view(out@));
            return Ok((out, q));
        }
        let (name, e) = name_from(s, q);
        if name.as_str().is_empty() {
            assert(attrs_at(s@, k as int) == AttrsOutcome::Done(seq![], e as int));
            assert(fields_view(out@) + seq![] =~= fields_view(out@));
            return Ok((out, e));
        }
        let r = skip_spaces_from(s, e);
        if r < s.len() && s[r] == 0x3d {
            let v = skip_spaces_from(s, r + 1);
            match value_from(s, v) {
                Err(x) => {
                    return Err(x);
                },
                Ok((val, after)) => {
                    proof {
                        lemma_name_at(s@, q as int);
                        lemma_skip_spaces(s@, e as int);
                        lemma_skip_spaces(s@, r + 1);
                        lemma_value_at(s@, v as int);
                        lemma_prepend_prepend(
                            fields_view(out@),
                            seq![(name@, val@)],
                            attrs_at(s@, after as int),
                        );
                    }
                    let ghost old_view = fields_view(out@);
                    out.push((name, val));
                    assert(fields_view(out@) =~= old_view + seq![(name@, val@)]);
                    k = after;
                },
            }
        } else {
            assert(attrs_at(s@, k as int) == AttrsOutcome::Done(seq![], r as int));
            assert(fields_view(out@) + seq![] =~= fields_view(out@));
            return Ok((out, r));
        }
    }
}

} // verus!

verus! {

/// The result of a read as the outcome it stands for.
pub open spec fn read_matches(r: Result<XmlEvent, Error>, pos: usize, o: EventOutcome) -> bool {
    match o {
        EventOutcome::Event(ev, t) => r matches Ok(e) && e@ == ev && pos == t,
        EventOutcome::Failed(x, why) => r == Err::<XmlEvent, Error>(
            Error::Xml { position: x as usize, reason: why },
        ),
    }
}

fn xml_error(position: usize, reason: XmlReason) -> (r: Result<XmlEvent, Error>)
    ensures
        r == Err::<XmlEvent, Error>(Error::Xml { position, reason }),
{
    Err(Error::Xml { position, reason })
}

/// Reads the event at `p` (see `event_at`); gives the position after it.
fn event_from(s: &[u8], p: usize) -> (r: (Result<XmlEvent, Error>, usize))
    requires
        p <= s@.len(),
    ensures
        read_matches(r.0, r.1, event_at(s@, p as int)),
        r.1 <= s@.len(),
{
    let n = s.len();
    let mut k = p;
    loop
        invariant
            k <= s@.len(),
            n == s@.len(),
            event_at(s@, k as int) == event_at(s@, p as int),
        decreases s@.len() - k,
    {
        let q = skip_spaces_from(s, k);
        proof {
            lemma_skip_spaces(s@, k as int);
        }
        if q >= n {
            return (Ok(XmlEvent::Eof), q);
        }
        if s[q] == 0x3c {
            let r = q + 1;
            if r >= n {
                return (xml_error(r, XmlReason::UnexpectedEnd), r);
            }
            if s[r] == 0x3f {
                let f = find_byte_from(s, r, 0x3e);
                k = if f < n { f + 1 } else { n };
            } else if s[r] == 0x21 {
                let r1 = r + 1;
                if n - r1 >= 2 && s[r1] == 0x2d && s[r1 + 1] == 0x2d {
                    assert(starts_at(s@, r1 as int, seq![0x2du8, 0x2du8])) by {
                        assert(s@.subrange(r1 as int, r1 + 2) =~= seq![0x2du8, 0x2du8]);
                    }
                    let c = r1 + 2;
                    match find_closer_from(s, c, 0x2d, 0x2d, 0x3e) {
                        Some(i) => {
                            proof {
                                lemma_find_closer(s@, c as int, 0x2du8, 0x2du8, 0x3eu8);
                            }
                            k = i + 3;
                        },
                        None => {
                            let stop = if n - c > 2 { n - 2 } else { c };
                            return (xml_error(stop, XmlReason::UnclosedComment), stop);
                        },
                    }
                } else if n - r1 >= 7 && s[r1] == 0x5b && s[r1 + 1] == 0x43 && s[r1 + 2] == 0x44
                    && s[r1 + 3] == 0x41 && s[r1 + 4] == 0x54 && s[r1 + 5] == 0x41 && s[r1 + 6]
                    == 0x5b {
                    proof {
                        if r1 + 2 <= n && s@[r1 as int] == 0x2du8 {
                            assert(false);
                        }
                        if starts_at(s@, r1 as int, seq![0x2du8, 0x2du8]) {
                            assert(s@.subrange(r1 as int, r1 + 2)[0] == s@[r1 as int]);
                        }
                        assert(s@.subrange(r1 as int, r1 + 7) =~= cdata_open());
                    }
                    let c = r1 + 7;
                    match find_closer_from(s, c, 0x5d, 0x5d, 0x3e) {
                        Some(i) => {
                            proof {
                                lemma_find_closer(s@, c as int, 0x5du8, 0x5du8, 0x3eu8);
                            }
                            match utf8_between(s, c, i) {
                                Some(t) => {
                                    return (Ok(XmlEvent::Text(t)), i + 3);
                                },
                                None => {
                                    return (xml_error(c, XmlReason::InvalidCdataUtf8), i);
                                },
                            }
                        },
                        None => {
                            return (xml_error(c, XmlReason::UnclosedCdata), c);
                        },
                    }
                } else {
                    proof {
                        if starts_at(s@, r1 as int, seq![0x2du8, 0x2du8]) {
                            assert(s@.subrange(r1 as int, r1 + 2)[0] == s@[r1 as int]);
                            assert(s@.subrange(r1 as int, r1 + 2)[1] == s@[r1 + 1]);
                        }
                        if starts_at(s@, r1 as int, cdata_open()) {
                            let w = s@.subrange(r1 as int, r1 + 7);
                            assert(w[0] == s@[r1 as int] && w[1] == s@[r1 + 1] && w[2] == s@[r1
                                + 2] && w[3] == s@[r1 + 3] && w[4] == s@[r1 + 4] && w[5] == s@[r1
                                + 5] && w[6] == s@[r1 + 6]);
                        }
                    }
                    k = r1;
                }
            } else if s[r] == 0x2f {
                let (name, e) = name_from(s, r + 1);
                let f = find_byte_from(s, e, 0x3e);
                let t = if f < n { f + 1 } else { n };
                return (Ok(XmlEvent::End { name }), t);
            } else {
                let (name, e) = name_from(s, r);
                match attrs_from(s, e) {
                    Err(x) => {
                        return (xml_error(x, XmlReason::InvalidAttrUtf8), e);
                    },
                    Ok((attrs, a)) => {
                        proof {
                            lemma_attrs_at(s@, e as int);
                        }
                        let w = skip_spaces_from(s, a);
                        let empty = w < n && s[w] == 0x2f;
                        let w2 = if empty { w + 1 } else { w };
                        let w3 = if w2 < n && s[w2] == 0x3e { w2 + 1 } else { w2 };
                        return (Ok(XmlEvent::Start { name, attrs, empty }), w3);
                    },
                }
            }
        } else {
            let e = find_byte_from(s, q, 0x3c);
            match utf8_between(s, q, e) {
                None => {
                    return (xml_error(q, XmlReason::InvalidTextUtf8), e);
                },
                Some(text) => {
                    let cs = str_chars(text.as_str());
                    let t = trim_chars(cs.as_slice());
                    if t.len() > 0 {
                        return (Ok(XmlEvent::Text(chars_to_string(t.as_slice()))), e);
                    }
                    proof {
                        lemma_find_byte(s@, q as int, 0x3cu8);
                    }
                    k = e;
                },
            }
        }
    }
}

pub proof fn lemma_attrs_at(s: Seq<u8>, p: int)
    requires
        0 <= p <= s.len(),
    ensures
        attrs_at(s, p) matches AttrsOutcome::Done(_, z) ==> p <= z <= s.len(),
    decreases s.len() - p,
{
    let q = skip_spaces(s, p);
    lemma_skip_spaces(s, p);
    if q < s.len() && s[q] != 0x3eu8 && s[q] != 0x2fu8 {
        lemma_name_at(s, q);
        let (name, e) = name_at(s, q);
        if name.len() != 0 {
            let r = skip_spaces(s, e);
            lemma_skip_spaces(s, e);
            if r < s.len() && s[r] == 0x3du8 {
                let v = skip_spaces(s, r + 1);
                lemma_skip_spaces(s, r + 1);
                lemma_value_at(s, v);
                if let ValueOutcome::Got(_, after) = value_at(s, v) {
                    lemma_attrs_at(s, after);
                }
            }
        }
    }
}

/// A pull reader over the bytes of an XML document.
pub struct XmlReader<'a> {
    input: &'a [u8],
    pos: usize,
}

impl<'a> XmlReader<'a> {
    #[verifier::type_invariant]
    spec fn position_in_input(self) -> bool {
        self.pos <= self.input@.len()
    }

    /// The bytes being read.
    pub closed spec fn bytes(self) -> Seq<u8> {
        self.input@
    }

    /// Where the next read starts.
    pub closed spec fn position(self) -> int {
        self.pos as int
    }

    /// A reader at the start of `input`.
    pub fn new(input: &'a [u8]) -> (r: XmlReader<'a>)
        ensures
            r.bytes() == input@,
            r.position() == 0,
    {
        XmlReader { input, pos: 0 }
    }

    /// Reads the next event (see `event_at`). After an event the reader stands past it;
    /// after an error its position is left where the scan stopped.
    pub fn next_event(&mut self) -> (r: Result<XmlEvent, Error>)
        ensures
            final(self).bytes() == old(self).bytes(),
            0 <= final(self).position() <= final(self).bytes().len(),
            match event_at(old(self).bytes(), old(self).position()) {
                EventOutcome::Event(ev, t) => r matches Ok(e) && e@ == ev && final(self).position()
                    == t,
                EventOutcome::Failed(x, why) => r == Err::<XmlEvent, Error>(
                    Error::Xml { position: x as usize, reason: why },
                ),
            },
    {
        proof {
            use_type_invariant(&*self);
        }
        let (r, t) = event_from(self.input, self.pos);
        self.pos = t;
        proof {
            use_type_invariant(&*self);
        }
        r
    }
}

} // verus!
