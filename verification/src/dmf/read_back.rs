//! What the reader gives for the elements that the writer writes.

use vstd::prelude::*;
use vstd::utf8::{decode_utf8, encode_scalar, encode_utf8, valid_utf8};

use crate::dmf::xml_reader::{
    attrs_at, event_at, find_byte, is_name_byte, is_space, local_part, name_at, name_end,
    prepend, skip_spaces, unescaped, value_at, AttrsOutcome, EventOutcome, ValueOutcome,
    XmlEventView, entity_len,
};
use crate::cfg::channel::uint_or_zero;
use crate::dmf::xml_writer::{
    acc_pairs, acv_pairs, attrs_text, dir_text, element_text, escape_char, escaped, igap_pairs, ref_pairs, scl,
    status_pairs, tabs,
};
use crate::dmf::{
    acv_of_attrs, attr_count, attr_text, attr_value, dir_of_text, igap_of_attrs, last_attr_value,
    last_count, last_text, status_attrs_ok, DmfStatusChannel,
};
use crate::equipment::{AccBran, AcvChn, Igap};
use crate::text::{
    dec, is_digit, lemma_dec_plain, lemma_parse_uint_dec, lemma_trim_noop, trim,
};
use crate::encoding::{ascii_chars, lemma_ascii_char_byte};
use crate::text::{last_index_of, lemma_last_index_of};

verus! {

/// Characters that may stand in a name: ASCII letters and digits, `_`, `:` and `-`.
pub open spec fn is_name_char(c: char) -> bool {
    ('0' <= c && c <= '9') || ('A' <= c && c <= 'Z') || ('a' <= c && c <= 'z') || c == '_' || c
        == ':' || c == '-'
}

/// A name that the reader gives back as written: non-empty, of name characters, no `:`.
pub open spec fn plain_name(n: Seq<char>) -> bool {
    n.len() > 0 && forall|i: int| 0 <= i < n.len() ==> is_name_char(#[trigger] n[i]) && n[i] != ':'
}

/// A qualified name as the writer writes it: non-empty, of name characters.
pub open spec fn tag_name(n: Seq<char>) -> bool {
    n.len() > 0 && forall|i: int| 0 <= i < n.len() ==> is_name_char(#[trigger] n[i])
}

/// Attributes that the reader gives back as written: plain names, values without `"`.
pub open spec fn plain_pairs(pairs: Seq<(Seq<char>, Seq<char>)>) -> bool {
    forall|i: int|
        0 <= i < pairs.len() ==> plain_name(#[trigger] pairs[i].0) && !pairs[i].1.contains('"')
}

/// The attributes with the entities of their values decoded.
pub open spec fn unescaped_pairs(pairs: Seq<(Seq<char>, Seq<char>)>) -> Seq<(Seq<char>, Seq<char>)> {
    pairs.map_values(|p: (Seq<char>, Seq<char>)| (p.0, unescaped(p.1)))
}

/// Text without `&` holds no entity: decoding gives it back.
pub proof fn lemma_unescape_plain(s: Seq<char>)
    requires
        !s.contains('&'),
    ensures
        unescaped(s) == s,
    decreases s.len(),
{
    if s.len() > 0 {
        assert(s[0] != '&');
        assert(entity_len(s) == 0) by {
            assert forall|k: int| 0 < k <= s.len() implies s.subrange(0, k)[0] == s[0] by {}
        }
        let r = s.skip(1);
        assert(!r.contains('&')) by {
            if r.contains('&') {
                let j = choose|j: int| 0 <= j < r.len() && r[j] == '&';
                assert(s[j + 1] == '&');
            }
        }
        lemma_unescape_plain(r);
        assert(seq![s[0]] + r =~= s);
    }
}

/// Decoding the entities of escaped text gives the text back.
pub proof fn lemma_unescape_escaped(s: Seq<char>)
    ensures
        unescaped(escaped(s)) == s,
    decreases s.len(),
{
    if s.len() > 0 {
        let c = s[0];
        let e = escape_char(c);
        let r = s.skip(1);
        let x = escaped(s);
        assert(x == e + escaped(r));
        lemma_unescape_escaped(r);
        assert(x.skip(e.len() as int) =~= escaped(r));
        assert(x.subrange(0, e.len() as int) =~= e);
        if c == '&' {
            assert(entity_len(x) == 5);
        } else if c == '<' {
            assert(x[1] == 'l');
            if x.len() >= 5 {
                assert(x.subrange(0, 5)[1] == x[1]);
            }
            assert(entity_len(x) == 4);
        } else if c == '>' {
            assert(x[1] == 'g');
            if x.len() >= 5 {
                assert(x.subrange(0, 5)[1] == x[1]);
            }
            assert(x.subrange(0, 4) =~= seq!['&', 'g', 't', ';']);
            assert(x.subrange(0, 4) != seq!['&', 'l', 't', ';']) by {
                assert(x.subrange(0, 4)[1] == 'g');
            }
            assert(entity_len(x) == 4);
        } else if c == '"' {
            assert(x[1] == 'q');
            assert(x.subrange(0, 5)[1] == x[1]);
            assert(x.subrange(0, 4)[1] == x[1]);
            assert(entity_len(x) == 6);
        } else {
            assert(x[0] == c);
            assert(entity_len(x) == 0) by {
                assert forall|k: int| 0 < k <= x.len() implies x.subrange(0, k)[0] == x[0] by {}
            }
        }
        assert(seq![c] + r =~= s);
    }
}

proof fn lemma_encode_concat(a: Seq<char>, b: Seq<char>)
    ensures
        encode_utf8(a + b) == encode_utf8(a) + encode_utf8(b),
    decreases a.len(),
{
    if a.len() == 0 {
        assert(a + b =~= b);
        assert(encode_utf8(a) =~= Seq::<u8>::empty());
        assert(encode_utf8(a) + encode_utf8(b) =~= encode_utf8(b));
    } else {
        assert((a + b).drop_first() =~= a.drop_first() + b);
        assert((a + b)[0] == a[0]);
        lemma_encode_concat(a.drop_first(), b);
        assert(encode_utf8(a + b) =~= encode_utf8(a) + encode_utf8(b));
    }
}

/// The bytes of ASCII characters.
pub open spec fn ascii_bytes_of(s: Seq<char>) -> Seq<u8> {
    s.map_values(|c: char| c as u8)
}

proof fn lemma_encode_ascii(s: Seq<char>)
    requires
        forall|i: int| 0 <= i < s.len() ==> #[trigger] s[i] <= '\u{7f}',
    ensures
        encode_utf8(s) == ascii_bytes_of(s),
        ascii_chars(ascii_bytes_of(s)) == s,
    decreases s.len(),
{
    assert forall|i: int| 0 <= i < s.len() implies #[trigger] ascii_chars(ascii_bytes_of(s))[i]
        == s[i] by {
        lemma_ascii_char_byte(s[i]);
    }
    assert(ascii_chars(ascii_bytes_of(s)) =~= s);
    if s.len() > 0 {
        let c = s[0];
        let x = c as u32;
        lemma_ascii_char_byte(c);
        assert(x <= 0x7f);
        assert((x & 0x7F) as u8 == x as u8) by (bit_vector)
            requires
                x <= 0x7f,
        ;
        assert(x as u8 == c as u8);
        assert(encode_scalar(x) =~= seq![c as u8]);
        lemma_encode_ascii(s.drop_first());
        assert(encode_utf8(s) =~= ascii_bytes_of(s));
    } else {
        assert(encode_utf8(s) =~= ascii_bytes_of(s));
    }
}

proof fn lemma_name_char_byte(c: char)
    requires
        is_name_char(c),
    ensures
        is_name_byte(c as u8),
        !is_space(c as u8),
        c as u8 != 0x3eu8 && c as u8 != 0x2fu8 && c as u8 != 0x3fu8 && c as u8 != 0x21u8,
        c as u8 != 0x3du8 && c as u8 != 0x22u8 && c as u8 != 0x20u8,
{
    lemma_ascii_char_byte(c);
}

proof fn lemma_scalar_no_quote(c: char)
    requires
        c != '"',
    ensures
        !encode_scalar(c as u32).contains(0x22u8),
{
    let x = c as u32;
    vstd::utf8::char_is_scalar(c);
    let e = encode_scalar(x);
    if vstd::utf8::has_width_1_encoding(x) {
        assert(x != 0x22u32);
        assert((x & 0x7F) as u8 != 0x22u8) by (bit_vector)
            requires
                x <= 0x7F,
                x != 0x22u32,
        ;
        assert(e[0] != 0x22u8);
    } else {
        assert forall|y: u32| #![auto] (0xC0u8 | ((y >> 6) & 0x1F) as u8) != 0x22u8 by {
            assert((0xC0u8 | ((y >> 6) & 0x1F) as u8) != 0x22u8) by (bit_vector);
        }
        assert forall|y: u32| #![auto] (0xE0u8 | ((y >> 12) & 0x0F) as u8) != 0x22u8 by {
            assert((0xE0u8 | ((y >> 12) & 0x0F) as u8) != 0x22u8) by (bit_vector);
        }
        assert forall|y: u32| #![auto] (0xF0u8 | ((y >> 18) & 0x7) as u8) != 0x22u8 by {
            assert((0xF0u8 | ((y >> 18) & 0x7) as u8) != 0x22u8) by (bit_vector);
        }
        assert forall|y: u32| #![auto] (0x80u8 | (y & 0x3F) as u8) != 0x22u8 by {
            assert((0x80u8 | (y & 0x3F) as u8) != 0x22u8) by (bit_vector);
        }
        assert forall|y: u32| #![auto] (0x80u8 | ((y >> 6) & 0x3F) as u8) != 0x22u8 by {
            assert((0x80u8 | ((y >> 6) & 0x3F) as u8) != 0x22u8) by (bit_vector);
        }
        assert forall|y: u32| #![auto] (0x80u8 | ((y >> 12) & 0x3F) as u8) != 0x22u8 by {
            assert((0x80u8 | ((y >> 12) & 0x3F) as u8) != 0x22u8) by (bit_vector);
        }
        assert forall|i: int| 0 <= i < e.len() implies e[i] != 0x22u8 by {}
    }
}

proof fn lemma_encode_no_quote(v: Seq<char>)
    requires
        !v.contains('"'),
    ensures
        !encode_utf8(v).contains(0x22u8),
    decreases v.len(),
{
    if v.len() > 0 {
        assert(v[0] != '"');
        lemma_scalar_no_quote(v[0]);
        assert(!v.drop_first().contains('"')) by {
            if v.drop_first().contains('"') {
                let j = choose|j: int| 0 <= j < v.drop_first().len() && v.drop_first()[j] == '"';
                assert(v[j + 1] == '"');
            }
        }
        lemma_encode_no_quote(v.drop_first());
        let a = encode_scalar(v[0] as u32);
        let b = encode_utf8(v.drop_first());
        assert(encode_utf8(v) == a + b);
        if (a + b).contains(0x22u8) {
            let j = choose|j: int| 0 <= j < (a + b).len() && (a + b)[j] == 0x22u8;
            if j < a.len() {
                assert(a[j] == 0x22u8);
            } else {
                assert(b[j - a.len()] == 0x22u8);
            }
        }
    }
}

proof fn lemma_spaces_run(s: Seq<u8>, p: int, n: int)
    requires
        0 <= p,
        0 <= n,
        p + n < s.len(),
        forall|i: int| p <= i < p + n ==> is_space(#[trigger] s[i]),
        !is_space(s[p + n]),
    ensures
        skip_spaces(s, p) == p + n,
    decreases n,
{
    if n > 0 {
        lemma_spaces_run(s, p + 1, n - 1);
    }
}

proof fn lemma_name_run(s: Seq<u8>, p: int, n: int)
    requires
        0 <= p,
        0 <= n,
        p + n < s.len(),
        forall|i: int| p <= i < p + n ==> is_name_byte(#[trigger] s[i]),
        !is_name_byte(s[p + n]),
    ensures
        name_end(s, p) == p + n,
    decreases n,
{
    if n > 0 {
        lemma_name_run(s, p + 1, n - 1);
    }
}

proof fn lemma_find_run(s: Seq<u8>, p: int, n: int, c: u8)
    requires
        0 <= p,
        0 <= n,
        p + n < s.len(),
        forall|i: int| p <= i < p + n ==> #[trigger] s[i] != c,
        s[p + n] == c,
    ensures
        find_byte(s, p, c) == p + n,
    decreases n,
{
    if n > 0 {
        lemma_find_run(s, p + 1, n - 1, c);
    }
}

/// Reading a name written at `p` and followed by a byte that is not a name byte.
proof fn lemma_read_name(s: Seq<u8>, p: int, n: Seq<char>)
    requires
        0 <= p,
        tag_name(n),
        p + n.len() < s.len(),
        s.subrange(p, p + n.len()) == ascii_bytes_of(n),
        !is_name_byte(s[p + n.len()]),
    ensures
        name_at(s, p) == (local_part(n), p + n.len()),
        is_name_byte(s[p]),
{
    assert forall|i: int| 0 <= i < n.len() implies #[trigger] n[i] <= '\u{7f}' by {}
    lemma_encode_ascii(n);
    assert(s[p] == s.subrange(p, p + n.len())[0]);
    lemma_name_char_byte(n[0]);
    assert forall|i: int| p <= i < p + n.len() implies is_name_byte(#[trigger] s[i]) by {
        assert(s[i] == s.subrange(p, p + n.len())[i - p]);
        lemma_name_char_byte(n[i - p]);
    }
    lemma_spaces_run(s, p, 0);
    lemma_name_run(s, p, n.len() as int);
}

proof fn lemma_local_plain(n: Seq<char>)
    requires
        plain_name(n),
    ensures
        local_part(n) == n,
        tag_name(n),
{
    lemma_last_index_of(n, ':');
}

/// The bytes of the attributes of an element.
pub open spec fn attrs_bytes(pairs: Seq<(Seq<char>, Seq<char>)>) -> Seq<u8> {
    encode_utf8(attrs_text(pairs))
}

/// The bytes of the attributes split at the first one.
proof fn lemma_attrs_bytes_first(pairs: Seq<(Seq<char>, Seq<char>)>)
    requires
        pairs.len() > 0,
        plain_name(pairs[0].0),
    ensures
        attrs_bytes(pairs) == seq![0x20u8] + ascii_bytes_of(pairs[0].0) + seq![0x3du8, 0x22u8]
            + encode_utf8(pairs[0].1) + seq![0x22u8] + attrs_bytes(pairs.drop_first()),
{
    let n = pairs[0].0;
    let v = pairs[0].1;
    let rest = pairs.drop_first();
    assert forall|i: int| 0 <= i < n.len() implies #[trigger] n[i] <= '\u{7f}' by {
        assert(is_name_char(n[i]));
    }
    lemma_encode_ascii(n);
    lemma_encode_ascii(seq![' ']);
    lemma_encode_ascii(seq!['=', '"']);
    lemma_encode_ascii(seq!['"']);
    let t1 = seq![' '] + n;
    let t2 = t1 + seq!['=', '"'];
    let t3 = t2 + v;
    let t4 = t3 + seq!['"'];
    assert(attrs_text(pairs) == t4 + attrs_text(rest));
    lemma_encode_concat(t4, attrs_text(rest));
    lemma_encode_concat(t3, seq!['"']);
    lemma_encode_concat(t2, v);
    lemma_encode_concat(t1, seq!['=', '"']);
    lemma_encode_concat(seq![' '], n);
    assert(ascii_bytes_of(seq![' ']) =~= seq![0x20u8]);
    assert(ascii_bytes_of(seq!['=', '"']) =~= seq![0x3du8, 0x22u8]);
    assert(ascii_bytes_of(seq!['"']) =~= seq![0x22u8]);
}

/// Attributes written at `p` and followed by `/` read back as written.
#[verifier::spinoff_prover]
#[verifier::rlimit(40)]
proof fn lemma_read_attrs(s: Seq<u8>, p: int, pairs: Seq<(Seq<char>, Seq<char>)>)
    requires
        0 <= p,
        plain_pairs(pairs),
        p + attrs_bytes(pairs).len() < s.len(),
        s.subrange(p, p + attrs_bytes(pairs).len()) == attrs_bytes(pairs),
        s[p + attrs_bytes(pairs).len()] == 0x2fu8,
    ensures
        attrs_at(s, p) == AttrsOutcome::Done(
            unescaped_pairs(pairs),
            p + attrs_bytes(pairs).len(),
        ),
    decreases pairs.len(),
{
    if pairs.len() == 0 {
        assert(attrs_bytes(pairs) =~= Seq::<u8>::empty());
        assert(unescaped_pairs(pairs) =~= Seq::<(Seq<char>, Seq<char>)>::empty());
        lemma_spaces_run(s, p, 0);
    } else {
        let n = pairs[0].0;
        let v = pairs[0].1;
        let rest = pairs.drop_first();
        assert(plain_name(n) && !v.contains('"'));
        assert(plain_pairs(rest)) by {
            assert forall|i: int| 0 <= i < rest.len() implies plain_name(#[trigger] rest[i].0)
                && !rest[i].1.contains('"') by {
                assert(rest[i] == pairs[i + 1]);
            }
        }
        lemma_local_plain(n);
        lemma_attrs_bytes_first(pairs);
        let nb = ascii_bytes_of(n);
        let vb = encode_utf8(v);
        let rb = attrs_bytes(rest);
        let b = seq![0x20u8] + nb + seq![0x3du8, 0x22u8] + vb + seq![0x22u8] + rb;
        assert(attrs_bytes(pairs) == b);
        let ln = n.len() as int;
        let lv = vb.len() as int;
        let q = p + 1;
        let e = q + ln;
        let start = e + 2;
        let end = start + lv;
        let after = end + 1;
        assert(b.len() == 4 + ln + lv + rb.len());
        assert forall|i: int| 0 <= i < b.len() implies #[trigger] s[p + i] == b[i] by {
            assert(s.subrange(p, p + b.len())[i] == s[p + i]);
        }
        assert(s[p] == b[0]);
        assert(s[e] == b[1 + ln]);
        assert(s[e + 1] == b[2 + ln]);
        assert(s[end] == b[3 + ln + lv]);
        assert(s[p] == 0x20u8);
        assert(s[e] == 0x3du8);
        assert(s[e + 1] == 0x22u8);
        assert(s[end] == 0x22u8);
        assert(s.subrange(q, e) =~= nb) by {
            assert forall|i: int| 0 <= i < ln implies s.subrange(q, e)[i] == nb[i] by {
                assert(s[q + i] == b[1 + i]);
            }
        }
        assert(s.subrange(start, end) =~= vb) by {
            assert forall|i: int| 0 <= i < lv implies s.subrange(start, end)[i] == vb[i] by {
                assert(s[start + i] == b[3 + ln + i]);
            }
        }
        assert(s.subrange(after, after + rb.len()) =~= rb) by {
            assert forall|i: int| 0 <= i < rb.len() implies s.subrange(after, after + rb.len())[i]
                == rb[i] by {
                assert(s[after + i] == b[4 + ln + lv + i]);
            }
        }
        assert(s[after + rb.len()] == 0x2fu8);
        lemma_spaces_run(s, p, 1);
        lemma_read_name(s, q, n);
        lemma_name_char_byte(n[0]);
        assert(s[q] == nb[0]);
        lemma_spaces_run(s, e, 0);
        lemma_spaces_run(s, e + 1, 0);
        lemma_encode_no_quote(v);
        assert forall|i: int| start <= i < end implies #[trigger] s[i] != 0x22u8 by {
            assert(s[i] == vb[i - start]);
        }
        lemma_find_run(s, start, lv, 0x22u8);
        vstd::utf8::encode_utf8_valid_utf8(v);
        vstd::utf8::encode_utf8_decode_utf8(v);
        assert(value_at(s, e + 1) == ValueOutcome::Got(unescaped(v), after));
        lemma_read_attrs(s, after, rest);
        assert(seq![(n, unescaped(v))] + unescaped_pairs(rest) =~= unescaped_pairs(pairs));
        assert(skip_spaces(s, p) == q);
        assert(name_at(s, q) == (n, e));
        assert(skip_spaces(s, e) == e);
        assert(skip_spaces(s, e + 1) == e + 1);
        assert(s[q] != 0x3eu8 && s[q] != 0x2fu8);
        assert(attrs_at(s, after) == AttrsOutcome::Done(unescaped_pairs(rest), after + rb.len()));
        assert(after + rb.len() == p + attrs_bytes(pairs).len());
    }
}

proof fn lemma_element_bytes(level: nat, name: Seq<char>, pairs: Seq<(Seq<char>, Seq<char>)>)
    requires
        tag_name(name),
    ensures
        encode_utf8(element_text(level, name, pairs)) == ascii_bytes_of(tabs(level)) + seq![0x3cu8]
            + ascii_bytes_of(name) + attrs_bytes(pairs) + seq![0x2fu8, 0x3eu8],
{
    let t = tabs(level);
    assert forall|i: int| 0 <= i < t.len() implies #[trigger] t[i] <= '\u{7f}' by {}
    assert forall|i: int| 0 <= i < name.len() implies #[trigger] name[i] <= '\u{7f}' by {}
    lemma_encode_ascii(t);
    lemma_encode_ascii(seq!['<']);
    lemma_encode_ascii(name);
    lemma_encode_ascii(seq!['/', '>']);
    let u1 = t + seq!['<'];
    let u2 = u1 + name;
    let u3 = u2 + attrs_text(pairs);
    lemma_encode_concat(u3, seq!['/', '>']);
    lemma_encode_concat(u2, attrs_text(pairs));
    lemma_encode_concat(u1, name);
    lemma_encode_concat(t, seq!['<']);
    assert(ascii_bytes_of(seq!['<']) =~= seq![0x3cu8]);
    assert(ascii_bytes_of(seq!['/', '>']) =~= seq![0x2fu8, 0x3eu8]);
}

proof fn lemma_attrs_first_byte(pairs: Seq<(Seq<char>, Seq<char>)>)
    ensures
        pairs.len() > 0 ==> attrs_bytes(pairs).len() > 0 && attrs_bytes(pairs)[0] == 0x20u8,
        pairs.len() == 0 ==> attrs_bytes(pairs).len() == 0,
{
    if pairs.len() > 0 {
        lemma_encode_ascii(seq![' ']);
        let a = attrs_text(pairs);
        assert(a =~= seq![' '] + a.skip(1));
        lemma_encode_concat(seq![' '], a.skip(1));
        assert(ascii_bytes_of(seq![' ']) =~= seq![0x20u8]);
    } else {
        assert(attrs_text(pairs) =~= Seq::<char>::empty());
        assert(encode_utf8(attrs_text(pairs)) =~= Seq::<u8>::empty());
    }
}

/// Reading an element that the writer wrote: a self-closing element after tabs, whose name
/// is made of name characters and whose attributes have plain names and values without
/// `"`, reads back as a self-closing start tag with the local part of the name and the
/// same attributes, their values' entities decoded, and the reader stands at the end of
/// the line.
#[verifier::spinoff_prover]
pub proof fn lemma_read_element(level: nat, name: Seq<char>, pairs: Seq<(Seq<char>, Seq<char>)>)
    requires
        tag_name(name),
        plain_pairs(pairs),
    ensures
        event_at(encode_utf8(element_text(level, name, pairs)), 0) == EventOutcome::Event(
            XmlEventView::Start { name: local_part(name), attrs: unescaped_pairs(pairs), empty: true },
            encode_utf8(element_text(level, name, pairs)).len() as int,
        ),
{
    let t = tabs(level);
    let tb = ascii_bytes_of(t);
    let nb = ascii_bytes_of(name);
    let ab = attrs_bytes(pairs);
    lemma_element_bytes(level, name, pairs);
    lemma_attrs_first_byte(pairs);
    let s = tb + seq![0x3cu8] + nb + ab + seq![0x2fu8, 0x3eu8];
    assert(encode_utf8(element_text(level, name, pairs)) == s);
    let lt = level as int;
    let ln = name.len() as int;
    let la = ab.len() as int;
    assert(s.len() == lt + 1 + ln + la + 2);
    let r = lt + 1;
    let e = r + ln;
    let a = e + la;
    assert forall|i: int| 0 <= i < lt implies is_space(#[trigger] s[i]) by {
        assert(s[i] == tb[i]);
        assert(t[i] == '\t');
        lemma_ascii_char_byte('\t');
    }
    assert(s[lt] == 0x3cu8);
    lemma_spaces_run(s, 0, lt);
    assert(s.subrange(r, e) =~= nb) by {
        assert forall|i: int| 0 <= i < ln implies s.subrange(r, e)[i] == nb[i] by {
            assert(s[r + i] == nb[i]);
        }
    }
    assert(s.subrange(e, a) =~= ab) by {
        assert forall|i: int| 0 <= i < la implies s.subrange(e, a)[i] == ab[i] by {
            assert(s[e + i] == ab[i]);
        }
    }
    assert(s[a] == 0x2fu8);
    assert(s[a + 1] == 0x3eu8);
    if pairs.len() > 0 {
        assert(s[e] == ab[0]);
    } else {
        assert(s[e] == 0x2fu8);
    }
    lemma_read_name(s, r, name);
    lemma_name_char_byte(name[0]);
    assert(s[r] == nb[0]);
    lemma_read_attrs(s, e, pairs);
    lemma_spaces_run(s, a, 0);
}


/// A number written in decimal reads back as itself, and its digits hold no `"`.
proof fn lemma_dec_reads_back(v: nat)
    requires
        v <= usize::MAX,
    ensures
        uint_or_zero(trim(dec(v)), usize::MAX as nat) == v,
        !dec(v).contains('"'),
        !dec(v).contains('&'),
        unescaped(dec(v)) == dec(v),
{
    lemma_dec_plain(v, '&');
    lemma_unescape_plain(dec(v));
    lemma_dec_plain(v, '"');
    lemma_dec_plain(v, ' ');
    lemma_trim_noop(dec(v));
    lemma_parse_uint_dec(v, usize::MAX as nat);
}

/// The local part of a name `prefix:local` whose local part has no `:`.
proof fn lemma_local_after_colon(n: Seq<char>, k: int)
    requires
        0 <= k < n.len(),
        n[k] == ':',
        forall|j: int| k < j < n.len() ==> n[j] != ':',
    ensures
        local_part(n) == n.skip(k + 1),
{
    lemma_last_index_of(n, ':');
    match last_index_of(n, ':') {
        Some(i) => {
            if i < k {
                assert(n[k] == ':');
            }
            assert(i == k);
        },
        None => {
            assert(n[k] == ':');
        },
    }
}

/// The first attribute of a name is the one found.
proof fn lemma_attr_value_at(fs: Seq<(Seq<char>, Seq<char>)>, key: Seq<char>, i: int)
    requires
        0 <= i < fs.len(),
        fs[i].0 == key,
        forall|j: int| 0 <= j < i ==> #[trigger] fs[j].0 != key,
    ensures
        attr_value(fs, key) == Some(fs[i].1),
    decreases i,
{
    if i > 0 {
        assert(fs[0].0 != key);
        let r = fs.drop_first();
        assert forall|j: int| 0 <= j < i - 1 implies #[trigger] r[j].0 != key by {
            assert(r[j] == fs[j + 1]);
        }
        lemma_attr_value_at(r, key, i - 1);
    }
}

/// The `ACVChn` element that the writer writes for some voltage channels reads back as a
/// self-closing `ACVChn` start tag whose attributes give the same channels.
pub proof fn lemma_acv_read_back(level: nat, a: AcvChn)
    ensures
        ({
            let o = event_at(encode_utf8(element_text(level, "scl:ACVChn"@, acv_pairs(a))), 0);
            &&& o matches EventOutcome::Event(XmlEventView::Start { name, attrs, empty }, _)
            &&& name == "ACVChn"@
            &&& empty
            &&& acv_of_attrs(attrs) == a
        }),
{
    reveal_strlit("scl:ACVChn");
    reveal_strlit("ACVChn");
    reveal_strlit("ua_idx");
    reveal_strlit("ub_idx");
    reveal_strlit("uc_idx");
    reveal_strlit("un_idx");
    reveal_strlit("ul_idx");
    let pairs = acv_pairs(a);
    lemma_dec_reads_back(a.ua_idx as nat);
    lemma_dec_reads_back(a.ub_idx as nat);
    lemma_dec_reads_back(a.uc_idx as nat);
    lemma_dec_reads_back(a.un_idx as nat);
    lemma_dec_reads_back(a.ul_idx as nat);
    assert(plain_pairs(pairs));
    assert(amp_free(pairs));
    lemma_pairs_plain(pairs);
    let n = "scl:ACVChn"@;
    assert(tag_name(n));
    lemma_local_after_colon(n, 3);
    assert(n.skip(4) =~= "ACVChn"@);
    lemma_read_element(level, n, pairs);
    assert("ua_idx"@[1] != "ub_idx"@[1] && "ua_idx"@[1] != "uc_idx"@[1] && "ua_idx"@[1]
        != "un_idx"@[1] && "ua_idx"@[1] != "ul_idx"@[1]);
    assert("ub_idx"@[1] != "uc_idx"@[1] && "ub_idx"@[1] != "un_idx"@[1] && "ub_idx"@[1]
        != "ul_idx"@[1]);
    assert("uc_idx"@[1] != "un_idx"@[1] && "uc_idx"@[1] != "ul_idx"@[1]);
    assert("un_idx"@[1] != "ul_idx"@[1]);
    lemma_attr_value_at(pairs, "ua_idx"@, 0);
    lemma_attr_value_at(pairs, "ub_idx"@, 1);
    lemma_attr_value_at(pairs, "uc_idx"@, 2);
    lemma_attr_value_at(pairs, "un_idx"@, 3);
    lemma_attr_value_at(pairs, "ul_idx"@, 4);
    assert(acv_of_attrs(pairs) == a);
}


/// Escaped text holds no `"`.
pub proof fn lemma_escaped_no_quote(s: Seq<char>)
    ensures
        !escaped(s).contains('"'),
    decreases s.len(),
{
    if s.len() > 0 {
        let e = escape_char(s[0]);
        let r = escaped(s.skip(1));
        lemma_escaped_no_quote(s.skip(1));
        assert(!e.contains('"')) by {
            if e.contains('"') {
                let j = choose|j: int| 0 <= j < e.len() && e[j] == '"';
            }
        }
        assert(escaped(s) == e + r);
        if (e + r).contains('"') {
            let j = choose|j: int| 0 <= j < (e + r).len() && (e + r)[j] == '"';
            if j < e.len() {
                assert(e[j] == '"');
            } else {
                assert(r[j - e.len()] == '"');
            }
        }
    }
}

/// Attributes whose values hold no `&`.
pub open spec fn amp_free(pairs: Seq<(Seq<char>, Seq<char>)>) -> bool {
    forall|i: int| 0 <= i < pairs.len() ==> !(#[trigger] pairs[i]).1.contains('&')
}

/// Attributes whose values hold no `&` read back as written.
proof fn lemma_pairs_plain(pairs: Seq<(Seq<char>, Seq<char>)>)
    requires
        amp_free(pairs),
    ensures
        unescaped_pairs(pairs) == pairs,
{
    assert forall|i: int| 0 <= i < pairs.len() implies unescaped_pairs(pairs)[i] == pairs[i] by {
        lemma_unescape_plain(pairs[i].1);
    }
    assert(unescaped_pairs(pairs) =~= pairs);
}

/// The `ACC_Bran` element that the writer writes for a branch reads back as a self-closing
/// `ACC_Bran` start tag whose attributes give the same branch number and channels, and as
/// direction the text written for it, its entities decoded.
pub proof fn lemma_acc_read_back(level: nat, b: AccBran)
    ensures
        ({
            let o = event_at(encode_utf8(element_text(level, "scl:ACC_Bran"@, acc_pairs(b))), 0);
            &&& o matches EventOutcome::Event(XmlEventView::Start { name, attrs, empty }, _)
            &&& name == "ACC_Bran"@
            &&& empty
            &&& attr_count(attrs, "bran_idx"@) == b.bran_idx
            &&& attr_count(attrs, "ia_idx"@) == b.ia_idx
            &&& attr_count(attrs, "ib_idx"@) == b.ib_idx
            &&& attr_count(attrs, "ic_idx"@) == b.ic_idx
            &&& attr_count(attrs, "in_idx"@) == b.in_idx
            &&& attr_text(attrs, "dir"@) == unescaped(dir_text(b))
        }),
{
    reveal_strlit("scl:ACC_Bran");
    reveal_strlit("ACC_Bran");
    reveal_strlit("bran_idx");
    reveal_strlit("ia_idx");
    reveal_strlit("ib_idx");
    reveal_strlit("ic_idx");
    reveal_strlit("in_idx");
    reveal_strlit("dir");
    reveal_strlit("NEG");
    reveal_strlit("POS");
    let pairs = acc_pairs(b);
    lemma_dec_reads_back(b.bran_idx as nat);
    lemma_dec_reads_back(b.ia_idx as nat);
    lemma_dec_reads_back(b.ib_idx as nat);
    lemma_dec_reads_back(b.ic_idx as nat);
    lemma_dec_reads_back(b.in_idx as nat);
    lemma_escaped_no_quote(b.dir_raw@);
    assert(!dir_text(b).contains('"')) by {
        if b.dir_raw@.len() == 0 {
            if dir_text(b).contains('"') {
                let j = choose|j: int| 0 <= j < dir_text(b).len() && dir_text(b)[j] == '"';
            }
        }
    }
    assert(plain_pairs(pairs));
    let n = "scl:ACC_Bran"@;
    assert(tag_name(n));
    lemma_local_after_colon(n, 3);
    assert(n.skip(4) =~= "ACC_Bran"@);
    lemma_read_element(level, n, pairs);
    let q = seq![
        ("bran_idx"@, dec(b.bran_idx as nat)),
        ("ia_idx"@, dec(b.ia_idx as nat)),
        ("ib_idx"@, dec(b.ib_idx as nat)),
        ("ic_idx"@, dec(b.ic_idx as nat)),
        ("in_idx"@, dec(b.in_idx as nat)),
        ("dir"@, unescaped(dir_text(b))),
    ];
    assert(unescaped_pairs(pairs) =~= q) by {
        assert forall|i: int| 0 <= i < 6 implies unescaped_pairs(pairs)[i] == q[i] by {
            assert(unescaped_pairs(pairs)[i] == (pairs[i].0, unescaped(pairs[i].1)));
        }
    }
    assert("bran_idx"@[1] != "ia_idx"@[1] && "bran_idx"@[1] != "ib_idx"@[1] && "bran_idx"@[1]
        != "ic_idx"@[1] && "bran_idx"@[1] != "in_idx"@[1] && "bran_idx"@[1] != "dir"@[1]);
    assert("ia_idx"@[1] != "ib_idx"@[1] && "ia_idx"@[1] != "ic_idx"@[1] && "ia_idx"@[1]
        != "in_idx"@[1] && "ia_idx"@.len() != "dir"@.len());
    assert("ib_idx"@[1] != "ic_idx"@[1] && "ib_idx"@[1] != "in_idx"@[1] && "ib_idx"@.len()
        != "dir"@.len());
    assert("ic_idx"@[1] != "in_idx"@[1] && "ic_idx"@.len() != "dir"@.len());
    assert("in_idx"@.len() != "dir"@.len());
    lemma_attr_value_at(q, "bran_idx"@, 0);
    lemma_attr_value_at(q, "ia_idx"@, 1);
    lemma_attr_value_at(q, "ib_idx"@, 2);
    lemma_attr_value_at(q, "ic_idx"@, 3);
    lemma_attr_value_at(q, "in_idx"@, 4);
    lemma_attr_value_at(q, "dir"@, 5);
}

/// The direction written for a branch reads back as the branch's direction when the
/// branch has no spelling and a direction of 1 or -1, and as the spelling itself when it
/// has one.
pub proof fn lemma_dir_read_back(b: AccBran)
    ensures
        b.dir_raw@.len() == 0 && (b.dir == 1 || b.dir == -1) ==> unescaped(dir_text(b))
            == dir_text(b) && dir_of_text(dir_text(b)) == b.dir,
        b.dir_raw@.len() > 0 ==> unescaped(dir_text(b)) == b.dir_raw@,
{
    reveal_strlit("NEG");
    reveal_strlit("POS");
    if b.dir_raw@.len() == 0 {
        let t = dir_text(b);
        assert(!t.contains('&')) by {
            if t.contains('&') {
                let j = choose|j: int| 0 <= j < t.len() && t[j] == '&';
            }
        }
        lemma_unescape_plain(t);
        assert(!is_digit(t[0]) && t[0] != '-' && t[0] != '+');
        lemma_trim_noop(t);
        assert(trim(t) == t);
        assert(crate::text::ascii_lower(t) =~= if b.dir < 0 {
            seq!['n', 'e', 'g']
        } else {
            seq!['p', 'o', 's']
        });
        assert(crate::dmf::i32_value(t) is None) by {
            assert(!crate::text::all_digits(t));
        }
    } else {
        lemma_unescape_escaped(b.dir_raw@);
    }
}

/// The `Igap` element that the writer writes for gap channels reads back as a
/// self-closing `Igap` start tag whose attributes give the same channels.
pub proof fn lemma_igap_read_back(level: nat, g: Igap)
    ensures
        ({
            let o = event_at(encode_utf8(element_text(level, "scl:Igap"@, igap_pairs(g))), 0);
            &&& o matches EventOutcome::Event(XmlEventView::Start { name, attrs, empty }, _)
            &&& name == "Igap"@
            &&& empty
            &&& igap_of_attrs(attrs) == g
        }),
{
    reveal_strlit("scl:Igap");
    reveal_strlit("Igap");
    reveal_strlit("zgap_idx");
    reveal_strlit("zsgap_idx");
    let pairs = igap_pairs(g);
    lemma_dec_reads_back(g.zgap_idx as nat);
    lemma_dec_reads_back(g.zsgap_idx as nat);
    assert(plain_pairs(pairs));
    assert(amp_free(pairs));
    lemma_pairs_plain(pairs);
    let n = "scl:Igap"@;
    assert(tag_name(n));
    lemma_local_after_colon(n, 3);
    assert(n.skip(4) =~= "Igap"@);
    lemma_read_element(level, n, pairs);
    assert("zgap_idx"@.len() != "zsgap_idx"@.len());
    lemma_attr_value_at(pairs, "zgap_idx"@, 0);
    lemma_attr_value_at(pairs, "zsgap_idx"@, 1);
}

/// A channel reference that the writer writes reads back as a self-closing start tag of
/// the same tag whose `idx_cfg` gives the channel number.
pub proof fn lemma_ref_read_back(level: nat, tag: Seq<char>, idx: usize)
    requires
        plain_name(tag),
    ensures
        ({
            let o = event_at(encode_utf8(element_text(level, scl(tag), ref_pairs(idx))), 0);
            &&& o matches EventOutcome::Event(XmlEventView::Start { name, attrs, empty }, _)
            &&& name == tag
            &&& empty
            &&& attr_count(attrs, "idx_cfg"@) == idx
        }),
{
    reveal_strlit("scl:");
    reveal_strlit("idx_cfg");
    let pairs = ref_pairs(idx);
    lemma_dec_reads_back(idx as nat);
    assert(plain_pairs(pairs));
    assert(amp_free(pairs));
    lemma_pairs_plain(pairs);
    let n = scl(tag);
    assert(tag_name(n)) by {
        assert forall|i: int| 0 <= i < n.len() implies is_name_char(#[trigger] n[i]) by {
            if i >= 4 {
                assert(n[i] == tag[i - 4]);
            }
        }
    }
    assert forall|j: int| 3 < j < n.len() implies n[j] != ':' by {
        assert(n[j] == tag[j - 4]);
    }
    lemma_local_after_colon(n, 3);
    assert(n.skip(4) =~= tag);
    lemma_read_element(level, n, pairs);
    lemma_attr_value_at(pairs, "idx_cfg"@, 0);
}

/// The last attribute of a name is the one found.
proof fn lemma_last_value_at(fs: Seq<(Seq<char>, Seq<char>)>, key: Seq<char>, i: int)
    requires
        0 <= i < fs.len(),
        fs[i].0 == key,
        forall|j: int| i < j < fs.len() ==> #[trigger] fs[j].0 != key,
    ensures
        last_attr_value(fs, key) == Some(fs[i].1),
    decreases fs.len() - i,
{
    if i < fs.len() - 1 {
        let r = fs.drop_last();
        assert(fs.last() == fs[fs.len() - 1]);
        assert forall|j: int| i < j < r.len() implies #[trigger] r[j].0 != key by {
            assert(r[j] == fs[j]);
        }
        lemma_last_value_at(r, key, i);
    }
}

/// The `StatusChannel` line that the writer writes for a status channel reads back as a
/// self-closing `StatusChannel` start tag whose attributes give that status channel.
pub proof fn lemma_status_read_back(c: DmfStatusChannel)
    ensures
        ({
            let o = event_at(
                encode_utf8(element_text(1, "scl:StatusChannel"@, status_pairs(c))),
                0,
            );
            &&& o matches EventOutcome::Event(XmlEventView::Start { name, attrs, empty }, _)
            &&& name == "StatusChannel"@
            &&& empty
            &&& status_attrs_ok(attrs, c)
        }),
{
    reveal_strlit("scl:StatusChannel");
    reveal_strlit("StatusChannel");
    reveal_strlit("idx_cfg");
    reveal_strlit("idx_org");
    reveal_strlit("type");
    reveal_strlit("flag");
    reveal_strlit("contact");
    reveal_strlit("srcRef");
    let pairs = status_pairs(c);
    lemma_escaped_no_quote(c.ch_type@);
    lemma_escaped_no_quote(c.flag@);
    lemma_escaped_no_quote(c.contact@);
    lemma_escaped_no_quote(c.src_ref@);
    lemma_unescape_escaped(c.ch_type@);
    lemma_unescape_escaped(c.flag@);
    lemma_unescape_escaped(c.contact@);
    lemma_unescape_escaped(c.src_ref@);
    lemma_dec_reads_back(c.idx_cfg as nat);
    lemma_dec_reads_back(c.idx_org as nat);
    lemma_parse_uint_dec(c.idx_cfg as nat, usize::MAX as nat);
    lemma_parse_uint_dec(c.idx_org as nat, usize::MAX as nat);
    assert(plain_pairs(pairs));
    let n = "scl:StatusChannel"@;
    assert(tag_name(n));
    lemma_local_after_colon(n, 3);
    assert(n.skip(4) =~= "StatusChannel"@);
    lemma_read_element(1, n, pairs);
    let q = seq![
        ("idx_cfg"@, dec(c.idx_cfg as nat)),
        ("idx_org"@, dec(c.idx_org as nat)),
        ("type"@, c.ch_type@),
        ("flag"@, c.flag@),
        ("contact"@, c.contact@),
        ("srcRef"@, c.src_ref@),
    ];
    assert(unescaped_pairs(pairs) =~= q) by {
        assert forall|i: int| 0 <= i < 6 implies unescaped_pairs(pairs)[i] == q[i] by {
            assert(unescaped_pairs(pairs)[i] == (pairs[i].0, unescaped(pairs[i].1)));
        }
    }
    crate::dmf::lemma_status_keys_distinct();
    lemma_last_value_at(q, "idx_cfg"@, 0);
    lemma_last_value_at(q, "idx_org"@, 1);
    lemma_last_value_at(q, "type"@, 2);
    lemma_last_value_at(q, "flag"@, 3);
    lemma_last_value_at(q, "contact"@, 4);
    lemma_last_value_at(q, "srcRef"@, 5);
}

} // verus!

verus! {

/// The `CG` line that the writer writes for a line's capacitances (self-closing, with
/// plain attribute names and values without `"`), read while that line is the innermost
/// open device, becomes the line's last child, named `CG`, with the attributes written.
pub proof fn lemma_line_cg_read_back(
    st: crate::dmf::tree::ReadState,
    level: nat,
    pairs: Seq<(Seq<char>, Seq<char>)>,
)
    requires
        plain_pairs(pairs),
        st.stack.len() > 0,
        st.stack.last() == crate::dmf::tree::Container::Line,
        st.open.line is Some,
    ensures
        ({
            let o = event_at(encode_utf8(element_text(level, "scl:CG"@, pairs)), 0);
            let n = st.open.line->0;
            &&& o matches EventOutcome::Event(ev, _)
            &&& crate::dmf::tree::step(st, ev).open.line == Some(
                (n.0, n.1.push(("CG"@, unescaped_pairs(pairs))), n.2),
            )
        }),
{
    reveal_strlit("scl:CG");
    reveal_strlit("CG");
    let n = "scl:CG"@;
    assert(tag_name(n));
    lemma_local_after_colon(n, 3);
    assert(n.skip(4) =~= "CG"@);
    lemma_read_element(level, n, pairs);
    crate::dmf::tree::lemma_child_attached(st, "CG"@, unescaped_pairs(pairs), true);
}

} // verus!
