//! A table-free GBK codec: ASCII passes through; every double-byte GBK character
//! decodes to U+FFFD, and every non-ASCII character encodes to `?`.

use vstd::prelude::*;

verus! {

/// A lead byte followed by a valid trail byte.
pub open spec fn double_byte(b0: u8, b1: u8) -> bool {
    0x81u8 <= b0 <= 0xFEu8 && ((0x40u8 <= b1 <= 0x7Eu8) || (0x80u8 <= b1 <= 0xFEu8))
}

/// The character of a double-byte GBK code: no table is held, so always U+FFFD.
pub open spec fn code_char(code: u32) -> char {
    '\u{FFFD}'
}

/// The text this codec decodes bytes to: ASCII bytes as themselves, a double-byte
/// character as one `code_char`, any other byte as U+FFFD.
pub open spec fn decoded(b: Seq<u8>) -> Seq<char>
    decreases b.len(),
{
    if b.len() == 0 {
        Seq::empty()
    } else if b[0] < 0x80u8 {
        seq![b[0] as char] + decoded(b.drop_first())
    } else if b.len() >= 2 && double_byte(b[0], b[1]) {
        seq![code_char(((b[0] as u32) << 8u32) | (b[1] as u32))] + decoded(b.skip(2))
    } else {
        seq!['\u{FFFD}'] + decoded(b.drop_first())
    }
}

fn gbk_to_unicode(code: u32) -> (c: char)
    ensures
        c == code_char(code),
{
    '\u{FFFD}'
}

/// Decodes GBK bytes (see `decoded`).
pub fn decode(bytes: &[u8]) -> (r: String)
    ensures
        r@ == decoded(bytes@),
{
    let n = bytes.len();
    let mut out: Vec<char> = Vec::new();
    let mut i: usize = 0;
    assert(bytes@.skip(0) =~= bytes@);
    while i < n
        invariant
            n == bytes@.len(),
            i <= n,
            out@ + decoded(bytes@.skip(i as int)) == decoded(bytes@),
        decreases n - i,
    {
        let ghost rest = bytes@.skip(i as int);
        let ghost before = out@;
        assert(rest[0] == bytes@[i as int]);
        assert(rest.drop_first() =~= bytes@.skip(i as int + 1));
        let b = bytes[i];
        if b < 0x80 {
            out.push(b as char);
            i = i + 1;
            assert(out@ + decoded(bytes@.skip(i as int)) =~= before + decoded(rest));
        } else if i + 1 < n && 0x81 <= b && b <= 0xFE && ((0x40 <= bytes[i + 1] && bytes[i + 1]
            <= 0x7E) || (0x80 <= bytes[i + 1] && bytes[i + 1] <= 0xFE)) {
            let b1 = bytes[i + 1];
            assert(rest[1] == b1);
            assert(rest.skip(2) =~= bytes@.skip(i as int + 2));
            let code: u32 = ((b as u32) << 8u32) | (b1 as u32);
            out.push(gbk_to_unicode(code));
            i = i + 2;
            assert(out@ + decoded(bytes@.skip(i as int)) =~= before + decoded(rest));
        } else {
            out.push('\u{FFFD}');
            i = i + 1;
            assert(out@ + decoded(bytes@.skip(i as int)) =~= before + decoded(rest));
        }
    }
    assert(bytes@.skip(i as int) =~= Seq::<u8>::empty());
    assert(out@ + Seq::<char>::empty() =~= out@);
    crate::text::chars_to_string(out.as_slice())
}

/// The byte this codec writes for a character: its code for ASCII, `?` otherwise.
pub open spec fn encoded_byte(c: char) -> u8 {
    if (c as u32) < 0x80u32 {
        (c as u32) as u8
    } else {
        0x3Fu8
    }
}

/// The double-byte GBK code of a character: no table is held, so never one.
fn unicode_to_gbk(cp: u32) -> (r: Option<(u8, u8)>)
    ensures
        r is None,
{
    None
}

/// Encodes a text (see `encoded_byte`).
pub fn encode(text: &str) -> (r: Vec<u8>)
    ensures
        r@ == text@.map_values(|c: char| encoded_byte(c)),
{
    let cs = crate::text::str_chars(text);
    let n = cs.len();
    let mut out: Vec<u8> = Vec::new();
    let mut k: usize = 0;
    while k < n
        invariant
            n == cs@.len(),
            cs@ == text@,
            k <= n,
            out@ == cs@.take(k as int).map_values(|c: char| encoded_byte(c)),
        decreases n - k,
    {
        let c = cs[k] as u32;
        if c < 0x80 {
            out.push(c as u8);
        } else {
            match unicode_to_gbk(c) {
                Some((hi, lo)) => {
                    out.push(hi);
                    out.push(lo);
                },
                None => {
                    out.push(0x3F);
                },
            }
        }
        k = k + 1;
        assert(out@ =~= cs@.take(k as int).map_values(|c: char| encoded_byte(c)));
    }
    assert(cs@.take(n as int) =~= cs@);
    out
}

} // verus!
