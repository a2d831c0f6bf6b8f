//! Text encodings of COMTRADE files: detection (UTF-8 first, GBK otherwise), decoding and
//! encoding. GBK goes through `encoding_rs`; Windows-1251 (read only) is a table here.

pub mod gbk_builtin;

use vstd::prelude::*;
use vstd::utf8::{decode_utf8, encode_utf8, valid_utf8};

verus! {

/// A text encoding.
#[derive(Debug, Clone, Copy, PartialEq, Eq, Structural)]
pub enum Encoding {
    /// UTF-8 (a leading byte-order mark is dropped when reading).
    Utf8,
    /// GBK (Chinese).
    Gbk,
    /// Windows-1251 (Cyrillic), read only.
    Cp1251,
}

/// Length of a leading UTF-8 byte-order mark `EF BB BF` (0 or 3).
pub open spec fn bom_len(b: Seq<u8>) -> int {
    if b.len() >= 3 && b[0] == 0xEFu8 && b[1] == 0xBBu8 && b[2] == 0xBFu8 {
        3
    } else {
        0
    }
}

/// The bytes without a leading UTF-8 byte-order mark.
pub open spec fn without_bom(b: Seq<u8>) -> Seq<u8> {
    b.skip(bom_len(b))
}

/// The encoding that `detect` picks: UTF-8 when the bytes after any byte-order mark are
/// valid UTF-8, else GBK.
pub open spec fn detected(b: Seq<u8>) -> Encoding {
    if valid_utf8(without_bom(b)) {
        Encoding::Utf8
    } else {
        Encoding::Gbk
    }
}

/// What `String::from_utf8_lossy` gives for some bytes: their UTF-8 text, with each
/// malformed sequence replaced by U+FFFD.
pub uninterp spec fn utf8_lossy(b: Seq<u8>) -> Seq<char>;

/// What `encoding_rs::GBK.decode_without_bom_handling` gives for some bytes.
pub uninterp spec fn gbk_decoded(b: Seq<u8>) -> Seq<char>;

/// What `encoding_rs::GBK.encode` gives for a text.
pub uninterp spec fn gbk_encoded(s: Seq<char>) -> Seq<u8>;

/// Bytes all below 0x80.
pub open spec fn ascii_bytes(b: Seq<u8>) -> bool {
    forall|i: int| 0 <= i < b.len() ==> #[trigger] b[i] < 0x80u8
}

/// The characters that ASCII bytes stand for.
pub open spec fn ascii_chars(b: Seq<u8>) -> Seq<char> {
    b.map_values(|x: u8| x as char)
}

/// Calls `std::str::from_utf8` and tells whether it succeeded, which it does exactly for
/// valid UTF-8.
#[verifier::external_body]
pub(crate) fn utf8_ok(b: &[u8]) -> (r: bool)
    ensures
        r == valid_utf8(b@),
{
    std::str::from_utf8(b).is_ok()
}

/// The text of some bytes read as UTF-8: decoded when valid, else as
/// `String::from_utf8_lossy` makes it (named by `utf8_lossy`).
pub open spec fn utf8_text(b: Seq<u8>) -> Seq<char> {
    if valid_utf8(b) {
        decode_utf8(b)
    } else {
        utf8_lossy(b)
    }
}

/// The text of some bytes read as GBK: the same characters for ASCII bytes, else as
/// `encoding_rs` decodes them (named by `gbk_decoded`).
pub open spec fn gbk_text(b: Seq<u8>) -> Seq<char> {
    if ascii_bytes(b) {
        ascii_chars(b)
    } else {
        gbk_decoded(b)
    }
}

/// The GBK bytes of a text: its own bytes for ASCII text, else as `encoding_rs` encodes it
/// (named by `gbk_encoded`).
pub open spec fn gbk_bytes(s: Seq<char>) -> Seq<u8> {
    if crate::text::is_ascii_text(s) {
        s.map_values(|c: char| c as u8)
    } else {
        gbk_encoded(s)
    }
}

/// Calls `String::from_utf8_lossy`: valid UTF-8 comes back decoded; otherwise the result
/// (malformed sequences replaced by U+FFFD) is named by `utf8_lossy`.
#[verifier::external_body]
pub(crate) fn utf8_lossy_string(b: &[u8]) -> (r: String)
    ensures
        r@ == (if valid_utf8(b@) {
            decode_utf8(b@)
        } else {
            utf8_lossy(b@)
        }),
{
    String::from_utf8_lossy(b).into_owned()
}

/// Calls `encoding_rs::GBK.decode_without_bom_handling`. The result is named by
/// `gbk_decoded`; bytes that are all ASCII come back as the same characters (the crate
/// returns ASCII-only input unchanged). Its buffer-size computation cannot overflow
/// for the inputs admitted here.
#[verifier::external_body]
fn gbk_decode_string(b: &[u8]) -> (r: String)
    requires
        b@.len() <= usize::MAX / 16,
    ensures
        r@ == (if ascii_bytes(b@) {
            ascii_chars(b@)
        } else {
            gbk_decoded(b@)
        }),
{
    encoding_rs::GBK.decode_without_bom_handling(b).0.into_owned()
}

/// Calls `encoding_rs::GBK.encode`. The result is named by `gbk_encoded`; ASCII text comes
/// back as its own bytes (the crate returns ASCII-only input unchanged). Its
/// buffer-size computation cannot overflow for the inputs admitted here.
#[verifier::external_body]
fn gbk_encode_bytes(s: &str) -> (r: Vec<u8>)
    requires
        s@.len() <= usize::MAX / 64,
    ensures
        r@ == (if crate::text::is_ascii_text(s@) {
            s@.map_values(|c: char| c as u8)
        } else {
            gbk_encoded(s@)
        }),
{
    encoding_rs::GBK.encode(s).0.into_owned()
}

pub(crate) fn copy_bytes(b: &[u8], a: usize, e: usize) -> (r: Vec<u8>)
    requires
        a <= e <= b@.len(),
    ensures
        r@ == b@.subrange(a as int, e as int),
{
    let mut r: Vec<u8> = Vec::new();
    let mut k = a;
    while k < e
        invariant
            a <= k <= e,
            e <= b@.len(),
            r@ == b@.subrange(a as int, k as int),
        decreases e - k,
    {
        r.push(b[k]);
        k = k + 1;
        assert(r@ =~= b@.subrange(a as int, k as int));
    }
    r
}

/// The bytes without a leading UTF-8 byte-order mark.
fn strip_bom(bytes: &[u8]) -> (r: Vec<u8>)
    ensures
        r@ == without_bom(bytes@),
{
    let n = bytes.len();
    let start: usize = if n >= 3 && bytes[0] == 0xEF && bytes[1] == 0xBB && bytes[2] == 0xBF {
        3
    } else {
        0
    };
    let r = copy_bytes(bytes, start, n);
    assert(r@ =~= without_bom(bytes@));
    r
}

/// Picks the encoding of some bytes: UTF-8 when they are valid UTF-8 (after any
/// byte-order mark), GBK otherwise.
pub fn detect(bytes: &[u8]) -> (r: Encoding)
    ensures
        r == detected(bytes@),
{
    let data = strip_bom(bytes);
    if utf8_ok(data.as_slice()) {
        Encoding::Utf8
    } else {
        Encoding::Gbk
    }
}

/// The Windows-1251 character of a byte.
pub open spec fn cp1251_char(b: u8) -> char {
    match b {
        128u8 => '\u{0402}',
        129u8 => '\u{0403}',
        130u8 => '\u{201A}',
        131u8 => '\u{0453}',
        132u8 => '\u{201E}',
        133u8 => '\u{2026}',
        134u8 => '\u{2020}',
        135u8 => '\u{2021}',
        136u8 => '\u{20AC}',
        137u8 => '\u{2030}',
        138u8 => '\u{0409}',
        139u8 => '\u{2039}',
        140u8 => '\u{040A}',
        141u8 => '\u{040C}',
        142u8 => '\u{040B}',
        143u8 => '\u{040F}',
        144u8 => '\u{0452}',
        145u8 => '\u{2018}',
        146u8 => '\u{2019}',
        147u8 => '\u{201C}',
        148u8 => '\u{201D}',
        149u8 => '\u{2022}',
        150u8 => '\u{2013}',
        151u8 => '\u{2014}',
        152u8 => '\u{FFFD}',
        153u8 => '\u{2122}',
        154u8 => '\u{0459}',
        155u8 => '\u{203A}',
        156u8 => '\u{045A}',
        157u8 => '\u{045C}',
        158u8 => '\u{045B}',
        159u8 => '\u{045F}',
        160u8 => '\u{00A0}',
        161u8 => '\u{040E}',
        162u8 => '\u{045E}',
        163u8 => '\u{0408}',
        164u8 => '\u{00A4}',
        165u8 => '\u{0490}',
        166u8 => '\u{00A6}',
        167u8 => '\u{00A7}',
        168u8 => '\u{0401}',
        169u8 => '\u{00A9}',
        170u8 => '\u{0404}',
        171u8 => '\u{00AB}',
        172u8 => '\u{00AC}',
        173u8 => '\u{00AD}',
        174u8 => '\u{00AE}',
        175u8 => '\u{0407}',
        176u8 => '\u{00B0}',
        177u8 => '\u{00B1}',
        178u8 => '\u{0406}',
        179u8 => '\u{0456}',
        180u8 => '\u{0491}',
        181u8 => '\u{00B5}',
        182u8 => '\u{00B6}',
        183u8 => '\u{00B7}',
        184u8 => '\u{0451}',
        185u8 => '\u{2116}',
        186u8 => '\u{0454}',
        187u8 => '\u{00BB}',
        188u8 => '\u{0458}',
        189u8 => '\u{0405}',
        190u8 => '\u{0455}',
        191u8 => '\u{0457}',
        192u8 => '\u{0410}',
        193u8 => '\u{0411}',
        194u8 => '\u{0412}',
        195u8 => '\u{0413}',
        196u8 => '\u{0414}',
        197u8 => '\u{0415}',
        198u8 => '\u{0416}',
        199u8 => '\u{0417}',
        200u8 => '\u{0418}',
        201u8 => '\u{0419}',
        202u8 => '\u{041A}',
        203u8 => '\u{041B}',
        204u8 => '\u{041C}',
        205u8 => '\u{041D}',
        206u8 => '\u{041E}',
        207u8 => '\u{041F}',
        208u8 => '\u{0420}',
        209u8 => '\u{0421}',
        210u8 => '\u{0422}',
        211u8 => '\u{0423}',
        212u8 => '\u{0424}',
        213u8 => '\u{0425}',
        214u8 => '\u{0426}',
        215u8 => '\u{0427}',
        216u8 => '\u{0428}',
        217u8 => '\u{0429}',
        218u8 => '\u{042A}',
        219u8 => '\u{042B}',
        220u8 => '\u{042C}',
        221u8 => '\u{042D}',
        222u8 => '\u{042E}',
        223u8 => '\u{042F}',
        224u8 => '\u{0430}',
        225u8 => '\u{0431}',
        226u8 => '\u{0432}',
        227u8 => '\u{0433}',
        228u8 => '\u{0434}',
        229u8 => '\u{0435}',
        230u8 => '\u{0436}',
        231u8 => '\u{0437}',
        232u8 => '\u{0438}',
        233u8 => '\u{0439}',
        234u8 => '\u{043A}',
        235u8 => '\u{043B}',
        236u8 => '\u{043C}',
        237u8 => '\u{043D}',
        238u8 => '\u{043E}',
        239u8 => '\u{043F}',
        240u8 => '\u{0440}',
        241u8 => '\u{0441}',
        242u8 => '\u{0442}',
        243u8 => '\u{0443}',
        244u8 => '\u{0444}',
        245u8 => '\u{0445}',
        246u8 => '\u{0446}',
        247u8 => '\u{0447}',
        248u8 => '\u{0448}',
        249u8 => '\u{0449}',
        250u8 => '\u{044A}',
        251u8 => '\u{044B}',
        252u8 => '\u{044C}',
        253u8 => '\u{044D}',
        254u8 => '\u{044E}',
        255u8 => '\u{044F}',
        _ => b as char,
    }
}

fn cp1251_of(b: u8) -> (c: char)
    ensures
        c == cp1251_char(b),
{
    match b {
        128u8 => '\u{0402}',
        129u8 => '\u{0403}',
        130u8 => '\u{201A}',
        131u8 => '\u{0453}',
        132u8 => '\u{201E}',
        133u8 => '\u{2026}',
        134u8 => '\u{2020}',
        135u8 => '\u{2021}',
        136u8 => '\u{20AC}',
        137u8 => '\u{2030}',
        138u8 => '\u{0409}',
        139u8 => '\u{2039}',
        140u8 => '\u{040A}',
        141u8 => '\u{040C}',
        142u8 => '\u{040B}',
        143u8 => '\u{040F}',
        144u8 => '\u{0452}',
        145u8 => '\u{2018}',
        146u8 => '\u{2019}',
        147u8 => '\u{201C}',
        148u8 => '\u{201D}',
        149u8 => '\u{2022}',
        150u8 => '\u{2013}',
        151u8 => '\u{2014}',
        152u8 => '\u{FFFD}',
        153u8 => '\u{2122}',
        154u8 => '\u{0459}',
        155u8 => '\u{203A}',
        156u8 => '\u{045A}',
        157u8 => '\u{045C}',
        158u8 => '\u{045B}',
        159u8 => '\u{045F}',
        160u8 => '\u{00A0}',
        161u8 => '\u{040E}',
        162u8 => '\u{045E}',
        163u8 => '\u{0408}',
        164u8 => '\u{00A4}',
        165u8 => '\u{0490}',
        166u8 => '\u{00A6}',
        167u8 => '\u{00A7}',
        168u8 => '\u{0401}',
        169u8 => '\u{00A9}',
        170u8 => '\u{0404}',
        171u8 => '\u{00AB}',
        172u8 => '\u{00AC}',
        173u8 => '\u{00AD}',
        174u8 => '\u{00AE}',
        175u8 => '\u{0407}',
        176u8 => '\u{00B0}',
        177u8 => '\u{00B1}',
        178u8 => '\u{0406}',
        179u8 => '\u{0456}',
        180u8 => '\u{0491}',
        181u8 => '\u{00B5}',
        182u8 => '\u{00B6}',
        183u8 => '\u{00B7}',
        184u8 => '\u{0451}',
        185u8 => '\u{2116}',
        186u8 => '\u{0454}',
        187u8 => '\u{00BB}',
        188u8 => '\u{0458}',
        189u8 => '\u{0405}',
        190u8 => '\u{0455}',
        191u8 => '\u{0457}',
        192u8 => '\u{0410}',
        193u8 => '\u{0411}',
        194u8 => '\u{0412}',
        195u8 => '\u{0413}',
        196u8 => '\u{0414}',
        197u8 => '\u{0415}',
        198u8 => '\u{0416}',
        199u8 => '\u{0417}',
        200u8 => '\u{0418}',
        201u8 => '\u{0419}',
        202u8 => '\u{041A}',
        203u8 => '\u{041B}',
        204u8 => '\u{041C}',
        205u8 => '\u{041D}',
        206u8 => '\u{041E}',
        207u8 => '\u{041F}',
        208u8 => '\u{0420}',
        209u8 => '\u{0421}',
        210u8 => '\u{0422}',
        211u8 => '\u{0423}',
        212u8 => '\u{0424}',
        213u8 => '\u{0425}',
        214u8 => '\u{0426}',
        215u8 => '\u{0427}',
        216u8 => '\u{0428}',
        217u8 => '\u{0429}',
        218u8 => '\u{042A}',
        219u8 => '\u{042B}',
        220u8 => '\u{042C}',
        221u8 => '\u{042D}',
        222u8 => '\u{042E}',
        223u8 => '\u{042F}',
        224u8 => '\u{0430}',
        225u8 => '\u{0431}',
        226u8 => '\u{0432}',
        227u8 => '\u{0433}',
        228u8 => '\u{0434}',
        229u8 => '\u{0435}',
        230u8 => '\u{0436}',
        231u8 => '\u{0437}',
        232u8 => '\u{0438}',
        233u8 => '\u{0439}',
        234u8 => '\u{043A}',
        235u8 => '\u{043B}',
        236u8 => '\u{043C}',
        237u8 => '\u{043D}',
        238u8 => '\u{043E}',
        239u8 => '\u{043F}',
        240u8 => '\u{0440}',
        241u8 => '\u{0441}',
        242u8 => '\u{0442}',
        243u8 => '\u{0443}',
        244u8 => '\u{0444}',
        245u8 => '\u{0445}',
        246u8 => '\u{0446}',
        247u8 => '\u{0447}',
        248u8 => '\u{0448}',
        249u8 => '\u{0449}',
        250u8 => '\u{044A}',
        251u8 => '\u{044B}',
        252u8 => '\u{044C}',
        253u8 => '\u{044D}',
        254u8 => '\u{044E}',
        255u8 => '\u{044F}',
        _ => b as char,
    }
}

/// Windows-1251 text of some bytes.
pub open spec fn cp1251_text(b: Seq<u8>) -> Seq<char> {
    b.map_values(|x: u8| cp1251_char(x))
}

/// Windows-1251 puts the Cyrillic letters А..Я, а..я in alphabetical order at bytes
/// 0xC0..=0xFF: byte `b` there is the character U+0410 + (b - 0xC0).
pub proof fn lemma_cp1251_cyrillic(b: u8)
    requires
        0xC0 <= b,
    ensures
        cp1251_char(b) as int == 0x410 + (b - 0xC0),
{
}

/// The byte from 0x80 to 0xBF (but 0x98) that a character other than a Cyrillic letter
/// А..я comes from in Windows-1251; 0 for other characters.
spec fn cp1251_high_byte(c: char) -> int {
    match c {
        '\u{0402}' => 128,
        '\u{0403}' => 129,
        '\u{201A}' => 130,
        '\u{0453}' => 131,
        '\u{201E}' => 132,
        '\u{2026}' => 133,
        '\u{2020}' => 134,
        '\u{2021}' => 135,
        '\u{20AC}' => 136,
        '\u{2030}' => 137,
        '\u{0409}' => 138,
        '\u{2039}' => 139,
        '\u{040A}' => 140,
        '\u{040C}' => 141,
        '\u{040B}' => 142,
        '\u{040F}' => 143,
        '\u{0452}' => 144,
        '\u{2018}' => 145,
        '\u{2019}' => 146,
        '\u{201C}' => 147,
        '\u{201D}' => 148,
        '\u{2022}' => 149,
        '\u{2013}' => 150,
        '\u{2014}' => 151,
        '\u{2122}' => 153,
        '\u{0459}' => 154,
        '\u{203A}' => 155,
        '\u{045A}' => 156,
        '\u{045C}' => 157,
        '\u{045B}' => 158,
        '\u{045F}' => 159,
        '\u{00A0}' => 160,
        '\u{040E}' => 161,
        '\u{045E}' => 162,
        '\u{0408}' => 163,
        '\u{00A4}' => 164,
        '\u{0490}' => 165,
        '\u{00A6}' => 166,
        '\u{00A7}' => 167,
        '\u{0401}' => 168,
        '\u{00A9}' => 169,
        '\u{0404}' => 170,
        '\u{00AB}' => 171,
        '\u{00AC}' => 172,
        '\u{00AD}' => 173,
        '\u{00AE}' => 174,
        '\u{0407}' => 175,
        '\u{00B0}' => 176,
        '\u{00B1}' => 177,
        '\u{0406}' => 178,
        '\u{0456}' => 179,
        '\u{0491}' => 180,
        '\u{00B5}' => 181,
        '\u{00B6}' => 182,
        '\u{00B7}' => 183,
        '\u{0451}' => 184,
        '\u{2116}' => 185,
        '\u{0454}' => 186,
        '\u{00BB}' => 187,
        '\u{0458}' => 188,
        '\u{0405}' => 189,
        '\u{0455}' => 190,
        '\u{0457}' => 191,
        _ => 0,
    }
}

/// Two different bytes from 0x80 on, other than the undefined 0x98, are different
/// Windows-1251 characters.
pub proof fn lemma_cp1251_injective(a: u8, c: u8)
    requires
        0x80 <= a,
        0x80 <= c,
        a != c,
        a != 0x98,
        c != 0x98,
    ensures
        cp1251_char(a) != cp1251_char(c),
{
    lemma_cp1251_high(a);
    lemma_cp1251_high(c);
    if 0xC0 <= a {
        lemma_cp1251_cyrillic(a);
    }
    if 0xC0 <= c {
        lemma_cp1251_cyrillic(c);
    }
}

/// A byte from 0x80 to 0xBF (but 0x98) is a character outside U+0410..U+044F that
/// `cp1251_high_byte` maps back to the byte.
proof fn lemma_cp1251_high(b: u8)
    ensures
        0x80 <= b < 0xC0 && b != 0x98 ==> cp1251_high_byte(cp1251_char(b)) == b && !(0x410
            <= cp1251_char(b) as int <= 0x44F),
{
}

/// Decoding Windows-1251 text gives one character per byte; bytes 0xC0..=0xFF give the
/// Cyrillic letters U+0410..U+044F in order; and bytes from 0x80 on (but the undefined
/// 0x98) that differ give different characters.
pub proof fn lemma_cp1251_decoding(b: Seq<u8>)
    ensures
        decoded(b, Encoding::Cp1251).len() == b.len(),
        forall|i: int|
            0 <= i < b.len() && 0xC0 <= b[i] ==> #[trigger] decoded(b, Encoding::Cp1251)[i] as int
                == 0x410 + (b[i] - 0xC0),
        forall|i: int, j: int|
            0 <= i < b.len() && 0 <= j < b.len() && 0x80 <= b[i] && 0x80 <= b[j] && b[i] != b[j]
                && b[i] != 0x98 && b[j] != 0x98 ==> #[trigger] decoded(b, Encoding::Cp1251)[i]
                != #[trigger] decoded(b, Encoding::Cp1251)[j],
{
    assert forall|i: int| 0 <= i < b.len() && 0xC0 <= b[i] implies #[trigger] decoded(
        b,
        Encoding::Cp1251,
    )[i] as int == 0x410 + (b[i] - 0xC0) by {
        lemma_cp1251_cyrillic(b[i]);
    }
    assert forall|i: int, j: int|
        0 <= i < b.len() && 0 <= j < b.len() && 0x80 <= b[i] && 0x80 <= b[j] && b[i] != b[j]
            && b[i] != 0x98 && b[j] != 0x98 implies #[trigger] decoded(b, Encoding::Cp1251)[i]
        != #[trigger] decoded(b, Encoding::Cp1251)[j] by {
        lemma_cp1251_injective(b[i], b[j]);
    }
}

fn decode_cp1251(bytes: &[u8]) -> (r: String)
    ensures
        r@ == cp1251_text(bytes@),
{
    let mut out: Vec<char> = Vec::new();
    let n = bytes.len();
    let mut k: usize = 0;
    while k < n
        invariant
            n == bytes@.len(),
            k <= n,
            out@ == cp1251_text(bytes@.take(k as int)),
        decreases n - k,
    {
        out.push(cp1251_of(bytes[k]));
        k = k + 1;
        assert(out@ =~= cp1251_text(bytes@.take(k as int)));
    }
    assert(bytes@.take(n as int) =~= bytes@);
    crate::text::chars_to_string(out.as_slice())
}

/// The text that decoding some bytes in an encoding gives.
pub open spec fn decoded(b: Seq<u8>, enc: Encoding) -> Seq<char> {
    match enc {
        Encoding::Utf8 => utf8_text(without_bom(b)),
        Encoding::Gbk => gbk_text(b),
        Encoding::Cp1251 => cp1251_text(b),
    }
}

/// Decodes bytes in the given encoding (UTF-8 without any byte-order mark, malformed
/// sequences replaced).
pub fn decode_with(bytes: &[u8], enc: Encoding) -> (r: String)
    requires
        bytes@.len() <= usize::MAX / 16,
    ensures
        r@ == decoded(bytes@, enc),
{
    match enc {
        Encoding::Utf8 => {
            let data = strip_bom(bytes);
            utf8_lossy_string(data.as_slice())
        },
        Encoding::Gbk => gbk_decode_string(bytes),
        Encoding::Cp1251 => decode_cp1251(bytes),
    }
}

/// Decodes bytes in the encoding that `detect` picks.
pub fn decode(bytes: &[u8]) -> (r: String)
    requires
        bytes@.len() <= usize::MAX / 16,
    ensures
        r@ == decoded(bytes@, detected(bytes@)),
{
    let enc = detect(bytes);
    decode_with(bytes, enc)
}

/// The bytes that encoding a text gives (Windows-1251 is not written: UTF-8 is).
pub open spec fn encoded(s: Seq<char>, enc: Encoding) -> Seq<u8> {
    match enc {
        Encoding::Gbk => gbk_bytes(s),
        _ => encode_utf8(s),
    }
}

/// Encodes a text.
pub fn encode(text: &str, enc: Encoding) -> (r: Vec<u8>)
    requires
        text@.len() <= usize::MAX / 64,
    ensures
        r@ == encoded(text@, enc),
{
    match enc {
        Encoding::Gbk => gbk_encode_bytes(text),
        _ => vstd::slice::slice_to_vec(text.as_bytes()),
    }
}

/// Writing a text as UTF-8 and reading the bytes back (detecting the encoding, or naming
/// UTF-8) gives the text, unless it starts with U+FEFF, which reads as a byte-order mark.
pub proof fn lemma_utf8_round_trip(s: Seq<char>)
    requires
        s.len() == 0 || s[0] != '\u{FEFF}',
    ensures
        detected(encoded(s, Encoding::Utf8)) == Encoding::Utf8,
        decoded(encoded(s, Encoding::Utf8), Encoding::Utf8) == s,
{
    let b = encode_utf8(s);
    vstd::utf8::encode_utf8_valid_utf8(s);
    vstd::utf8::encode_utf8_decode_utf8(s);
    if bom_len(b) == 3 {
        assert(b.len() > 0);
        assert(decode_utf8(b) == seq![vstd::utf8::decode_first_scalar(b) as char]
            + decode_utf8(vstd::utf8::pop_first_scalar(b)));
        let b0 = b[0];
        let b1 = b[1];
        let b2 = b[2];
        assert(b0 == 0xEFu8 && b1 == 0xBBu8 && b2 == 0xBFu8);
        assert(vstd::utf8::is_leading_byte_width_3(b0));
        let cp = vstd::utf8::decode_first_codepoint(b);
        assert(cp == vstd::utf8::codepoint_width_3(b0, b1, b2));
        assert(vstd::utf8::codepoint_width_3(0xEFu8, 0xBBu8, 0xBFu8) == 0xFEFFu32) by (bit_vector);
        assert(s[0] == decode_utf8(b)[0]);
        assert(s[0] == cp as char);
    }
    assert(without_bom(b) =~= b);
}

/// An ASCII character and its byte stand for the same number.
pub proof fn lemma_ascii_char_byte(c: char)
    requires
        c <= '\u{7f}',
    ensures
        (c as u8) < 0x80u8,
        ((c as u8) as char) == c,
        (c as u8) as int == c as int,
{
    let x = c as u32;
    assert(x <= 127);
    assert((x as u8) as u32 == x && (x as u8) < 0x80u8) by (bit_vector)
        requires
            x <= 127,
    ;
}

/// Writing ASCII text as GBK and reading it back as GBK gives the text.
pub proof fn lemma_gbk_ascii_round_trip(s: Seq<char>)
    requires
        crate::text::is_ascii_text(s),
    ensures
        decoded(encoded(s, Encoding::Gbk), Encoding::Gbk) == s,
{
    let b = s.map_values(|c: char| c as u8);
    assert forall|i: int| 0 <= i < s.len() implies #[trigger] b[i] < 0x80u8 && ((b[i] as char)
        == s[i]) by {
        lemma_ascii_char_byte(s[i]);
    }
    assert(ascii_chars(b) =~= s);
}

} // verus!

