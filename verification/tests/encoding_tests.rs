use comtrade_io::encoding::gbk_builtin;
use comtrade_io::encoding::{decode, decode_with, detect, encode, Encoding};

#[test]
fn detect_prefers_valid_utf8() {
    assert_eq!(detect("母线".as_bytes()), Encoding::Utf8);
    assert_eq!(detect(b"plain ascii"), Encoding::Utf8);
    assert_eq!(detect(&[0xEF, 0xBB, 0xBF, b'a']), Encoding::Utf8);
    // "母线" in GBK is not valid UTF-8.
    assert_eq!(detect(&[0xC4, 0xB8, 0xCF, 0xDF]), Encoding::Gbk);
}

#[test]
fn decode_strips_bom_and_reads_gbk() {
    assert_eq!(decode(&[0xEF, 0xBB, 0xBF, b'h', b'i']), "hi");
    assert_eq!(decode(&[0xC4, 0xB8, 0xCF, 0xDF]), "母线");
    assert_eq!(decode_with(&[0xC4, 0xB8, 0xCF, 0xDF], Encoding::Gbk), "母线");
    assert_eq!(decode_with(b"abc", Encoding::Gbk), "abc");
    assert_eq!(decode_with(&[0xFF, b'a'], Encoding::Utf8), "\u{FFFD}a");
}

#[test]
fn cp1251_table() {
    assert_eq!(decode_with(&[0xC0, 0xE0, 0x41, 0x80, 0x98], Encoding::Cp1251), "Аа\u{41}Ђ\u{FFFD}");
    assert_eq!(decode_with(&[0xA8, 0xB8, 0xB9], Encoding::Cp1251), "Ёё№");
}

#[test]
fn encode_and_decode_round_trip() {
    let text = "220kV线路故障";
    assert_eq!(encode(text, Encoding::Utf8), text.as_bytes().to_vec());
    assert_eq!(decode_with(&encode(text, Encoding::Utf8), Encoding::Utf8), text);
    let gbk = encode(text, Encoding::Gbk);
    assert_ne!(gbk, text.as_bytes().to_vec());
    assert_eq!(decode_with(&gbk, Encoding::Gbk), text);
    assert_eq!(encode("ABC", Encoding::Gbk), b"ABC".to_vec());
    assert_eq!(encode("Ж", Encoding::Cp1251), "Ж".as_bytes().to_vec());
}

#[test]
fn builtin_gbk_codec() {
    assert_eq!(gbk_builtin::decode(b"ok"), "ok");
    assert_eq!(gbk_builtin::decode(&[0xC4, 0xB8, b'x']), "\u{FFFD}x");
    assert_eq!(gbk_builtin::decode(&[0x80, 0xC4]), "\u{FFFD}\u{FFFD}");
    assert_eq!(gbk_builtin::decode(&[0x81, 0x30]), "\u{FFFD}0");
    assert_eq!(gbk_builtin::encode("a母b"), b"a?b".to_vec());
}
