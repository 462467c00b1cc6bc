//! The code-page text encoding, against the real code-page tables.

use mzp::encoding::{decode_multiline, decode_oneline, encode_multiline, encode_oneline};

fn en_str(v: &Vec<char>) -> String {
    v.iter().collect()
}

fn serialize_code(input: &str) -> Vec<u8> {
    encode_multiline(&input.chars().collect()).expect("should encode")
}

fn serialize_title(input: &str) -> Vec<u8> {
    encode_oneline(&input.chars().collect()).expect("should encode")
}

#[test]
fn roundtrip_multiline() {
    let bytes: Vec<u8> = (0..=255).collect();
    assert_eq!(bytes, serialize_code(&en_str(&decode_multiline(&bytes))));
}

#[test]
fn roundtrip_oneline() {
    let bytes: Vec<u8> = (0..=255).collect();
    assert_eq!(bytes, serialize_title(&en_str(&decode_oneline(&bytes))));
}

#[test]
fn newlines_to_cr() {
    assert_eq!(serialize_code("ABC\nDEF"), vec![65, 66, 67, 13, 68, 69, 70]);
}

#[test]
fn byte_13_to_dingbat() {
    // code is allowed to have newlines
    let bytes = serialize_code("ABC\nDEF");
    assert!(bytes.contains(&13));

    // but in a board title, that same byte is a dingbat
    assert_eq!(en_str(&decode_oneline(&bytes)), "ABC♪DEF");
}

#[test]
fn wingdings() {
    assert_eq!(
        en_str(&decode_multiline(&(0..32).collect::<Vec<_>>())),
        "\0☺☻♥♦♣♠•◘○◙♂♀\n♫☼►◄↕‼¶§▬↨↑↓→←∟↔▲▼"
    );
    assert_eq!(
        en_str(&decode_multiline(&(112..144).collect::<Vec<_>>())),
        "pqrstuvwxyz{|}~⌂ÇüéâäàåçêëèïîìÄÅ"
    );
    assert_eq!(
        en_str(&decode_multiline(&(224..=255).collect::<Vec<_>>())),
        "αßΓπΣσµτΦΘΩδ∞φε∩≡±≥≤⌠⌡÷≈°∙·√ⁿ²■\u{a0}"
    );
}

#[test]
fn decode_is_not_the_identity() {
    // byte 176 is the light-shade block, not a Latin-1 character
    assert_eq!(decode_oneline(&vec![176u8]), vec!['░']);
    // a character outside the code page cannot be encoded
    assert!(encode_oneline(&vec!['\u{1F600}']).is_err());
    assert!(encode_multiline(&vec!['\u{1F600}']).is_err());
}
