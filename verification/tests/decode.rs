use tre::decode::{cp437_high, decode};

const SAMPLE: &str = "demo/\n├── a.txt\n└── b/\n";

fn utf16le(s: &str) -> Vec<u8> {
    s.encode_utf16().flat_map(u16::to_le_bytes).collect()
}

#[test]
fn table_is_complete() {
    assert_eq!(cp437_high().len(), 128);
}

#[test]
fn utf8_with_and_without_bom() {
    assert_eq!(decode(SAMPLE.as_bytes()), SAMPLE);
    assert_eq!(decode(&[&[0xEF, 0xBB, 0xBF][..], SAMPLE.as_bytes()].concat()), SAMPLE);
}

#[test]
fn utf16_with_and_without_bom() {
    assert_eq!(decode(&[&[0xFF, 0xFE][..], &utf16le(SAMPLE)].concat()), SAMPLE);
    assert_eq!(decode(&utf16le(SAMPLE)), SAMPLE);
    let be: Vec<u8> = SAMPLE.encode_utf16().flat_map(u16::to_be_bytes).collect();
    assert_eq!(decode(&be), SAMPLE);
}

#[test]
fn cp437() {
    // "├── a" in code page 437
    assert_eq!(decode(&[0xC3, 0xC4, 0xC4, b' ', b'a']), "├── a");
}

#[test]
fn bom_with_broken_utf8_is_replaced() {
    assert_eq!(decode(&[0xEF, 0xBB, 0xBF, b'a', 0xFF, b'b']), "a\u{FFFD}b");
}

#[test]
fn broken_utf8_without_bom_reads_as_cp437() {
    assert_eq!(decode(&[b'a', 0x80, 0xFF]), "aÇ\u{a0}");
}

#[test]
fn utf16_lone_surrogate_and_odd_byte() {
    assert_eq!(decode(&[0xFF, 0xFE, 0x00, 0xD8, 0x61, 0x00]), "\u{FFFD}a");
    assert_eq!(decode(&[0xFF, 0xFE, 0x61, 0x00, 0x62]), "a");
    assert_eq!(decode(&[0xFE, 0xFF, 0x00, 0x61]), "a");
}

#[test]
fn empty_input() {
    assert_eq!(decode(&[]), "");
}
