use originscan::dump::{scan_text, scan_utf16_dump};

const MARKER: &str = "[ k = Origin\n4b.02, l = 8 (8) ]\n  720 00 00 00 00 00 00 00 00\n";

fn utf16le_bytes(text: &str, with_bom: bool) -> Vec<u8> {
    let mut out = Vec::new();
    if with_bom {
        out.push(0xff);
        out.push(0xfe);
    }
    for unit in text.encode_utf16() {
        out.push((unit & 0xff) as u8);
        out.push((unit >> 8) as u8);
    }
    out
}

#[test]
fn utf16_dump_with_bom_scanned() {
    let data = utf16le_bytes(MARKER, true);
    let caps = scan_utf16_dump(&data);
    assert_eq!(caps.len(), 1);
    let payload: String = caps[0].iter().collect();
    assert_eq!(payload, "00 00 00 00 00 00 00 00");
}

#[test]
fn utf16_dump_without_bom_scanned() {
    let data = utf16le_bytes(MARKER, false);
    assert_eq!(scan_utf16_dump(&data).len(), 1);
}

#[test]
fn utf16_dump_without_marker_is_empty() {
    let data = utf16le_bytes("a transcript with nothing in it\n", true);
    assert!(scan_utf16_dump(&data).is_empty());
}

#[test]
fn whole_text_scan_finds_marker() {
    assert_eq!(scan_text(MARKER).len(), 1);
}
