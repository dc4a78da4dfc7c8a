use originscan::matcher::{scan_bytes, ChunkedMatcher};

const MARKER: &str = "[ k = Origin\n4b.02, l =     8 (8) ]\n       720 00 00 00 00 00 00 00 00";

fn payload() -> Vec<char> {
    "00 00 00 00 00 00 00 00".chars().collect()
}

#[test]
fn split_marker_found_at_every_chunk_size() {
    let stream = format!("some preamble\n{}\nsome trailer\n", MARKER);
    let data: Vec<u8> = stream.into_bytes();
    for chunk_size in 1..(data.len() + 2) {
        let caps = scan_bytes(&data, chunk_size, 200);
        assert!(
            !caps.is_empty(),
            "marker lost at chunk size {chunk_size}"
        );
        for cap in &caps {
            assert_eq!(cap, &payload());
        }
    }
}

#[test]
fn ceiling_below_span_misses_split_marker() {
    // The ceiling is far below the marker's span, so once the scan crosses
    // a chunk boundary inside the marker, its start has been cut away: the
    // documented trade-off of the bounded window.
    let data: Vec<u8> = MARKER.as_bytes().to_vec();
    let caps = scan_bytes(&data, 30, 8);
    assert!(caps.is_empty());
}

#[test]
fn single_chunk_still_fits_small_ceiling() {
    // The same small ceiling misses nothing while the marker arrives whole,
    // because the window is only cut back after each search.
    let data: Vec<u8> = MARKER.as_bytes().to_vec();
    let caps = scan_bytes(&data, data.len(), 8);
    assert_eq!(caps.len(), 1);
}

#[test]
fn invalid_chunk_is_dropped_without_poisoning_the_window() {
    let mut m = ChunkedMatcher::new(200);
    assert!(!m.push_chunk(&MARKER.as_bytes()[..20].to_vec()));
    // An undecodable chunk: dropped whole, the window stays as it was.
    assert!(!m.push_chunk(&vec![0xff, 0xfe]));
    assert!(m.push_chunk(&MARKER.as_bytes()[20..].to_vec()));
    let caps = m.into_captures();
    assert_eq!(caps.len(), 1);
    assert_eq!(caps[0], payload());
}

#[test]
fn push_chunk_reports_found_once_seen() {
    let mut m = ChunkedMatcher::new(200);
    let found_early = m.push_chunk(&b"nothing here".to_vec());
    assert!(!found_early);
    assert!(!m.found());
    let found_late = m.push_chunk(&format!("{}\n", MARKER).into_bytes());
    assert!(found_late);
    assert!(m.found());
}

#[test]
fn eight_byte_chunks_with_eighty_char_ceiling() {
    // Chunks far smaller than the marker, cutting it in the middle of the
    // payload, with the window ceiling just above the marker's span.
    let stream = format!("preamble\n{}\ntrailer\n", MARKER);
    let data: Vec<u8> = stream.into_bytes();
    let caps = scan_bytes(&data, 8, 80);
    assert!(!caps.is_empty());
    for cap in &caps {
        assert_eq!(cap, &payload());
    }
}

#[test]
fn empty_stream_yields_nothing() {
    let data: Vec<u8> = Vec::new();
    assert!(scan_bytes(&data, 8, 80).is_empty());
}
