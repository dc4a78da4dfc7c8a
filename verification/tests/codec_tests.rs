use originscan::codec::{decode, encode, DecodeError};

fn round_trip(p: &str) {
    let key = encode(p);
    let back = decode(key.as_str());
    assert_eq!(back.unwrap(), p.to_string());
}

#[test]
fn round_trip_ascii_path() {
    round_trip("/media/footage/tape01.mxf");
}

#[test]
fn round_trip_windows_path() {
    round_trip("C:\\media\\footage\\tape01.mxf");
}

#[test]
fn round_trip_unicode_path() {
    round_trip("/media/ćevapčići/мастер те́йп.mxf");
}

#[test]
fn round_trip_empty_path() {
    round_trip("");
}

#[test]
fn round_trip_path_with_spaces_and_separators() {
    round_trip("relative dir/with spaces/and=signs+plus/clip.mxf");
}

#[test]
fn encode_produces_base64_of_utf8_bytes() {
    let p = "/media/a.mxf";
    assert_eq!(encode(p), base64::encode(p.as_bytes()));
}

#[test]
fn decode_rejects_non_base64() {
    assert_eq!(decode("not//valid!!!"), Err(DecodeError::Malformed));
}

#[test]
fn decode_rejects_unpadded_key() {
    // Never produced by encode, whether the decoder tolerates it or not.
    assert_eq!(decode("QQ"), Err(DecodeError::Malformed));
}

#[test]
fn decode_rejects_key_of_invalid_utf8() {
    // Valid base64, but the encoded bytes are not valid UTF-8 text.
    let key = base64::encode([0xffu8, 0xfe, 0x00].as_slice());
    assert_eq!(decode(key.as_str()), Err(DecodeError::Malformed));
}

#[test]
fn decode_rejects_non_canonical_key() {
    // "QR==" either fails to decode or decodes to the same byte as "QQ==";
    // in both cases it is not a key that encode produced.
    assert_eq!(decode("QR=="), Err(DecodeError::Malformed));
}
