//! Scanning an analyzer dump that is already whole in memory, as text or as
//! the bytes of a UTF-16LE transcript.
use vstd::prelude::*;

verus! {

use crate::pattern::captures_from;
use crate::pattern::find_captures;
use crate::text::chars_of;

/// The text that the UTF-16LE decoding of the bytes yields (BOM honoured,
/// malformed sequences replaced). A function of the bytes alone.
pub uninterp spec fn utf16le_text_of(b: Seq<u8>) -> Seq<char>;

/// Relies on `encoding_rs::UTF_16LE.decode`: the decoded text is determined
/// by the bytes alone — a byte-order mark is honoured and malformed
/// sequences are replaced, never dropped silently.
#[verifier::external_body]
fn decode_utf16le(b: &Vec<u8>) -> (r: String)
    ensures
        r@ == utf16le_text_of(b@),
{
    let (text, _, _) = encoding_rs::UTF_16LE.decode(b.as_slice());
    text.into_owned()
}

/// All marker payloads in a whole dump text, leftmost non-overlapping.
pub fn scan_text(text: &str) -> (caps: Vec<Vec<char>>)
    ensures
        caps.deep_view() == captures_from(text@, 0),
{
    let tc = chars_of(text);
    find_captures(&tc)
}

/// All marker payloads in the bytes of a UTF-16LE dump file.
pub fn scan_utf16_dump(data: &Vec<u8>) -> (caps: Vec<Vec<char>>)
    ensures
        caps.deep_view() == captures_from(utf16le_text_of(data@), 0),
{
    let text = decode_utf16le(data);
    scan_text(text.as_str())
}

} // verus!
