//! Reversible encoding of a path string into a ledger-safe key.
//!
//! A path is turned into its UTF-8 bytes and those into a base64 text, which
//! uses only alphanumeric characters, `+`, `/` and `=`, so the key can never
//! collide with the ledger's own separators. Decoding is the exact inverse:
//! it accepts precisely the keys that encoding produces and rejects every
//! other key as malformed, never substituting or truncating.
use vstd::prelude::*;

verus! {

use vstd::string::StringSliceAdditionalSpecFns;
use vstd::string::StrSliceExecFns;
use vstd::utf8::decode_utf8;
use vstd::utf8::encode_utf8;
use vstd::utf8::valid_utf8;

broadcast use vstd::utf8::encode_utf8_valid_utf8, vstd::utf8::encode_utf8_decode_utf8, vstd::utf8::decode_utf8_encode_utf8;

/// The base64 text of a byte sequence, as `base64::encode` produces it
/// (standard alphabet, padded). A function of the bytes alone.
pub uninterp spec fn b64_of(bytes: Seq<u8>) -> Seq<char>;

/// The ledger key of a path: the base64 text of its UTF-8 bytes.
pub open spec fn key_of(p: Seq<char>) -> Seq<char> {
    b64_of(encode_utf8(p))
}

/// The ledger key of a path as the stored bytes: the UTF-8 bytes of the
/// base64 text (base64 text is ASCII, so one byte per character).
pub open spec fn key_bytes_of(p: Seq<char>) -> Seq<u8> {
    encode_utf8(key_of(p))
}

/// A key that was not produced by `encode`.
#[derive(Clone, Copy, Debug, PartialEq, Eq, Structural)]
pub enum DecodeError {
    Malformed,
}

/// Relies on `base64::encode`: the standard-alphabet, padded base64 text of
/// the bytes, a function of the bytes alone. The length bound keeps the
/// library clear of the point where base64's output-size computation would
/// overflow and panic.
#[verifier::external_body]
fn b64_encode(b: &Vec<u8>) -> (r: String)
    requires
        b@.len() <= usize::MAX as nat / 8,
    ensures
        r@ == b64_of(b@),
{
    base64::encode(b.as_slice())
}

/// Relies on `base64::decode`: decoding inverts encoding, so a text that
/// `base64::encode` produced decodes to exactly the bytes that were encoded;
/// and a successful decode yields at most as many bytes as the input has
/// (three bytes for each four input characters).
#[verifier::external_body]
fn b64_decode(s: &str) -> (r: Option<Vec<u8>>)
    requires
        s.spec_bytes().len() <= usize::MAX as nat / 8,
    ensures
        r is None ==> forall|b: Seq<u8>| #[trigger] b64_of(b) != s@,
        r matches Some(v) ==> (forall|b: Seq<u8>| #[trigger] b64_of(b) == s@ ==> v@ == b) && v@.len()
            <= s.spec_bytes().len(),
{
    base64::decode(s).ok()
}

/// The ledger key for path `p`: injective, and made of ledger-safe
/// characters only.
pub fn encode(p: &str) -> (k: String)
    requires
        encode_utf8(p@).len() <= usize::MAX as nat / 8,
    ensures
        k@ == key_of(p@),
{
    let bytes = p.as_bytes_vec();
    b64_encode(&bytes)
}

/// The exact inverse of `encode`: returns the path whose key is `key`, and
/// `DecodeError::Malformed` precisely when no path has this key — whether
/// the key is not valid base64, its bytes are not valid text, or it is not
/// in the canonical form `encode` produces.
///
/// The second clause is the round-trip law: for every path `p`,
/// `decode` applied to the key of `p` yields `Ok` of exactly `p`.
pub fn decode(key: &str) -> (r: Result<String, DecodeError>)
    requires
        key.spec_bytes().len() <= usize::MAX as nat / 8,
    ensures
        match r {
            Ok(p) => key@ == key_of(p@),
            Err(e) => e == DecodeError::Malformed && (forall|p: Seq<char>|
                key@ != key_of(p)),
        },
        forall|p: Seq<char>| key@ == #[trigger] key_of(p) ==> (r matches Ok(q) && q@ == p),
{
    let decoded = b64_decode(key);
    match decoded {
        None => {
            proof {
                assert forall|p: Seq<char>| key@ != key_of(p) by {
                    if key@ == key_of(p) {
                        assert(b64_of(encode_utf8(p)) == key@);
                    }
                }
            }
            Err(DecodeError::Malformed)
        },
        Some(bytes) => {
            match crate::text::utf8_to_string(&bytes) {
                None => {
                    proof {
                        assert forall|p: Seq<char>| key@ != key_of(p) by {
                            if key@ == key_of(p) {
                                assert(b64_of(encode_utf8(p)) == key@);
                                assert(valid_utf8(bytes@));
                            }
                        }
                    }
                    Err(DecodeError::Malformed)
                },
                Some(t) => {
                    proof {
                        assert(encode_utf8(t@) == bytes@);
                    }
                    let reencoded = encode(t.as_str());
                    let key_owned = key.to_owned();
                    if reencoded == key_owned {
                        proof {
                            assert forall|p: Seq<char>| key@ == #[trigger] key_of(p)
                                implies t@ == p by {
                                assert(b64_of(encode_utf8(p)) == key@);
                                assert(bytes@ == encode_utf8(p));
                                assert(decode_utf8(encode_utf8(p)) == p);
                            }
                        }
                        Ok(t)
                    } else {
                        proof {
                            assert forall|p: Seq<char>| key@ != key_of(p) by {
                                if key@ == key_of(p) {
                                    assert(b64_of(encode_utf8(p)) == key@);
                                    assert(bytes@ == encode_utf8(p));
                                    assert(reencoded@ == key_of(t@));
                                    assert(reencoded@ == b64_of(bytes@));
                                }
                            }
                        }
                        Err(DecodeError::Malformed)
                    }
                },
            }
        },
    }
}

} // verus!
