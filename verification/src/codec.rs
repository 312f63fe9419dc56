//! The binary-to-text codec that makes chunk bytes and file names safe to
//! embed in a single visual frame.  One codec is pinned for the whole
//! protocol: the standard alphabet-64 encoding with padding, as the
//! `base64` crate implements it.  Sender and receiver must agree on the
//! codec; it is not negotiated per call.

use base64::prelude::BASE64_STANDARD;
use base64::Engine;
use vstd::prelude::*;

verus! {

/// The text the codec produces for a byte sequence, as
/// `base64::engine::general_purpose::STANDARD.encode` computes it: a fixed
/// function of the bytes alone.
pub uninterp spec fn b64_of(b: Seq<u8>) -> Seq<char>;

/// What the codec's decoder returns for a text, as
/// `base64::engine::general_purpose::STANDARD.decode` computes it: `None`
/// exactly where that engine rejects the text.
pub uninterp spec fn b64_decode_of(s: Seq<char>) -> Option<Seq<u8>>;

/// The characters the encoder can emit: the standard alphabet plus the
/// padding character.
pub open spec fn is_b64_char(c: char) -> bool {
    ||| (65 <= c as u32 && c as u32 <= 90)  // 'A'..'Z'
    ||| (97 <= c as u32 && c as u32 <= 122)  // 'a'..'z'
    ||| (48 <= c as u32 && c as u32 <= 57)  // '0'..'9'
    ||| c == '+'
    ||| c == '/'
    ||| c == '='
}

/// Encode bytes as text.
///
/// Relies on `base64`'s `STANDARD` engine: the output is drawn from the
/// standard alphabet (plus `'='` padding), and decoding it with the same
/// engine gives the input back.
#[verifier::external_body]
pub fn encode(bytes: &[u8]) -> (r: String)
    ensures
        r@ == b64_of(bytes@),
        b64_decode_of(r@) == Some(bytes@),
        forall|i: int| 0 <= i < r@.len() ==> is_b64_char(#[trigger] r@[i]),
{
    BASE64_STANDARD.encode(bytes)
}

/// Decode text back to bytes.  Returns `None` exactly where the engine
/// rejects the text as not being a well-formed encoding.
///
/// Relies on `base64`'s `STANDARD` engine: decoding is a fixed function of
/// the text alone.
#[verifier::external_body]
pub fn decode(s: &str) -> (r: Option<Vec<u8>>)
    ensures
        match r {
            Some(v) => b64_decode_of(s@) == Some(v@),
            None => b64_decode_of(s@) is None,
        },
{
    match BASE64_STANDARD.decode(s) {
        Ok(v) => Some(v),
        Err(_) => None,
    }
}

} // verus!
