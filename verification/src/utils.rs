//! Small trusted shims around the standard library and the digest crate,
//! and the verified hex rendering of a digest.

use sha1::Digest;
use vstd::prelude::*;

verus! {

/// SHA-1 of a byte sequence, as the `sha1` crate computes it: a fixed
/// function of the input bytes alone.
pub uninterp spec fn sha1_of(b: Seq<u8>) -> Seq<u8>;

/// Relies on `sha1::Sha1` through the `Digest` trait: the SHA-1 digest of
/// the input, always 20 bytes, depending on the input bytes alone.
#[verifier::external_body]
fn sha1_bytes(data: &[u8]) -> (r: Vec<u8>)
    ensures
        r@ == sha1_of(data@),
        r@.len() == 20,
{
    sha1::Sha1::digest(data).to_vec()
}

/// Relies on `String::push`: appends exactly one character.
#[verifier::external_body]
pub(crate) fn string_push(s: &mut String, c: char)
    ensures
        final(s)@ == old(s)@.push(c),
{
    s.push(c);
}

/// Relies on `String::from_utf8`: succeeds exactly on valid UTF-8 input and
/// returns the string that those bytes encode.
#[verifier::external_body]
pub(crate) fn bytes_to_string(v: Vec<u8>) -> (r: Option<String>)
    ensures
        match r {
            Some(s) => vstd::utf8::valid_utf8(v@) && s@ == vstd::utf8::decode_utf8(v@),
            None => !vstd::utf8::valid_utf8(v@),
        },
{
    match String::from_utf8(v) {
        Ok(s) => Some(s),
        Err(_) => None,
    }
}

/// The sixteen lower-case hex digit characters, by value.
pub open spec fn hex_char_of(d: nat) -> char {
    if d == 0 {
        '0'
    } else if d == 1 {
        '1'
    } else if d == 2 {
        '2'
    } else if d == 3 {
        '3'
    } else if d == 4 {
        '4'
    } else if d == 5 {
        '5'
    } else if d == 6 {
        '6'
    } else if d == 7 {
        '7'
    } else if d == 8 {
        '8'
    } else if d == 9 {
        '9'
    } else if d == 10 {
        'a'
    } else if d == 11 {
        'b'
    } else if d == 12 {
        'c'
    } else if d == 13 {
        'd'
    } else if d == 14 {
        'e'
    } else {
        'f'
    }
}

pub open spec fn is_hex_char(c: char) -> bool {
    (48 <= c as u32 && c as u32 <= 57) || (97 <= c as u32 && c as u32 <= 102)
}

/// Lower-case hex rendering of a byte sequence, two characters per byte.
pub open spec fn spec_hex(b: Seq<u8>) -> Seq<char>
    decreases b.len(),
{
    if b.len() == 0 {
        Seq::empty()
    } else {
        spec_hex(b.drop_last()) + seq![
            hex_char_of((b.last() >> 4) as nat),
            hex_char_of((b.last() & 0x0f) as nat),
        ]
    }
}

/// The digest a transfer carries: the SHA-1 of the bytes, rendered in hex.
pub open spec fn digest_of(b: Seq<u8>) -> Seq<char> {
    spec_hex(sha1_of(b))
}

pub proof fn lemma_spec_hex_chars(b: Seq<u8>)
    ensures
        spec_hex(b).len() == 2 * b.len(),
        forall|i: int| 0 <= i < spec_hex(b).len() ==> is_hex_char(#[trigger] spec_hex(b)[i]),
    decreases b.len(),
{
    if b.len() > 0 {
        lemma_spec_hex_chars(b.drop_last());
        let x = b.last();
        assert((x >> 4) < 16 && (x & 0x0f) < 16) by (bit_vector);
    }
}

fn hex_char(d: u8) -> (r: char)
    requires
        d < 16,
    ensures
        r == hex_char_of(d as nat),
{
    match d {
        0 => '0',
        1 => '1',
        2 => '2',
        3 => '3',
        4 => '4',
        5 => '5',
        6 => '6',
        7 => '7',
        8 => '8',
        9 => '9',
        10 => 'a',
        11 => 'b',
        12 => 'c',
        13 => 'd',
        14 => 'e',
        _ => 'f',
    }
}

/// Render bytes as lower-case hex, two characters per byte.
fn to_hex(data: &Vec<u8>) -> (r: String)
    ensures
        r@ == spec_hex(data@),
{
    let mut r = String::new();
    let n = data.len();
    for i in 0..n
        invariant
            n == data@.len(),
            r@ == spec_hex(data@.take(i as int)),
    {
        let b = data[i];
        assert((b >> 4) < 16 && (b & 0x0f) < 16) by (bit_vector);
        string_push(&mut r, hex_char(b >> 4));
        string_push(&mut r, hex_char(b & 0x0f));
        proof {
            assert(data@.take(i + 1).drop_last() =~= data@.take(i as int));
            assert(data@.take(i + 1).last() == data@[i as int]);
            assert(r@ =~= spec_hex(data@.take(i + 1)));
        }
    }
    proof {
        assert(data@.take(n as int) =~= data@);
    }
    r
}

/// The integrity digest over a byte payload: SHA-1, rendered as 40
/// lower-case hex characters.
pub fn hash(data: &[u8]) -> (r: String)
    ensures
        r@ == digest_of(data@),
        r@.len() == 40,
        forall|i: int| 0 <= i < r@.len() ==> is_hex_char(#[trigger] r@[i]),
{
    let digest = sha1_bytes(data);
    proof {
        lemma_spec_hex_chars(digest@);
    }
    to_hex(&digest)
}

} // verus!
