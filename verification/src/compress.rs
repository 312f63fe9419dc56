//! The compression stage.  The whole payload is compressed once, before
//! chunking, to cut down the number of frames a transfer needs.

use std::io::Write;
use vstd::prelude::*;

verus! {

/// The bytes the compressor produces for an input, as
/// `brotli::CompressorWriter` with this module's fixed parameters computes
/// them: a function of the input bytes alone.
pub uninterp spec fn compressed_of(b: Seq<u8>) -> Seq<u8>;

/// What the decompressor returns for an input, as
/// `brotli::DecompressorWriter` computes it: `None` exactly where that
/// writer rejects the input as not being a brotli stream.
pub uninterp spec fn decompressed_of(b: Seq<u8>) -> Option<Seq<u8>>;

/// Compress a byte payload.
///
/// Relies on `brotli::CompressorWriter` (buffer 4096, quality 11, window
/// 22): compression is deterministic, writing into an in-memory buffer
/// does not fail, and decompressing the output gives the input back.
#[verifier::external_body]
pub fn compress(input: Vec<u8>) -> (r: Vec<u8>)
    ensures
        r@ == compressed_of(input@),
        decompressed_of(r@) == Some(input@),
{
    let mut output = Vec::new();
    {
        let mut writer = brotli::CompressorWriter::new(&mut output, 4096, 11, 22);
        let _ = writer.write_all(&input);
    }
    output
}

/// Decompress a byte payload.  Returns `None` exactly where the
/// decompressor rejects the input.
///
/// Relies on `brotli::DecompressorWriter` (buffer 4096): decompression is
/// a fixed function of the input bytes alone.
#[verifier::external_body]
pub fn decompress(input: Vec<u8>) -> (r: Option<Vec<u8>>)
    ensures
        match r {
            Some(v) => decompressed_of(input@) == Some(v@),
            None => decompressed_of(input@) is None,
        },
{
    let mut output = Vec::new();
    {
        let mut writer = brotli::DecompressorWriter::new(&mut output, 4096);
        if writer.write_all(&input).is_err() {
            return None;
        }
    }
    Some(output)
}

} // verus!
