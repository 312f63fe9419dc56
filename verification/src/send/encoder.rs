//! The encoder: compress, digest, chunk, and serialize a named byte
//! payload into an ordered list of wire messages, one per frame.

use crate::codec;
use crate::codec::b64_decode_of;
use crate::codec::b64_of;
use crate::codec::is_b64_char;
use crate::compress;
use crate::compress::compressed_of;
use crate::compress::decompressed_of;
use crate::digits::spec_dec;
use crate::protocol::no_char;
use crate::protocol::spec_meta_wire;
use crate::protocol::spec_piece_wire;
use crate::protocol::Message;
use crate::protocol::Metadata;
use crate::protocol::MetadataView;
use crate::protocol::Payload;
use crate::protocol::PayloadView;
use crate::send::qr;
use crate::send::qr::qr_svg_of;
use crate::utils;
use crate::utils::digest_of;
use crate::utils::is_hex_char;
use vstd::prelude::*;
use vstd::slice::slice_subrange;
use vstd::slice::slice_to_vec;
use vstd::utf8::encode_utf8;

verus! {

/// How many raw bytes of the compressed payload one Piece carries.  The
/// last chunk may be shorter; a zero-length payload yields zero chunks.
/// Only the encoder needs to know this: piece indices are self-describing.
pub const CHUNK_SIZE: usize = 100;

/// The compressed payload cut into chunks of [`CHUNK_SIZE`] bytes, in
/// order, the last chunk possibly shorter.
pub open spec fn spec_chunks(data: Seq<u8>) -> Seq<Seq<u8>>
    decreases data.len(),
{
    if data.len() == 0 {
        Seq::empty()
    } else if data.len() <= CHUNK_SIZE {
        seq![data]
    } else {
        seq![data.take(CHUNK_SIZE as int)] + spec_chunks(data.skip(CHUNK_SIZE as int))
    }
}

/// The concatenation of a sequence of byte sequences, in order.
pub open spec fn concat_bytes(s: Seq<Seq<u8>>) -> Seq<u8>
    decreases s.len(),
{
    if s.len() == 0 {
        Seq::empty()
    } else {
        s[0] + concat_bytes(s.drop_first())
    }
}

pub proof fn lemma_concat_bytes_push(s: Seq<Seq<u8>>, x: Seq<u8>)
    ensures
        concat_bytes(s.push(x)) == concat_bytes(s) + x,
    decreases s.len(),
{
    if s.len() == 0 {
        assert(s.push(x).drop_first() =~= Seq::<Seq<u8>>::empty());
        assert(concat_bytes(Seq::<Seq<u8>>::empty()) == Seq::<u8>::empty());
        assert(s.push(x)[0] == x);
        assert(concat_bytes(s.push(x)) == x + Seq::<u8>::empty());
        assert(x + Seq::<u8>::empty() =~= x);
        assert(concat_bytes(s) + x =~= x);
    } else {
        assert(s.push(x).drop_first() =~= s.drop_first().push(x));
        lemma_concat_bytes_push(s.drop_first(), x);
        assert(s.push(x)[0] == s[0]);
        assert(s[0] + (concat_bytes(s.drop_first()) + x) =~= (s[0] + concat_bytes(s.drop_first()))
            + x);
    }
}

/// Chunking splits the data without loss: the chunks concatenate back to
/// the data, every chunk is non-empty and at most [`CHUNK_SIZE`] long, and
/// all but the last are exactly [`CHUNK_SIZE`] long.
pub proof fn lemma_chunks(data: Seq<u8>)
    ensures
        concat_bytes(spec_chunks(data)) == data,
        spec_chunks(data).len() <= data.len(),
        data.len() > 0 ==> spec_chunks(data).len() > 0,
        forall|k: int|
            0 <= k < spec_chunks(data).len() ==> 0 < (#[trigger] spec_chunks(data)[k]).len()
                <= CHUNK_SIZE,
        forall|k: int|
            0 <= k < spec_chunks(data).len() - 1 ==> (#[trigger] spec_chunks(data)[k]).len()
                == CHUNK_SIZE,
    decreases data.len(),
{
    if data.len() == 0 {
    } else if data.len() <= CHUNK_SIZE {
        assert(spec_chunks(data) =~= seq![data]);
        assert(spec_chunks(data).drop_first() =~= Seq::<Seq<u8>>::empty());
        assert(concat_bytes(Seq::<Seq<u8>>::empty()) == Seq::<u8>::empty());
        assert(spec_chunks(data)[0] == data);
        assert(concat_bytes(spec_chunks(data)) == data + Seq::<u8>::empty());
        assert(data + Seq::<u8>::empty() =~= data);
    } else {
        let rest = data.skip(CHUNK_SIZE as int);
        lemma_chunks(rest);
        let s = spec_chunks(data);
        assert(s[0] == data.take(CHUNK_SIZE as int));
        assert(s.drop_first() =~= spec_chunks(rest));
        assert(concat_bytes(s) == data.take(CHUNK_SIZE as int) + concat_bytes(spec_chunks(rest)));
        assert(data.take(CHUNK_SIZE as int) + rest =~= data);
        assert(forall|k: int| 1 <= k < s.len() ==> s[k] == spec_chunks(rest)[k - 1]);
    }
}

/// The label the display loop keys the metadata frame by.
pub open spec fn meta_label() -> Seq<char> {
    seq!['M', 'E', 'T', 'A', 'D', 'A', 'T', 'A']
}

/// The payload the encoder produces for a (codec-encoded) name and a
/// compressed byte payload: one Metadata and one Piece per chunk, indices
/// 1-based and in order.
pub open spec fn spec_payload(name: Seq<char>, data: Seq<u8>) -> PayloadView {
    PayloadView {
        metadata: MetadataView {
            name: b64_of(encode_utf8(name)),
            length: spec_chunks(data).len() as usize,
            hash: digest_of(data),
        },
        pieces: Seq::new(
            spec_chunks(data).len(),
            |k: int| ((k + 1) as usize, b64_of(spec_chunks(data)[k])),
        ),
    }
}

/// What the trusted codec and digest calls guarantee of a produced
/// payload, beyond its shape: every piece decodes back to its chunk, the
/// name decodes back to the file name's bytes, and the name and digest
/// stay clear of the wire's field separator.
pub open spec fn payload_decodes(p: PayloadView, name: Seq<char>, data: Seq<u8>) -> bool {
    &&& no_char(p.metadata.name, ',')
    &&& no_char(p.metadata.hash, ',')
    &&& b64_decode_of(p.metadata.name) == Some(encode_utf8(name))
    &&& forall|k: int|
        0 <= k < p.pieces.len() ==> b64_decode_of((#[trigger] p.pieces[k]).1) == Some(
            spec_chunks(data)[k],
        )
}

/// The send side's entry point: holds the file name and the compressed
/// payload, and serializes them on demand.
pub struct Encoder {
    file_name: String,
    data: Vec<u8>,
}

/// The mathematical value of an [`Encoder`]: the file name and the
/// compressed payload it will serialize.
#[verifier::ext_equal]
pub struct EncoderView {
    pub name: Seq<char>,
    pub data: Seq<u8>,
}

impl View for Encoder {
    type V = EncoderView;

    closed spec fn view(&self) -> EncoderView {
        EncoderView { name: self.file_name@, data: self.data@ }
    }
}

impl Encoder {
    /// Take a file name and its raw bytes; the payload is compressed once,
    /// here, before any chunking.
    pub fn new(file_name: String, data: Vec<u8>) -> (r: Encoder)
        ensures
            r@.name == file_name@,
            r@.data == compressed_of(data@),
            decompressed_of(r@.data) == Some(data@),
    {
        Encoder { file_name, data: compress::compress(data) }
    }

    /// Cut the compressed payload into chunks, in order.
    pub fn get_chunks(&self) -> (r: Vec<Vec<u8>>)
        ensures
            r.deep_view() == spec_chunks(self@.data),
    {
        let mut chunks: Vec<Vec<u8>> = Vec::new();
        let length = self.data.len();
        let mut i: usize = 0;
        proof {
            assert(self@.data.skip(0) =~= self@.data);
            assert(spec_chunks(self@.data) =~~= chunks.deep_view() + spec_chunks(
                self@.data.skip(0),
            ));
        }
        while i < length
            invariant
                i <= length,
                length == self@.data.len(),
                spec_chunks(self@.data) == chunks.deep_view() + spec_chunks(
                    self@.data.skip(i as int),
                ),
            decreases length - i,
        {
            let ghost pre = chunks.deep_view();
            let ghost rest = self@.data.skip(i as int);
            let j = if length - i < CHUNK_SIZE {
                length
            } else {
                i + CHUNK_SIZE
            };
            let chunk = slice_to_vec(slice_subrange(self.data.as_slice(), i, j));
            proof {
                assert(chunk@ =~= rest.take(j - i));
            }
            chunks.push(chunk);
            proof {
                assert(chunks.deep_view() =~~= pre.push(rest.take(j - i)));
                if j < length {
                    assert(rest.skip(CHUNK_SIZE as int) =~= self@.data.skip(j as int));
                    assert(spec_chunks(rest) == seq![rest.take(CHUNK_SIZE as int)] + spec_chunks(
                        self@.data.skip(j as int),
                    ));
                    assert(pre.push(rest.take(j - i)) + spec_chunks(self@.data.skip(j as int))
                        =~~= pre + spec_chunks(rest));
                } else {
                    assert(rest.take(j - i) =~= rest);
                    assert(rest.len() > 0);
                    assert(spec_chunks(rest) =~= seq![rest]);
                    assert(self@.data.skip(j as int) =~= Seq::<u8>::empty());
                    assert(spec_chunks(Seq::<u8>::empty()) =~= Seq::<Seq<u8>>::empty());
                    assert(pre.push(rest) + spec_chunks(self@.data.skip(j as int)) =~~= pre
                        + spec_chunks(rest));
                }
            }
            i = j;
        }
        proof {
            assert(self@.data.skip(length as int) =~= Seq::<u8>::empty());
            assert(spec_chunks(Seq::<u8>::empty()) =~= Seq::<Seq<u8>>::empty());
            assert(chunks.deep_view() + spec_chunks(Seq::<u8>::empty()) =~~= chunks.deep_view());
        }
        chunks
    }

    /// The transfer's Metadata for a given piece count: the codec-encoded
    /// file name, the count, and the digest of the compressed payload.
    pub fn get_metadata(&self, length: usize) -> (r: Metadata)
        ensures
            r@ == (MetadataView {
                name: b64_of(encode_utf8(self@.name)),
                length,
                hash: digest_of(self@.data),
            }),
            no_char(r@.name, ','),
            no_char(r@.hash, ','),
            b64_decode_of(r@.name) == Some(encode_utf8(self@.name)),
    {
        let name_bytes = self.file_name.as_str().as_bytes_vec();
        let name = codec::encode(name_bytes.as_slice());
        let hash = utils::hash(self.data.as_slice());
        proof {
            assert(forall|i: int| 0 <= i < name@.len() ==> is_b64_char(#[trigger] name@[i]));
            assert(!is_b64_char(','));
            assert(!is_hex_char(','));
        }
        Metadata::new(name, length, hash)
    }

    /// The full message set for this payload: the Metadata plus one Piece
    /// per chunk, 1-based, in order.
    pub fn get_payload(&self) -> (r: Payload)
        ensures
            r@ == spec_payload(self@.name, self@.data),
            payload_decodes(r@, self@.name, self@.data),
    {
        let chunks = self.get_chunks();
        let metadata = self.get_metadata(chunks.len());
        let mut pieces: Vec<(usize, String)> = Vec::new();
        let n = chunks.len();
        for k in 0..n
            invariant
                n == chunks.deep_view().len(),
                chunks.deep_view() == spec_chunks(self@.data),
                pieces.deep_view().len() == k,
                forall|j: int|
                    0 <= j < k ==> #[trigger] pieces.deep_view()[j] == (
                        ((j + 1) as usize),
                        b64_of(spec_chunks(self@.data)[j]),
                    ),
                forall|j: int|
                    0 <= j < k ==> b64_decode_of((#[trigger] pieces.deep_view()[j]).1) == Some(
                        spec_chunks(self@.data)[j],
                    ),
        {
            proof {
                assert(chunks[k as int]@ =~= chunks.deep_view()[k as int]);
            }
            let ghost pre = pieces.deep_view();
            let encoded = codec::encode(chunks[k].as_slice());
            pieces.push((k + 1, encoded));
            proof {
                assert(pieces.deep_view() =~= pre.push((((k + 1) as usize), encoded@)));
            }
        }
        let r = Payload::new(metadata, pieces);
        proof {
            assert(r@.pieces =~= spec_payload(self@.name, self@.data).pieces);
            assert(r@ =~= spec_payload(self@.name, self@.data));
        }
        r
    }

    /// The ordered frame sequence: the Metadata's wire text first under
    /// the `METADATA` label, then each Piece's wire text under its index.
    /// The order is a display convention only; receivers accept any order.
    pub fn payloads(self) -> (r: Vec<(String, String)>)
        ensures
            ({
                let p = spec_payload(self@.name, self@.data);
                &&& payload_decodes(p, self@.name, self@.data)
                &&& r.deep_view().len() == p.pieces.len() + 1
                &&& r.deep_view()[0] == (meta_label(), spec_meta_wire(p.metadata))
                &&& forall|k: int|
                    0 <= k < p.pieces.len() ==> #[trigger] r.deep_view()[k + 1] == (
                        spec_dec((k + 1) as nat),
                        spec_piece_wire(((k + 1) as usize), p.pieces[k].1),
                    )
            }),
    {
        let payload = self.get_payload();
        let ghost p = spec_payload(self@.name, self@.data);
        let Payload { metadata, pieces } = payload;
        let mut out: Vec<(String, String)> = Vec::new();
        let metadata_msg = Message::Metadata(metadata);
        let metadata_wire = metadata_msg.to_string();
        let label = String::from_str("METADATA");
        proof {
            reveal_strlit("METADATA");
            assert(label@ =~= meta_label());
        }
        out.push((label, metadata_wire));
        let n = pieces.len();
        let mut k: usize = 0;
        while k < n
            invariant
                k <= n,
                n == pieces@.len(),
                pieces.deep_view() == p.pieces,
                p == spec_payload(self@.name, self@.data),
                out.deep_view().len() == k + 1,
                out.deep_view()[0] == (meta_label(), spec_meta_wire(p.metadata)),
                forall|j: int|
                    0 <= j < k ==> #[trigger] out.deep_view()[j + 1] == (
                        spec_dec((j + 1) as nat),
                        spec_piece_wire(((j + 1) as usize), p.pieces[j].1),
                    ),
            decreases n - k,
        {
            let ghost pre = out.deep_view();
            let (index, data) = (pieces[k].0, pieces[k].1.clone());
            proof {
                assert(pieces.deep_view()[k as int] == p.pieces[k as int]);
                assert(pieces.deep_view()[k as int] == (pieces@[k as int].0, pieces@[k as int].1@));
                let f = |j: int| (((j + 1) as usize), b64_of(spec_chunks(self@.data)[j]));
                assert(p.pieces == Seq::new(spec_chunks(self@.data).len(), f));
                assert(p.pieces[k as int] == f(k as int));
                assert(p.pieces[k as int] == (
                    ((k + 1) as usize),
                    b64_of(spec_chunks(self@.data)[k as int]),
                ));
                assert(index == (k + 1) as usize);
                assert(data@ == p.pieces[k as int].1);
            }
            let piece_msg = Message::Piece { index, data };
            let wire = piece_msg.to_string();
            let label = crate::digits::usize_to_string(index);
            out.push((label, wire));
            proof {
                assert(label@ == spec_dec((k + 1) as nat));
                assert(wire@ == spec_piece_wire(((k + 1) as usize), p.pieces[k as int].1));
                assert(out.deep_view() =~= pre.push((label@, wire@)));
            }
            k += 1;
        }
        out
    }

    /// Render every frame as an SVG QR graphic, keyed by the same labels
    /// as [`Encoder::payloads`].  `None` exactly where some message's wire
    /// text exceeds what one symbol can hold.
    pub fn to_qr(self) -> (r: Option<Vec<(String, String)>>)
        ensures
            ({
                let p = spec_payload(self@.name, self@.data);
                match r {
                    Some(v) => {
                        &&& v.deep_view().len() == p.pieces.len() + 1
                        &&& v.deep_view()[0].0 == meta_label()
                        &&& qr_svg_of(spec_meta_wire(p.metadata)) == Some(v.deep_view()[0].1)
                        &&& forall|k: int|
                            0 <= k < p.pieces.len() ==> (#[trigger] v.deep_view()[k + 1]).0
                                == spec_dec((k + 1) as nat) && qr_svg_of(
                                spec_piece_wire(((k + 1) as usize), p.pieces[k].1),
                            ) == Some(v.deep_view()[k + 1].1)
                    },
                    None => qr_svg_of(spec_meta_wire(p.metadata)) is None || exists|k: int|
                        0 <= k < p.pieces.len() && qr_svg_of(
                            spec_piece_wire(((k + 1) as usize), (#[trigger] p.pieces[k]).1),
                        ) is None,
                }
            }),
    {
        let ghost p = spec_payload(self@.name, self@.data);
        let payloads = self.payloads();
        let mut out: Vec<(String, String)> = Vec::new();
        let n = payloads.len();
        let mut k: usize = 0;
        while k < n
            invariant
                k <= n,
                p == spec_payload(self@.name, self@.data),
                n == payloads.deep_view().len(),
                n == p.pieces.len() + 1,
                payloads.deep_view()[0] == (meta_label(), spec_meta_wire(p.metadata)),
                forall|j: int|
                    0 <= j < p.pieces.len() ==> #[trigger] payloads.deep_view()[j + 1] == (
                        spec_dec((j + 1) as nat),
                        spec_piece_wire(((j + 1) as usize), p.pieces[j].1),
                    ),
                out.deep_view().len() == k,
                k >= 1 ==> out.deep_view()[0].0 == meta_label() && qr_svg_of(
                    spec_meta_wire(p.metadata),
                ) == Some(out.deep_view()[0].1),
                forall|j: int|
                    1 <= j < k ==> (#[trigger] out.deep_view()[j]).0 == spec_dec(j as nat)
                        && qr_svg_of(spec_piece_wire((j as usize), p.pieces[j - 1].1)) == Some(
                        out.deep_view()[j].1,
                    ),
            decreases n - k,
        {
            let ghost pre = out.deep_view();
            proof {
                assert(payloads.deep_view()[k as int] == (
                    payloads@[k as int].0@,
                    payloads@[k as int].1@,
                ));
                if k >= 1 {
                    assert(payloads.deep_view()[(k - 1) + 1] == (
                        spec_dec(((k - 1) + 1) as nat),
                        spec_piece_wire((((k - 1) + 1) as usize), p.pieces[k - 1].1),
                    ));
                }
            }
            let wire = &payloads[k].1;
            let svg = match qr::qr(wire.as_str()) {
                Some(svg) => svg,
                None => {
                    proof {
                        if k == 0 {
                            assert(qr_svg_of(spec_meta_wire(p.metadata)) is None);
                        } else {
                            let k0: int = k as int - 1;
                            assert(qr_svg_of(
                                spec_piece_wire(((k0 + 1) as usize), p.pieces[k0].1),
                            ) is None);
                        }
                    }
                    return None;
                },
            };
            let label = payloads[k].0.clone();
            out.push((label, svg));
            proof {
                assert(out.deep_view() =~= pre.push((label@, svg@)));
                if k >= 1 {
                    assert(label@ == spec_dec(k as nat));
                    assert(qr_svg_of(spec_piece_wire((k as usize), p.pieces[k - 1].1)) == Some(
                        svg@,
                    ));
                }
            }
            k += 1;
        }
        Some(out)
    }
}

} // verus!
