//! The mathematical model of the reassembly engine: the receiver's state,
//! one transition per line of wire text, and what finishing a transfer
//! yields.  The executable machine in [`crate::receive::decoder`] is
//! verified against [`spec_step`] exactly; the laws at the end of this
//! module are proved of [`spec_step`] alone.

use crate::codec::b64_decode_of;
use crate::compress::decompressed_of;
use crate::protocol::spec_parse_msg;
use crate::protocol::MessageView;
use crate::protocol::MetadataView;
use crate::send::encoder::concat_bytes;
use crate::utils::digest_of;
use vstd::prelude::*;
use vstd::utf8::decode_utf8;
use vstd::utf8::valid_utf8;

verus! {

/// What a finished transfer exposes: the decoded file name and the
/// verified, decompressed bytes.
#[verifier::ext_equal]
pub struct OutputView {
    pub name: Seq<char>,
    pub bytes: Seq<u8>,
}

/// The receiver's state.  `Initted` holds messages seen before any
/// Metadata; `Started` has the Metadata and with it the expected set;
/// `Finished` and `Corrupt` are terminal.
#[verifier::ext_equal]
pub enum MachineView {
    Initted { msgs: Seq<MessageView> },
    Started { meta: MetadataView, msgs: Seq<MessageView> },
    Finished { out: OutputView },
    Corrupt,
}

/// A fresh session: no messages, no Metadata.
pub open spec fn spec_init() -> MachineView {
    MachineView::Initted { msgs: Seq::empty() }
}

pub open spec fn piece_index(m: MessageView) -> usize {
    match m {
        MessageView::Piece { index, .. } => index,
        MessageView::Metadata(_) => 0,
    }
}

pub open spec fn piece_data(m: MessageView) -> Seq<char> {
    match m {
        MessageView::Piece { data, .. } => data,
        MessageView::Metadata(_) => Seq::empty(),
    }
}

/// Some recorded message is a Piece with index `i`.
pub open spec fn has_piece(msgs: Seq<MessageView>, i: usize) -> bool {
    exists|k: int| 0 <= k < msgs.len() && (#[trigger] msgs[k]) is Piece && piece_index(msgs[k]) == i
}

/// Every expected identifier has been seen: one piece for each index in
/// `1..=length`.  (The Metadata itself is recorded by the time this is
/// asked.)
pub open spec fn is_complete(length: usize, msgs: Seq<MessageView>) -> bool {
    forall|i: usize| 1 <= i <= length ==> has_piece(msgs, i)
}

/// Insert a piece behind every recorded piece of smaller or equal index:
/// one step of a stable insertion sort.
pub open spec fn insert_piece(sorted: Seq<MessageView>, m: MessageView) -> Seq<MessageView>
    decreases sorted.len(),
{
    if sorted.len() == 0 {
        seq![m]
    } else if piece_index(sorted.last()) <= piece_index(m) {
        sorted.push(m)
    } else {
        insert_piece(sorted.drop_last(), m).push(sorted.last())
    }
}

/// All recorded pieces, stably sorted by index ascending.
pub open spec fn sort_pieces(s: Seq<MessageView>) -> Seq<MessageView>
    decreases s.len(),
{
    if s.len() == 0 {
        Seq::empty()
    } else {
        insert_piece(sort_pieces(s.drop_last()), s.last())
    }
}

/// The chunk bytes of a piece sequence, in order; `None` as soon as any
/// piece's data is not a codec text.
pub open spec fn decoded_pieces(ps: Seq<MessageView>) -> Option<Seq<Seq<u8>>>
    decreases ps.len(),
{
    if ps.len() == 0 {
        Some(Seq::empty())
    } else {
        match (decoded_pieces(ps.drop_last()), b64_decode_of(piece_data(ps.last()))) {
            (Some(a), Some(d)) => Some(a.push(d)),
            _ => None,
        }
    }
}

/// The name a finished transfer reports: the Metadata's name put through
/// the codec and read as UTF-8, or, where either step fails, the raw name
/// as it stood on the wire.
pub open spec fn display_name_of(name: Seq<char>) -> Seq<char> {
    match b64_decode_of(name) {
        Some(b) => if valid_utf8(b) {
            decode_utf8(b)
        } else {
            name
        },
        None => name,
    }
}

/// The recorded messages that are pieces, in the order they arrived.
pub open spec fn pieces_of(msgs: Seq<MessageView>) -> Seq<MessageView> {
    msgs.filter(|m: MessageView| m is Piece)
}

/// Completing a session: sort all recorded pieces by index, decode and
/// concatenate their chunks, verify the digest against the Metadata's,
/// and decompress.  Any failure is fatal for the session.
pub open spec fn finalize(meta: MetadataView, msgs: Seq<MessageView>) -> MachineView {
    let ps = sort_pieces(pieces_of(msgs));
    match decoded_pieces(ps) {
        None => MachineView::Corrupt,
        Some(chunks) => {
            let data = concat_bytes(chunks);
            if digest_of(data) != meta.hash {
                MachineView::Corrupt
            } else {
                match decompressed_of(data) {
                    None => MachineView::Corrupt,
                    Some(bytes) => MachineView::Finished {
                        out: OutputView { name: display_name_of(meta.name), bytes },
                    },
                }
            }
        },
    }
}

/// After recording a message with the Metadata known: complete the
/// session the moment the expected set is covered, in the same call.
pub open spec fn after_record(meta: MetadataView, msgs: Seq<MessageView>) -> MachineView {
    if is_complete(meta.length, msgs) {
        finalize(meta, msgs)
    } else {
        MachineView::Started { meta, msgs }
    }
}

/// One transition on one parsed message.
pub open spec fn step_msg(st: MachineView, m: MessageView) -> (MachineView, bool) {
    match st {
        MachineView::Finished { .. } => (st, false),
        MachineView::Corrupt => (st, false),
        MachineView::Initted { msgs } => {
            if msgs.contains(m) {
                (st, false)
            } else {
                match m {
                    MessageView::Metadata(meta) => (after_record(meta, msgs.push(m)), true),
                    MessageView::Piece { .. } => (MachineView::Initted { msgs: msgs.push(m) }, true),
                }
            }
        },
        MachineView::Started { meta, msgs } => {
            if msgs.contains(m) {
                (st, false)
            } else if m is Metadata {
                // A second, distinct Metadata would silently change the
                // expected set; it is rejected instead of recorded.
                (st, false)
            } else {
                (after_record(meta, msgs.push(m)), true)
            }
        },
    }
}

/// One transition on one line of wire text, and whether the line brought
/// new information.  Text that does not parse changes nothing; a terminal
/// session ignores everything.
pub open spec fn spec_step(st: MachineView, text: Seq<char>) -> (MachineView, bool) {
    match spec_parse_msg(text) {
        None => (st, false),
        Some(m) => step_msg(st, m),
    }
}

/// A whole delivery: the machine after feeding each line in order.
pub open spec fn feed(st: MachineView, texts: Seq<Seq<char>>) -> MachineView
    decreases texts.len(),
{
    if texts.len() == 0 {
        st
    } else {
        feed(spec_step(st, texts[0]).0, texts.drop_first())
    }
}

/// A session can only finish by recomputing the digest: whenever
/// finalizing yields output, the digest of the reassembled compressed
/// bytes equals the digest the Metadata carried, and every piece's data
/// decoded.  (That flipping a bit in a piece always *changes* that
/// digest is the digest function's collision resistance, beyond any
/// program-level proof; the tests exercise concrete tampering.)
pub proof fn lemma_finished_means_digest_matched(meta: MetadataView, msgs: Seq<MessageView>)
    ensures
        finalize(meta, msgs) is Finished ==> decoded_pieces(sort_pieces(pieces_of(msgs)))
            is Some,
        finalize(meta, msgs) is Finished ==> digest_of(
            concat_bytes(decoded_pieces(sort_pieces(pieces_of(msgs)))->Some_0),
        ) == meta.hash,
{
}

pub proof fn lemma_pieces_of_push(s: Seq<MessageView>, e: MessageView)
    ensures
        pieces_of(s.push(e)) == if e is Piece {
            pieces_of(s).push(e)
        } else {
            pieces_of(s)
        },
{
    reveal(Seq::filter);
    assert(s.push(e).drop_last() =~= s);
    assert(s.push(e).last() == e);
}

pub proof fn lemma_pieces_of_empty()
    ensures
        pieces_of(Seq::empty()) == Seq::<MessageView>::empty(),
{
    reveal(Seq::filter);
}

/// Once some prefix fails to decode, the whole sequence does.
pub proof fn lemma_decoded_prefix_none(s: Seq<MessageView>, k: int)
    requires
        0 <= k <= s.len(),
        decoded_pieces(s.take(k)) is None,
    ensures
        decoded_pieces(s) is None,
    decreases s.len() - k,
{
    if k < s.len() {
        assert(s.take(k + 1).drop_last() =~= s.take(k));
        lemma_decoded_prefix_none(s, k + 1);
    } else {
        assert(s.take(k) =~= s);
    }
}

/// Where a piece lands under [`insert_piece`]: right before the first
/// recorded piece of strictly larger index.
pub proof fn lemma_insert_piece_at(sorted: Seq<MessageView>, m: MessageView, j: int)
    requires
        0 <= j <= sorted.len(),
        forall|t: int| j <= t < sorted.len() ==> piece_index(#[trigger] sorted[t]) > piece_index(m),
        j > 0 ==> piece_index(sorted[j - 1]) <= piece_index(m),
    ensures
        insert_piece(sorted, m) == sorted.take(j).push(m) + sorted.skip(j),
    decreases sorted.len(),
{
    if sorted.len() == 0 {
        assert(insert_piece(sorted, m) =~= sorted.take(j).push(m) + sorted.skip(j));
    } else if piece_index(sorted.last()) <= piece_index(m) {
        assert(j == sorted.len());
        assert(sorted.take(j) =~= sorted);
        assert(insert_piece(sorted, m) =~= sorted.take(j).push(m) + sorted.skip(j));
    } else {
        assert(j < sorted.len());
        let dropped = sorted.drop_last();
        assert(forall|t: int|
            j <= t < dropped.len() ==> piece_index(#[trigger] dropped[t]) > piece_index(m));
        lemma_insert_piece_at(dropped, m, j);
        assert(insert_piece(sorted, m) == (dropped.take(j).push(m) + dropped.skip(j)).push(
            sorted.last(),
        ));
        assert(dropped.take(j) =~= sorted.take(j));
        assert((dropped.take(j).push(m) + dropped.skip(j)).push(sorted.last()) =~= sorted.take(
            j,
        ).push(m) + sorted.skip(j));
    }
}

/// Sorting keeps every element a piece when every input element is one.
pub proof fn lemma_sort_pieces_kind(s: Seq<MessageView>)
    requires
        forall|k: int| 0 <= k < s.len() ==> (#[trigger] s[k]) is Piece,
    ensures
        sort_pieces(s).len() == s.len(),
        forall|k: int| 0 <= k < s.len() ==> (#[trigger] sort_pieces(s)[k]) is Piece,
    decreases s.len(),
{
    if s.len() > 0 {
        lemma_sort_pieces_kind(s.drop_last());
        lemma_insert_piece_kind(sort_pieces(s.drop_last()), s.last());
    }
}

pub proof fn lemma_insert_piece_kind(sorted: Seq<MessageView>, m: MessageView)
    requires
        forall|k: int| 0 <= k < sorted.len() ==> (#[trigger] sorted[k]) is Piece,
        m is Piece,
    ensures
        insert_piece(sorted, m).len() == sorted.len() + 1,
        forall|k: int|
            0 <= k < insert_piece(sorted, m).len() ==> (#[trigger] insert_piece(sorted, m)[k])
                is Piece,
    decreases sorted.len(),
{
    if sorted.len() == 0 {
    } else if piece_index(sorted.last()) <= piece_index(m) {
    } else {
        lemma_insert_piece_kind(sorted.drop_last(), m);
    }
}

} // verus!
