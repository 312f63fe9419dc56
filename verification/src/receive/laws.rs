//! The protocol's laws, proved of the model alone: a complete delivery
//! finishes with the payload's output whatever the order and however
//! often each frame is repeated; an incomplete one never finishes.

use crate::codec::b64_decode_of;
use crate::compress::decompressed_of;
use crate::protocol::lemma_wire_roundtrip;
use crate::protocol::no_char;
use crate::protocol::spec_msg_wire;
use crate::protocol::spec_parse_msg;
use crate::protocol::wire_safe;
use crate::protocol::MessageView;
use crate::protocol::PayloadView;
use crate::receive::model::after_record;
use crate::receive::model::decoded_pieces;
use crate::receive::model::display_name_of;
use crate::receive::model::feed;
use crate::receive::model::finalize;
use crate::receive::model::has_piece;
use crate::receive::model::insert_piece;
use crate::receive::model::is_complete;
use crate::receive::model::lemma_pieces_of_empty;
use crate::receive::model::lemma_pieces_of_push;
use crate::receive::model::piece_data;
use crate::receive::model::piece_index;
use crate::receive::model::pieces_of;
use crate::receive::model::sort_pieces;
use crate::receive::model::spec_init;
use crate::receive::model::spec_step;
use crate::receive::model::step_msg;
use crate::receive::model::MachineView;
use crate::receive::model::OutputView;
use crate::send::encoder::concat_bytes;
use crate::send::encoder::lemma_chunks;
use crate::send::encoder::payload_decodes;
use crate::send::encoder::spec_chunks;
use crate::send::encoder::spec_payload;
use crate::utils::digest_of;
use vstd::prelude::*;
use vstd::utf8::encode_utf8;

verus! {

/// The piece message a payload entry stands for.
pub open spec fn piece_msg(pc: (usize, Seq<char>)) -> MessageView {
    MessageView::Piece { index: pc.0, data: pc.1 }
}

/// The payload's Metadata message.
pub open spec fn meta_msg(p: PayloadView) -> MessageView {
    MessageView::Metadata(p.metadata)
}

/// The payload's piece messages, in index order.
pub open spec fn canon_pieces(p: PayloadView) -> Seq<MessageView> {
    Seq::new(p.pieces.len(), |k: int| piece_msg(p.pieces[k]))
}

/// Every message of the payload: the Metadata first, then the pieces.
pub open spec fn payload_msgs(p: PayloadView) -> Seq<MessageView> {
    seq![meta_msg(p)] + canon_pieces(p)
}

/// What the laws assume of a payload, exactly what the encoder
/// establishes of its output: `length` counts the pieces, indices are
/// `1..=length` in order, each piece's data decodes to its chunk, the
/// digest is the digest of the concatenated chunks, those bytes
/// decompress to `plain`, and name and digest avoid the field separator.
pub open spec fn payload_wf(p: PayloadView, chunks: Seq<Seq<u8>>, plain: Seq<u8>) -> bool {
    &&& p.pieces.len() == p.metadata.length
    &&& chunks.len() == p.pieces.len()
    &&& forall|k: int| 0 <= k < p.pieces.len() ==> (#[trigger] p.pieces[k]).0 == k + 1
    &&& forall|k: int|
        0 <= k < p.pieces.len() ==> b64_decode_of((#[trigger] p.pieces[k]).1) == Some(chunks[k])
    &&& digest_of(concat_bytes(chunks)) == p.metadata.hash
    &&& decompressed_of(concat_bytes(chunks)) == Some(plain)
    &&& no_char(p.metadata.name, ',')
    &&& no_char(p.metadata.hash, ',')
}

/// The output a complete delivery of the payload must produce.
pub open spec fn expected_out(p: PayloadView, plain: Seq<u8>) -> OutputView {
    OutputView { name: display_name_of(p.metadata.name), bytes: plain }
}

/// What the encoder emits is a well-formed payload in the laws' sense,
/// and a complete delivery of it reports the original file name: the
/// name survives the codec and the UTF-8 round trip.
pub proof fn lemma_encoder_payload_wf(name: Seq<char>, data: Seq<u8>, plain: Seq<u8>)
    requires
        data.len() <= usize::MAX,
        payload_decodes(spec_payload(name, data), name, data),
        decompressed_of(data) == Some(plain),
    ensures
        payload_wf(spec_payload(name, data), spec_chunks(data), plain),
        expected_out(spec_payload(name, data), plain) == (OutputView { name, bytes: plain }),
{
    lemma_chunks(data);
    let p = spec_payload(name, data);
    assert(concat_bytes(spec_chunks(data)) == data);
    broadcast use vstd::utf8::encode_utf8_valid_utf8;
    broadcast use vstd::utf8::encode_utf8_decode_utf8;

    assert(b64_decode_of(p.metadata.name) == Some(encode_utf8(name)));
    assert(display_name_of(p.metadata.name) == name);
}

/// Membership in the payload's message set, spelled out.
proof fn lemma_all_elems(p: PayloadView, x: MessageView)
    ensures
        payload_msgs(p).to_set().contains(x) <==> (x == meta_msg(p) || exists|k: int|
            0 <= k < p.pieces.len() && x == piece_msg(#[trigger] p.pieces[k])),
{
    let all = payload_msgs(p);
    if all.to_set().contains(x) {
        let j = choose|j: int| 0 <= j < all.len() && all[j] == x;
        if j == 0 {
            assert(x == meta_msg(p));
        } else {
            assert(all[j] == canon_pieces(p)[j - 1]);
            assert(x == piece_msg(p.pieces[j - 1]));
        }
    }
    if x == meta_msg(p) {
        assert(all[0] == x);
        assert(all.contains(x));
    }
    if exists|k: int| 0 <= k < p.pieces.len() && x == piece_msg(#[trigger] p.pieces[k]) {
        let k = choose|k: int| 0 <= k < p.pieces.len() && x == piece_msg(#[trigger] p.pieces[k]);
        assert(all[k + 1] == canon_pieces(p)[k]);
        assert(all[k + 1] == x);
        assert(all.contains(x));
    }
}

/// In a well-formed payload, a piece message determines its position by
/// its index.
proof fn lemma_piece_by_index(
    p: PayloadView,
    chunks: Seq<Seq<u8>>,
    plain: Seq<u8>,
    x: MessageView,
)
    requires
        payload_wf(p, chunks, plain),
        payload_msgs(p).to_set().contains(x),
        x is Piece,
    ensures
        1 <= piece_index(x) <= p.pieces.len(),
        x == piece_msg(p.pieces[piece_index(x) - 1]),
{
    lemma_all_elems(p, x);
    let k = choose|k: int| 0 <= k < p.pieces.len() && x == piece_msg(#[trigger] p.pieces[k]);
    assert(piece_index(x) == k + 1);
}

/// Every message of a well-formed payload survives the wire.
proof fn lemma_payload_wire_safe(
    p: PayloadView,
    chunks: Seq<Seq<u8>>,
    plain: Seq<u8>,
    x: MessageView,
)
    requires
        payload_wf(p, chunks, plain),
        payload_msgs(p).to_set().contains(x),
    ensures
        wire_safe(x),
        spec_parse_msg(spec_msg_wire(x)) == Some(x),
{
    lemma_all_elems(p, x);
    lemma_wire_roundtrip(x);
}

/// What the piece filter keeps, spelled out.
proof fn lemma_pieces_of_props(msgs: Seq<MessageView>)
    requires
        msgs.no_duplicates(),
    ensures
        pieces_of(msgs).no_duplicates(),
        forall|x: MessageView|
            #[trigger] pieces_of(msgs).contains(x) <==> msgs.contains(x) && x is Piece,
    decreases msgs.len(),
{
    if msgs.len() == 0 {
        lemma_pieces_of_empty();
        assert(msgs =~= Seq::<MessageView>::empty());
    } else {
        let rest = msgs.drop_last();
        let last = msgs.last();
        assert(rest.push(last) =~= msgs);
        lemma_pieces_of_props(rest);
        lemma_pieces_of_push(rest, last);
        assert(forall|x: MessageView|
            #[trigger] msgs.contains(x) <==> rest.contains(x) || x == last) by {
            assert(forall|j: int| 0 <= j < rest.len() ==> rest[j] == msgs[j]);
        }
        if last is Piece {
            assert(pieces_of(msgs) == pieces_of(rest).push(last));
            assert(!rest.contains(last));
            assert(!pieces_of(rest).contains(last));
            assert(forall|x: MessageView|
                #[trigger] pieces_of(msgs).contains(x) <==> pieces_of(rest).contains(x) || x
                    == last) by {
                assert(forall|j: int|
                    0 <= j < pieces_of(rest).len() ==> pieces_of(rest)[j] == pieces_of(msgs)[j]);
                assert(pieces_of(msgs).last() == last);
            }
        }
    }
}

/// Sortedness by piece index, pairwise.
pub open spec fn sorted_by_index(s: Seq<MessageView>) -> bool {
    forall|i: int, j: int|
        0 <= i <= j < s.len() ==> piece_index(#[trigger] s[i]) <= piece_index(#[trigger] s[j])
}

proof fn lemma_insert_piece_props(sorted: Seq<MessageView>, m: MessageView)
    requires
        sorted_by_index(sorted),
        sorted.no_duplicates(),
        !sorted.contains(m),
    ensures
        sorted_by_index(insert_piece(sorted, m)),
        insert_piece(sorted, m).no_duplicates(),
        insert_piece(sorted, m).len() == sorted.len() + 1,
        forall|x: MessageView|
            #[trigger] insert_piece(sorted, m).contains(x) <==> sorted.contains(x) || x == m,
    decreases sorted.len(),
{
    let out = insert_piece(sorted, m);
    if sorted.len() == 0 {
        assert(out =~= seq![m]);
        assert(out[0] == m);
        assert(out.contains(m));
    } else if piece_index(sorted.last()) <= piece_index(m) {
        assert(out == sorted.push(m));
        assert(forall|x: MessageView|
            #[trigger] out.contains(x) <==> sorted.contains(x) || x == m) by {
            assert(forall|j: int| 0 <= j < sorted.len() ==> sorted[j] == out[j]);
            assert(out.last() == m);
        }
        assert(forall|i: int|
            0 <= i < sorted.len() ==> piece_index(#[trigger] sorted[i]) <= piece_index(
                sorted.last(),
            ));
    } else {
        let rest = sorted.drop_last();
        let last = sorted.last();
        assert(rest.push(last) =~= sorted);
        assert(forall|x: MessageView|
            #[trigger] sorted.contains(x) <==> rest.contains(x) || x == last) by {
            assert(forall|j: int| 0 <= j < rest.len() ==> rest[j] == sorted[j]);
        }
        assert(sorted_by_index(rest));
        lemma_insert_piece_props(rest, m);
        let inner = insert_piece(rest, m);
        assert(out == inner.push(last));
        assert(forall|x: MessageView| #[trigger] out.contains(x) <==> inner.contains(x) || x
            == last) by {
            assert(forall|j: int| 0 <= j < inner.len() ==> inner[j] == out[j]);
            assert(out.last() == last);
        }
        // the displaced last element still tops everything inserted
        assert(forall|i: int|
            0 <= i < inner.len() ==> piece_index(#[trigger] inner[i]) <= piece_index(last)) by {
            assert(forall|i: int| 0 <= i < inner.len() ==> inner.contains(#[trigger] inner[i]));
            assert(forall|x: MessageView|
                #[trigger] inner.contains(x) ==> rest.contains(x) || x == m);
            assert(forall|i: int|
                0 <= i < rest.len() ==> piece_index(#[trigger] rest[i]) <= piece_index(last));
            assert(forall|x: MessageView|
                #[trigger] rest.contains(x) ==> piece_index(x) <= piece_index(last));
        }
        assert(sorted_by_index(out)) by {
            assert(forall|i: int, j: int|
                0 <= i <= j < inner.len() ==> piece_index(#[trigger] inner[i]) <= piece_index(
                    #[trigger] inner[j],
                ));
            assert(forall|i: int| 0 <= i < inner.len() ==> out[i] == inner[i]);
            assert(out.last() == last);
        }
        assert(!inner.contains(last));
        assert(out.no_duplicates()) by {
            assert(inner.no_duplicates());
            assert(forall|i: int| 0 <= i < inner.len() ==> out[i] == inner[i]);
        }
    }
}

proof fn lemma_sort_pieces_props(s: Seq<MessageView>)
    requires
        s.no_duplicates(),
    ensures
        sorted_by_index(sort_pieces(s)),
        sort_pieces(s).no_duplicates(),
        sort_pieces(s).len() == s.len(),
        forall|x: MessageView| #[trigger] sort_pieces(s).contains(x) <==> s.contains(x),
    decreases s.len(),
{
    if s.len() > 0 {
        let rest = s.drop_last();
        let last = s.last();
        assert(rest.push(last) =~= s);
        assert(forall|x: MessageView| #[trigger] s.contains(x) <==> rest.contains(x) || x
            == last) by {
            assert(forall|j: int| 0 <= j < rest.len() ==> rest[j] == s[j]);
        }
        lemma_sort_pieces_props(rest);
        assert(!sort_pieces(rest).contains(last));
        lemma_insert_piece_props(sort_pieces(rest), last);
    }
}

/// A sorted rearrangement of a strictly index-sorted sequence is that
/// sequence itself.
proof fn lemma_sorted_unique(r: Seq<MessageView>, canon: Seq<MessageView>)
    requires
        r.no_duplicates(),
        canon.no_duplicates(),
        r.len() == canon.len(),
        forall|x: MessageView| #[trigger] r.contains(x) <==> canon.contains(x),
        sorted_by_index(r),
        forall|i: int, j: int|
            0 <= i < j < canon.len() ==> piece_index(#[trigger] canon[i]) < piece_index(
                #[trigger] canon[j],
            ),
    ensures
        r == canon,
    decreases r.len(),
{
    if r.len() == 0 {
        assert(r =~= canon);
    } else {
        let rl = r.last();
        let cl = canon.last();
        assert(r.contains(rl));
        assert(canon.contains(cl));
        // each last element carries the maximal index of its sequence
        let ri = choose|ri: int| 0 <= ri < canon.len() && canon[ri] == rl;
        assert(piece_index(rl) <= piece_index(cl)) by {
            if ri < canon.len() - 1 {
                assert(piece_index(canon[ri]) < piece_index(canon[canon.len() - 1]));
            }
        }
        assert(r.contains(cl));
        let ci = choose|ci: int| 0 <= ci < r.len() && r[ci] == cl;
        assert(piece_index(cl) <= piece_index(rl)) by {
            assert(piece_index(r[ci]) <= piece_index(r[r.len() - 1]));
        }
        // equal indices force equal elements, canon's indices being distinct
        assert(rl == cl) by {
            if ri < canon.len() - 1 {
                assert(piece_index(canon[ri]) < piece_index(canon[canon.len() - 1]));
                assert(false);
            }
        }
        let r2 = r.drop_last();
        let c2 = canon.drop_last();
        assert(r2.push(rl) =~= r);
        assert(c2.push(cl) =~= canon);
        assert(forall|x: MessageView| #[trigger] r.contains(x) <==> r2.contains(x) || x == rl) by {
            assert(forall|j: int| 0 <= j < r2.len() ==> r2[j] == r[j]);
        }
        assert(forall|x: MessageView| #[trigger] canon.contains(x) <==> c2.contains(x) || x
            == cl) by {
            assert(forall|j: int| 0 <= j < c2.len() ==> c2[j] == canon[j]);
        }
        assert(!r2.contains(rl)) by {
            assert(forall|j: int| 0 <= j < r2.len() ==> r2[j] == r[j]);
        }
        assert(!c2.contains(cl)) by {
            assert(forall|j: int| 0 <= j < c2.len() ==> c2[j] == canon[j]);
        }
        assert forall|x: MessageView| (#[trigger] r2.contains(x) <==> c2.contains(x)) by {
            assert(r.contains(x) <==> r2.contains(x) || x == rl);
            assert(canon.contains(x) <==> c2.contains(x) || x == cl);
            assert(r.contains(x) <==> canon.contains(x));
        }
        lemma_sorted_unique(r2, c2);
        assert(r =~= canon);
    }
}

proof fn lemma_push_to_set(s: Seq<MessageView>, x: MessageView)
    ensures
        s.push(x).to_set() == s.to_set().insert(x),
        forall|y: MessageView| #[trigger] s.push(x).contains(y) <==> s.contains(y) || y == x,
{
    assert(forall|j: int| 0 <= j < s.len() ==> s.push(x)[j] == s[j]);
    assert(s.push(x).last() == x);
    assert(s.push(x).to_set() =~= s.to_set().insert(x));
}

/// Canonical piece order decodes to exactly the payload's chunks.
proof fn lemma_decoded_canon_prefix(p: PayloadView, chunks: Seq<Seq<u8>>, plain: Seq<u8>, k: int)
    requires
        payload_wf(p, chunks, plain),
        0 <= k <= p.pieces.len(),
    ensures
        decoded_pieces(canon_pieces(p).take(k)) == Some(chunks.take(k)),
    decreases k,
{
    let canon = canon_pieces(p);
    if k == 0 {
        assert(canon.take(0) =~= Seq::<MessageView>::empty());
        assert(chunks.take(0) =~= Seq::<Seq<u8>>::empty());
    } else {
        lemma_decoded_canon_prefix(p, chunks, plain, k - 1);
        assert(canon.take(k).drop_last() =~= canon.take(k - 1));
        assert(canon.take(k).last() == canon[k - 1]);
        assert(piece_data(canon[k - 1]) == p.pieces[k - 1].1);
        assert(b64_decode_of(p.pieces[k - 1].1) == Some(chunks[k - 1]));
        assert(chunks.take(k - 1).push(chunks[k - 1]) =~= chunks.take(k));
    }
}

/// A deduplicated record that covers the payload exactly finalizes to
/// the payload's output, whatever order it was gathered in.
proof fn lemma_finalize_complete(
    p: PayloadView,
    chunks: Seq<Seq<u8>>,
    plain: Seq<u8>,
    msgs: Seq<MessageView>,
)
    requires
        payload_wf(p, chunks, plain),
        msgs.no_duplicates(),
        msgs.to_set() == payload_msgs(p).to_set(),
    ensures
        finalize(p.metadata, msgs) == (MachineView::Finished { out: expected_out(p, plain) }),
{
    let canon = canon_pieces(p);
    assert(forall|k: int| 0 <= k < canon.len() ==> #[trigger] canon[k] == piece_msg(p.pieces[k]));
    assert(forall|k: int| 0 <= k < canon.len() ==> piece_index(#[trigger] canon[k]) == k + 1);
    assert(canon.no_duplicates()) by {
        assert(forall|i: int, j: int|
            0 <= i < j < canon.len() ==> piece_index(#[trigger] canon[i]) != piece_index(
                #[trigger] canon[j],
            ));
    }
    lemma_pieces_of_props(msgs);
    let t = pieces_of(msgs);
    assert forall|x: MessageView| (#[trigger] t.contains(x) <==> canon.contains(x)) by {
        lemma_all_elems(p, x);
        assert(msgs.contains(x) <==> msgs.to_set().contains(x));
        if t.contains(x) {
            assert(msgs.contains(x) && x is Piece);
            let k = choose|k: int|
                0 <= k < p.pieces.len() && x == piece_msg(#[trigger] p.pieces[k]);
            assert(canon[k] == x);
            assert(canon.contains(x));
        }
        if canon.contains(x) {
            let k = choose|k: int| 0 <= k < canon.len() && canon[k] == x;
            assert(x == piece_msg(p.pieces[k]));
            assert(payload_msgs(p).to_set().contains(x)) by {
                lemma_all_elems(p, x);
            }
            assert(msgs.contains(x));
        }
    }
    lemma_sort_pieces_props(t);
    let r = sort_pieces(t);
    assert(r.to_set() =~= canon.to_set()) by {
        assert(forall|x: MessageView| #[trigger] r.contains(x) <==> canon.contains(x));
    }
    r.unique_seq_to_set();
    canon.unique_seq_to_set();
    assert(r.len() == canon.len());
    lemma_sorted_unique(r, canon);
    lemma_decoded_canon_prefix(p, chunks, plain, canon.len() as int);
    assert(canon.take(canon.len() as int) =~= canon);
    assert(chunks.take(canon.len() as int) =~= chunks);
    assert(decoded_pieces(sort_pieces(pieces_of(msgs))) == Some(chunks));
}

/// The delivery invariant: how the machine's state mirrors the set of
/// payload messages seen so far.
spec fn good_state(
    p: PayloadView,
    plain: Seq<u8>,
    st: MachineView,
    c: Set<MessageView>,
) -> bool {
    let all = payload_msgs(p).to_set();
    if !c.contains(meta_msg(p)) {
        match st {
            MachineView::Initted { msgs } => msgs.no_duplicates() && msgs.to_set() == c,
            _ => false,
        }
    } else if c != all {
        match st {
            MachineView::Started { meta, msgs } => meta == p.metadata && msgs.no_duplicates()
                && msgs.to_set() == c,
            _ => false,
        }
    } else {
        st == (MachineView::Finished { out: expected_out(p, plain) })
    }
}

/// With the Metadata recorded, the expected set is covered exactly when
/// every payload message has been seen.
proof fn lemma_complete_iff(
    p: PayloadView,
    chunks: Seq<Seq<u8>>,
    plain: Seq<u8>,
    msgs: Seq<MessageView>,
)
    requires
        payload_wf(p, chunks, plain),
        msgs.to_set().subset_of(payload_msgs(p).to_set()),
        msgs.to_set().contains(meta_msg(p)),
    ensures
        is_complete(p.metadata.length, msgs) <==> msgs.to_set() == payload_msgs(p).to_set(),
{
    let all = payload_msgs(p).to_set();
    if is_complete(p.metadata.length, msgs) {
        assert forall|x: MessageView| #[trigger] all.contains(x) implies msgs.to_set().contains(x) by {
            lemma_all_elems(p, x);
            if x != meta_msg(p) {
                let k = choose|k: int|
                    0 <= k < p.pieces.len() && x == piece_msg(#[trigger] p.pieces[k]);
                let i = (k + 1) as usize;
                assert(1 <= i <= p.metadata.length);
                assert(has_piece(msgs, i));
                let w = choose|w: int|
                    0 <= w < msgs.len() && (#[trigger] msgs[w]) is Piece && piece_index(msgs[w])
                        == i;
                assert(msgs.to_set().contains(msgs[w])) by {
                    assert(msgs.contains(msgs[w]));
                }
                lemma_piece_by_index(p, chunks, plain, msgs[w]);
                assert(msgs[w] == x);
            }
        }
        assert(msgs.to_set() =~= all);
    }
    if msgs.to_set() == all {
        assert forall|i: usize| 1 <= i <= p.metadata.length implies has_piece(msgs, i) by {
            let x = piece_msg(p.pieces[i - 1]);
            assert(all.contains(x)) by {
                lemma_all_elems(p, x);
            }
            assert(msgs.contains(x));
            let w = choose|w: int| 0 <= w < msgs.len() && msgs[w] == x;
            assert(piece_index(msgs[w]) == i);
            assert(has_piece(msgs, i));
        }
    }
}

/// One delivered frame preserves the invariant, the set of seen messages
/// growing by the frame's message.
proof fn lemma_step_good(
    p: PayloadView,
    chunks: Seq<Seq<u8>>,
    plain: Seq<u8>,
    st: MachineView,
    c: Set<MessageView>,
    m: MessageView,
)
    requires
        payload_wf(p, chunks, plain),
        good_state(p, plain, st, c),
        c.subset_of(payload_msgs(p).to_set()),
        payload_msgs(p).to_set().contains(m),
    ensures
        good_state(p, plain, spec_step(st, spec_msg_wire(m)).0, c.insert(m)),
        c.insert(m).subset_of(payload_msgs(p).to_set()),
{
    let all = payload_msgs(p).to_set();
    lemma_payload_wire_safe(p, chunks, plain, m);
    let c1 = c.insert(m);
    let st1 = spec_step(st, spec_msg_wire(m)).0;
    assert(st1 == step_msg(st, m).0);
    if !c.contains(meta_msg(p)) {
        match st {
            MachineView::Initted { msgs } => {
                if msgs.contains(m) {
                    assert(c1 =~= c);
                } else {
                    let msgs2 = msgs.push(m);
                    lemma_push_to_set(msgs, m);
                    assert(msgs2.to_set() == c1);
                    assert(msgs2.no_duplicates());
                    if m is Metadata {
                        lemma_all_elems(p, m);
                        assert(m == meta_msg(p));
                        assert(c1.contains(meta_msg(p)));
                        lemma_complete_iff(p, chunks, plain, msgs2);
                        if is_complete(p.metadata.length, msgs2) {
                            assert(c1 == all);
                            lemma_finalize_complete(p, chunks, plain, msgs2);
                            assert(st1 == after_record(p.metadata, msgs2));
                        } else {
                            assert(c1 != all);
                            assert(st1 == (MachineView::Started {
                                meta: p.metadata,
                                msgs: msgs2,
                            }));
                        }
                    } else {
                        assert(m != meta_msg(p));
                        assert(!c1.contains(meta_msg(p)));
                        assert(st1 == (MachineView::Initted { msgs: msgs2 }));
                    }
                }
            },
            _ => {
                assert(false);
            },
        }
    } else if c != all {
        match st {
            MachineView::Started { meta, msgs } => {
                if msgs.contains(m) {
                    assert(c1 =~= c);
                } else if m is Metadata {
                    lemma_all_elems(p, m);
                    assert(m == meta_msg(p));
                    assert(msgs.to_set().contains(m));
                    assert(msgs.contains(m));
                    assert(false);
                } else {
                    let msgs2 = msgs.push(m);
                    lemma_push_to_set(msgs, m);
                    assert(msgs2.to_set() == c1);
                    assert(c1.contains(meta_msg(p)));
                    lemma_complete_iff(p, chunks, plain, msgs2);
                    if is_complete(p.metadata.length, msgs2) {
                        assert(c1 == all);
                        lemma_finalize_complete(p, chunks, plain, msgs2);
                        assert(st1 == after_record(p.metadata, msgs2));
                    } else {
                        assert(c1 != all);
                        assert(st1 == (MachineView::Started { meta: p.metadata, msgs: msgs2 }));
                    }
                }
            },
            _ => {
                assert(false);
            },
        }
    } else {
        assert(c1 =~= c);
        assert(st1 == st);
    }
}

/// Every frame of `texts` is a frame of the payload.
pub open spec fn texts_from(p: PayloadView, texts: Seq<Seq<char>>) -> bool {
    forall|i: int|
        0 <= i < texts.len() ==> exists|k: int|
            0 <= k < payload_msgs(p).len() && #[trigger] texts[i] == spec_msg_wire(
                #[trigger] payload_msgs(p)[k],
            )
}

/// The payload messages some frame of `texts` delivers.
pub open spec fn covered(p: PayloadView, texts: Seq<Seq<char>>) -> Set<MessageView> {
    Set::new(|m: MessageView| payload_msgs(p).contains(m) && texts.contains(spec_msg_wire(m)))
}

proof fn lemma_drop_first_contains<A>(s: Seq<A>)
    requires
        s.len() > 0,
    ensures
        forall|x: A| #[trigger] s.contains(x) <==> x == s[0] || s.drop_first().contains(x),
{
    assert(forall|j: int| 0 <= j < s.drop_first().len() ==> s.drop_first()[j] == s[j + 1]);
    assert forall|x: A| (#[trigger] s.contains(x) <==> x == s[0] || s.drop_first().contains(x)) by {
        if s.contains(x) {
            let j = choose|j: int| 0 <= j < s.len() && s[j] == x;
            if j > 0 {
                assert(s.drop_first()[j - 1] == x);
                assert(s.drop_first().contains(x));
            }
        }
        if s.drop_first().contains(x) {
            let j = choose|j: int| 0 <= j < s.drop_first().len() && s.drop_first()[j] == x;
            assert(s[j + 1] == x);
        }
    }
}

proof fn lemma_feed_good(
    p: PayloadView,
    chunks: Seq<Seq<u8>>,
    plain: Seq<u8>,
    st: MachineView,
    c: Set<MessageView>,
    texts: Seq<Seq<char>>,
)
    requires
        payload_wf(p, chunks, plain),
        good_state(p, plain, st, c),
        c.subset_of(payload_msgs(p).to_set()),
        texts_from(p, texts),
    ensures
        good_state(p, plain, feed(st, texts), c.union(covered(p, texts))),
        c.union(covered(p, texts)).subset_of(payload_msgs(p).to_set()),
    decreases texts.len(),
{
    if texts.len() == 0 {
        assert(covered(p, texts) =~= Set::<MessageView>::empty());
        assert(c.union(covered(p, texts)) =~= c);
    } else {
        let t0 = texts[0];
        let k0 = choose|k: int|
            0 <= k < payload_msgs(p).len() && t0 == spec_msg_wire(#[trigger] payload_msgs(p)[k]);
        let m0 = payload_msgs(p)[k0];
        assert(payload_msgs(p).contains(m0));
        assert(payload_msgs(p).to_set().contains(m0));
        lemma_step_good(p, chunks, plain, st, c, m0);
        let st1 = spec_step(st, t0).0;
        let rest = texts.drop_first();
        assert(texts_from(p, rest)) by {
            assert(forall|i: int| 0 <= i < rest.len() ==> #[trigger] rest[i] == texts[i + 1]);
        }
        lemma_feed_good(p, chunks, plain, st1, c.insert(m0), rest);
        assert(feed(st, texts) == feed(st1, rest));
        lemma_drop_first_contains(texts);
        assert(c.insert(m0).union(covered(p, rest)) =~= c.union(covered(p, texts))) by {
            assert forall|x: MessageView|
                (#[trigger] covered(p, texts).contains(x) <==> covered(p, rest).contains(x) || x
                    == m0) by {
                if covered(p, texts).contains(x) && !covered(p, rest).contains(x) {
                    assert(texts.contains(spec_msg_wire(x)));
                    assert(spec_msg_wire(x) == t0);
                    lemma_payload_wire_safe(p, chunks, plain, x);
                    lemma_payload_wire_safe(p, chunks, plain, m0);
                    assert(spec_parse_msg(spec_msg_wire(x)) == Some(x));
                    assert(spec_parse_msg(spec_msg_wire(m0)) == Some(m0));
                    assert(x == m0);
                }
                if x == m0 {
                    assert(texts.contains(t0));
                    assert(covered(p, texts).contains(m0));
                }
                if covered(p, rest).contains(x) {
                    assert(rest.contains(spec_msg_wire(x)));
                    assert(texts.contains(spec_msg_wire(x)));
                }
            }
        }
    }
}

/// Feeding a fresh session any succession of a payload's frames that
/// covers every message — in any order, with any duplication — finishes
/// with exactly the payload's output.  The Metadata frame may come first,
/// last, or anywhere between.
pub proof fn lemma_complete_delivery(
    p: PayloadView,
    chunks: Seq<Seq<u8>>,
    plain: Seq<u8>,
    texts: Seq<Seq<char>>,
)
    requires
        payload_wf(p, chunks, plain),
        texts_from(p, texts),
        forall|k: int|
            0 <= k < payload_msgs(p).len() ==> texts.contains(
                spec_msg_wire(#[trigger] payload_msgs(p)[k]),
            ),
    ensures
        feed(spec_init(), texts) == (MachineView::Finished { out: expected_out(p, plain) }),
{
    let all = payload_msgs(p).to_set();
    assert(good_state(p, plain, spec_init(), Set::empty())) by {
        assert(Seq::<MessageView>::empty().to_set() =~= Set::<MessageView>::empty());
    }
    lemma_feed_good(p, chunks, plain, spec_init(), Set::empty(), texts);
    let cend = Set::empty().union(covered(p, texts));
    assert(cend =~= all) by {
        assert forall|x: MessageView| #[trigger] all.contains(x) implies cend.contains(x) by {
            let k = choose|k: int| 0 <= k < payload_msgs(p).len() && payload_msgs(p)[k] == x;
            assert(texts.contains(spec_msg_wire(payload_msgs(p)[k])));
        }
    }
    assert(cend.contains(meta_msg(p))) by {
        assert(payload_msgs(p)[0] == meta_msg(p));
        assert(payload_msgs(p).contains(meta_msg(p)));
        assert(all.contains(meta_msg(p)));
    }
}

/// Idempotence under duplication and reordering: any two complete
/// deliveries of the same payload — each message fed at least once, in
/// any order, repeated any number of times — end in the same Finished
/// output.
pub proof fn lemma_delivery_idempotent(
    p: PayloadView,
    chunks: Seq<Seq<u8>>,
    plain: Seq<u8>,
    once: Seq<Seq<char>>,
    again: Seq<Seq<char>>,
)
    requires
        payload_wf(p, chunks, plain),
        texts_from(p, once),
        texts_from(p, again),
        forall|k: int|
            0 <= k < payload_msgs(p).len() ==> once.contains(
                spec_msg_wire(#[trigger] payload_msgs(p)[k]),
            ),
        forall|k: int|
            0 <= k < payload_msgs(p).len() ==> again.contains(
                spec_msg_wire(#[trigger] payload_msgs(p)[k]),
            ),
    ensures
        feed(spec_init(), once) == feed(spec_init(), again),
        feed(spec_init(), once) == (MachineView::Finished { out: expected_out(p, plain) }),
{
    lemma_complete_delivery(p, chunks, plain, once);
    lemma_complete_delivery(p, chunks, plain, again);
}

/// The payload's frames in the encoder's own order.
pub open spec fn payload_wires(p: PayloadView) -> Seq<Seq<char>> {
    Seq::new(payload_msgs(p).len(), |k: int| spec_msg_wire(payload_msgs(p)[k]))
}

/// Order independence: feeding any permutation of the payload's frame
/// sequence — Metadata last included — finishes with the payload's
/// output, the same for every permutation.
pub proof fn lemma_order_independence(
    p: PayloadView,
    chunks: Seq<Seq<u8>>,
    plain: Seq<u8>,
    texts: Seq<Seq<char>>,
)
    requires
        payload_wf(p, chunks, plain),
        texts.to_multiset() == payload_wires(p).to_multiset(),
    ensures
        feed(spec_init(), texts) == (MachineView::Finished { out: expected_out(p, plain) }),
{
    broadcast use vstd::seq_lib::group_to_multiset_ensures;

    assert forall|w: Seq<char>| (#[trigger] texts.contains(w) <==> payload_wires(p).contains(
        w,
    )) by {
        assert(texts.contains(w) <==> texts.to_multiset().count(w) > 0);
        assert(payload_wires(p).contains(w) <==> payload_wires(p).to_multiset().count(w) > 0);
    }
    assert(texts_from(p, texts)) by {
        assert forall|i: int| 0 <= i < texts.len() implies exists|k: int|
            0 <= k < payload_msgs(p).len() && #[trigger] texts[i] == spec_msg_wire(
                #[trigger] payload_msgs(p)[k],
            ) by {
            assert(texts.contains(texts[i]));
            assert(payload_wires(p).contains(texts[i]));
            let k = choose|k: int|
                0 <= k < payload_wires(p).len() && payload_wires(p)[k] == texts[i];
            assert(texts[i] == spec_msg_wire(payload_msgs(p)[k]));
        }
    }
    assert forall|k: int| 0 <= k < payload_msgs(p).len() implies texts.contains(
        spec_msg_wire(#[trigger] payload_msgs(p)[k]),
    ) by {
        assert(payload_wires(p)[k] == spec_msg_wire(payload_msgs(p)[k]));
        assert(payload_wires(p).contains(payload_wires(p)[k]));
    }
    lemma_complete_delivery(p, chunks, plain, texts);
}

/// Partial delivery never finishes: leave any single piece out and the
/// session stays in Started, reporting exactly that piece as missing.
pub proof fn lemma_partial_never_finishes(
    p: PayloadView,
    chunks: Seq<Seq<u8>>,
    plain: Seq<u8>,
    texts: Seq<Seq<char>>,
    j: usize,
)
    requires
        payload_wf(p, chunks, plain),
        1 <= j <= p.pieces.len(),
        forall|i: int|
            0 <= i < texts.len() ==> exists|k: int|
                0 <= k < payload_msgs(p).len() && k != j && #[trigger] texts[i] == spec_msg_wire(
                    #[trigger] payload_msgs(p)[k],
                ),
        forall|k: int|
            0 <= k < payload_msgs(p).len() && k != j ==> texts.contains(
                spec_msg_wire(#[trigger] payload_msgs(p)[k]),
            ),
    ensures
        ({
            let st = feed(spec_init(), texts);
            &&& st matches MachineView::Started { meta, msgs }
            &&& meta == p.metadata
            &&& !has_piece(msgs, j)
            &&& forall|i: usize| 1 <= i <= p.metadata.length && i != j ==> has_piece(msgs, i)
        }),
{
    let all = payload_msgs(p);
    let excluded = piece_msg(p.pieces[j - 1]);
    assert(all[j as int] == excluded);
    assert(all.no_duplicates()) by {
        assert(forall|k: int| 1 <= k < all.len() ==> #[trigger] all[k] == piece_msg(
            p.pieces[k - 1],
        ));
        assert(forall|k: int| 1 <= k < all.len() ==> piece_index(#[trigger] all[k]) == k);
        assert(forall|i: int, k: int| 1 <= i < k < all.len() ==> all[i] != all[k]);
        assert(forall|k: int| 1 <= k < all.len() ==> (#[trigger] all[k]) is Piece);
        assert(all[0] is Metadata);
    }
    assert(texts_from(p, texts));
    assert(good_state(p, plain, spec_init(), Set::empty())) by {
        assert(Seq::<MessageView>::empty().to_set() =~= Set::<MessageView>::empty());
    }
    lemma_feed_good(p, chunks, plain, spec_init(), Set::empty(), texts);
    let cend = Set::empty().union(covered(p, texts));
    assert(!cend.contains(excluded)) by {
        if covered(p, texts).contains(excluded) {
            assert(texts.contains(spec_msg_wire(excluded)));
            let i = choose|i: int|
                0 <= i < texts.len() && texts[i] == spec_msg_wire(excluded);
            let k = choose|k: int|
                0 <= k < all.len() && k != j && texts[i] == spec_msg_wire(#[trigger] all[k]);
            lemma_payload_wire_safe(p, chunks, plain, excluded);
            lemma_payload_wire_safe(p, chunks, plain, all[k]);
            assert(all.to_set().contains(all[k])) by {
                assert(all.contains(all[k]));
            }
            assert(all[k] == excluded);
            assert(false);
        }
    }
    assert(cend != all.to_set()) by {
        assert(all.to_set().contains(excluded)) by {
            assert(all.contains(excluded));
        }
    }
    assert(cend.contains(meta_msg(p))) by {
        assert(all[0] == meta_msg(p));
        assert(0 != j);
        assert(texts.contains(spec_msg_wire(all[0])));
        assert(all.contains(meta_msg(p)));
    }
    assert forall|k: int| 0 <= k < all.len() && k != j implies cend.contains(
        #[trigger] all[k],
    ) by {
        assert(texts.contains(spec_msg_wire(all[k])));
        assert(all.contains(all[k]));
    }
    match feed(spec_init(), texts) {
        MachineView::Started { meta, msgs } => {
            assert(meta == p.metadata);
            assert(msgs.to_set() == cend);
            assert(!has_piece(msgs, j)) by {
                if has_piece(msgs, j) {
                    let w = choose|w: int|
                        0 <= w < msgs.len() && (#[trigger] msgs[w]) is Piece && piece_index(
                            msgs[w],
                        ) == j;
                    assert(msgs.contains(msgs[w]));
                    assert(cend.contains(msgs[w]));
                    assert(all.to_set().contains(msgs[w]));
                    lemma_piece_by_index(p, chunks, plain, msgs[w]);
                    assert(msgs[w] == excluded);
                    assert(false);
                }
            }
            assert forall|i: usize| 1 <= i <= p.metadata.length && i != j implies has_piece(
                msgs,
                i,
            ) by {
                let x = piece_msg(p.pieces[i - 1]);
                assert(all[i as int] == x);
                assert(cend.contains(x));
                assert(msgs.contains(x));
                let w = choose|w: int| 0 <= w < msgs.len() && msgs[w] == x;
                assert(piece_index(msgs[w]) == i);
            }
        },
        _ => {
            assert(false);
        },
    }
}

/// Without the Metadata, a session can never leave the Initted state,
/// however many pieces it records.
pub proof fn lemma_no_metadata_never_starts(
    p: PayloadView,
    chunks: Seq<Seq<u8>>,
    plain: Seq<u8>,
    texts: Seq<Seq<char>>,
)
    requires
        payload_wf(p, chunks, plain),
        forall|i: int|
            0 <= i < texts.len() ==> exists|k: int|
                1 <= k < payload_msgs(p).len() && #[trigger] texts[i] == spec_msg_wire(
                    #[trigger] payload_msgs(p)[k],
                ),
    ensures
        feed(spec_init(), texts) is Initted,
{
    let all = payload_msgs(p);
    assert(texts_from(p, texts));
    assert(good_state(p, plain, spec_init(), Set::empty())) by {
        assert(Seq::<MessageView>::empty().to_set() =~= Set::<MessageView>::empty());
    }
    lemma_feed_good(p, chunks, plain, spec_init(), Set::empty(), texts);
    let cend = Set::empty().union(covered(p, texts));
    assert(!cend.contains(meta_msg(p))) by {
        if covered(p, texts).contains(meta_msg(p)) {
            assert(texts.contains(spec_msg_wire(meta_msg(p))));
            let i = choose|i: int|
                0 <= i < texts.len() && texts[i] == spec_msg_wire(meta_msg(p));
            let k = choose|k: int|
                1 <= k < all.len() && texts[i] == spec_msg_wire(#[trigger] all[k]);
            lemma_payload_wire_safe(p, chunks, plain, meta_msg(p));
            assert(all.to_set().contains(all[k])) by {
                assert(all.contains(all[k]));
            }
            lemma_payload_wire_safe(p, chunks, plain, all[k]);
            assert(all[k] == meta_msg(p));
            assert(all[k] == piece_msg(p.pieces[k - 1]));
            assert(false);
        }
    }
}

} // verus!
