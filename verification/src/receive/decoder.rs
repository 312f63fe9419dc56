//! The reassembly engine: a session that ingests lines of wire text in
//! any order, with duplicates, and yields the verified, decompressed
//! payload once every expected message has been seen.
//!
//! Every public operation is specified against the model in
//! [`crate::receive::model`]: `process_chunk` performs exactly one
//! [`spec_step`] transition.

use crate::codec;
use crate::codec::b64_of;
use crate::compress;
use crate::protocol::Message;
use crate::protocol::Metadata;
use crate::receive::model::after_record;
use crate::receive::model::decoded_pieces;
use crate::receive::model::display_name_of;
use crate::receive::model::finalize;
use crate::receive::model::has_piece;
use crate::receive::model::is_complete;
use crate::receive::model::lemma_decoded_prefix_none;
use crate::receive::model::lemma_insert_piece_at;
use crate::receive::model::lemma_pieces_of_empty;
use crate::receive::model::lemma_pieces_of_push;
use crate::receive::model::lemma_sort_pieces_kind;
use crate::receive::model::piece_index;
use crate::receive::model::pieces_of;
use crate::receive::model::sort_pieces;
use crate::receive::model::spec_init;
use crate::receive::model::spec_step;
use crate::receive::model::step_msg;
use crate::receive::model::MachineView;
use crate::receive::model::OutputView;
use crate::send::encoder::concat_bytes;
use crate::send::encoder::lemma_concat_bytes_push;
use crate::utils;
use vstd::pervasive::unreached;
use vstd::prelude::*;

verus! {

/// A completed transfer: the decoded file name and the decompressed
/// bytes.  A value of this type exists only after the digest carried by
/// the Metadata was recomputed and found to match.
pub struct Finished {
    name: String,
    data: Vec<u8>,
}

impl View for Finished {
    type V = OutputView;

    closed spec fn view(&self) -> OutputView {
        OutputView { name: self.name@, bytes: self.data@ }
    }
}

impl Finished {
    /// The payload re-encoded as codec text, ready for a caller to hand
    /// to a download or display sink.
    pub fn to_base64(&self) -> (r: String)
        ensures
            r@ == b64_of(self@.bytes),
    {
        codec::encode(self.data.as_slice())
    }

    /// The transfer's file name.
    pub fn get_name(&self) -> (r: String)
        ensures
            r@ == self@.name,
    {
        self.name.clone()
    }

    /// The transfer's bytes.
    pub fn get_data(&self) -> (r: &Vec<u8>)
        ensures
            r@ == self@.bytes,
    {
        &self.data
    }
}

struct Initted {
    received_msgs: Vec<Message>,
}

struct Started {
    metadata: Metadata,
    received_msgs: Vec<Message>,
}

enum MachineWrapper {
    Initted(Initted),
    Started(Started),
    Finished(Finished),
    Corrupt,
}

spec fn wrapper_view(m: MachineWrapper) -> MachineView {
    match m {
        MachineWrapper::Initted(s) => MachineView::Initted { msgs: s.received_msgs.deep_view() },
        MachineWrapper::Started(s) => MachineView::Started {
            meta: s.metadata@,
            msgs: s.received_msgs.deep_view(),
        },
        MachineWrapper::Finished(f) => MachineView::Finished { out: f@ },
        MachineWrapper::Corrupt => MachineView::Corrupt,
    }
}

/// A read-only report of how far a session has come.
#[derive(Debug, PartialEq, Eq)]
pub enum Progress {
    /// No Metadata has been seen yet, so the expected set is unknown.
    NoMetadata,
    /// The Metadata is known; `missing` holds the still-missing piece
    /// indices in ascending numeric order.
    Receiving { received: usize, total: usize, missing: Vec<usize> },
    /// The transfer completed and its output is available.
    Finished,
    /// The transfer completed with a digest or format failure and was
    /// rejected; the session accepts nothing further.
    Corrupt,
}

fn piece_index_of(m: &Message) -> (r: usize)
    ensures
        r == piece_index(m@),
{
    match m {
        Message::Piece { index, .. } => *index,
        Message::Metadata(_) => 0,
    }
}

fn contains_msg(msgs: &Vec<Message>, m: &Message) -> (r: bool)
    ensures
        r == msgs.deep_view().contains(m@),
{
    let n = msgs.len();
    for k in 0..n
        invariant
            n == msgs@.len(),
            forall|j: int| 0 <= j < k ==> msgs@[j]@ != m@,
    {
        if msgs[k].eq(m) {
            proof {
                assert(msgs.deep_view()[k as int] == msgs@[k as int]@);
            }
            return true;
        }
    }
    proof {
        assert(forall|j: int| 0 <= j < n ==> #[trigger] msgs.deep_view()[j] == msgs@[j]@);
    }
    false
}

fn find_piece(msgs: &Vec<Message>, i: usize) -> (r: bool)
    ensures
        r == has_piece(msgs.deep_view(), i),
{
    let n = msgs.len();
    for k in 0..n
        invariant
            n == msgs@.len(),
            forall|j: int|
                0 <= j < k ==> !((#[trigger] msgs@[j]@) is Piece && piece_index(msgs@[j]@) == i),
    {
        let found = match &msgs[k] {
            Message::Piece { index, .. } => *index == i,
            Message::Metadata(_) => false,
        };
        if found {
            proof {
                assert(msgs.deep_view()[k as int] == msgs@[k as int]@);
            }
            return true;
        }
    }
    proof {
        assert(forall|j: int| 0 <= j < n ==> #[trigger] msgs.deep_view()[j] == msgs@[j]@);
    }
    false
}

/// Stable insertion sort of the recorded pieces by index.
fn sort_exec(pieces: Vec<Message>) -> (r: Vec<Message>)
    ensures
        r.deep_view() == sort_pieces(pieces.deep_view()),
{
    let ghost pv = pieces.deep_view();
    let mut sorted: Vec<Message> = Vec::new();
    let n = pieces.len();
    proof {
        assert(pv.take(0) =~= Seq::<crate::protocol::MessageView>::empty());
        assert(sorted.deep_view() =~= Seq::<crate::protocol::MessageView>::empty());
    }
    for k in 0..n
        invariant
            n == pieces@.len(),
            pv == pieces.deep_view(),
            sorted.deep_view() == sort_pieces(pv.take(k as int)),
    {
        let ghost pre = sorted.deep_view();
        let x = pieces[k].clone();
        proof {
            assert(x@ == pieces.deep_view()[k as int]);
        }
        let xi = piece_index_of(&x);
        let mut j = sorted.len();
        while j > 0 && piece_index_of(&sorted[j - 1]) > xi
            invariant
                j <= sorted@.len(),
                pre == sorted.deep_view(),
                xi == piece_index(x@),
                forall|t: int|
                    j <= t < pre.len() ==> piece_index(#[trigger] pre[t]) > piece_index(x@),
            decreases j,
        {
            proof {
                assert(pre[j - 1] == sorted@[j - 1]@);
            }
            j -= 1;
        }
        proof {
            if j > 0 {
                assert(pre[j - 1] == sorted@[j - 1]@);
            }
            lemma_insert_piece_at(pre, x@, j as int);
        }
        sorted.insert(j, x);
        proof {
            assert(sorted.deep_view() =~= pre.take(j as int).push(x@) + pre.skip(j as int));
            assert(pv.take(k + 1).drop_last() =~= pv.take(k as int));
            assert(pv.take(k + 1).last() == pv[k as int]);
            assert(sorted.deep_view() == sort_pieces(pv.take(k + 1)));
        }
    }
    proof {
        assert(pv.take(n as int) =~= pv);
    }
    sorted
}

/// Complete a session whose expected set is covered: filter and sort the
/// pieces, decode and concatenate their chunks, check the digest,
/// decompress, and resolve the name.  Any failure rejects the transfer.
fn finalize_exec(metadata: Metadata, received_msgs: Vec<Message>) -> (r: MachineWrapper)
    ensures
        wrapper_view(r) == finalize(metadata@, received_msgs.deep_view()),
{
    let ghost msgsv = received_msgs.deep_view();
    // Keep the pieces, in arrival order.
    let mut pieces: Vec<Message> = Vec::new();
    let n = received_msgs.len();
    proof {
        lemma_pieces_of_empty();
        assert(msgsv.take(0) =~= Seq::<crate::protocol::MessageView>::empty());
        assert(pieces.deep_view() =~= Seq::<crate::protocol::MessageView>::empty());
    }
    for k in 0..n
        invariant
            n == received_msgs@.len(),
            msgsv == received_msgs.deep_view(),
            pieces.deep_view() == pieces_of(msgsv.take(k as int)),
            forall|j: int| 0 <= j < pieces@.len() ==> (#[trigger] pieces@[j]@) is Piece,
    {
        let ghost pre = pieces.deep_view();
        let is_p = match &received_msgs[k] {
            Message::Piece { .. } => true,
            Message::Metadata(_) => false,
        };
        proof {
            assert(msgsv[k as int] == received_msgs@[k as int]@);
            assert(msgsv.take(k + 1) =~= msgsv.take(k as int).push(msgsv[k as int]));
            lemma_pieces_of_push(msgsv.take(k as int), msgsv[k as int]);
        }
        if is_p {
            pieces.push(received_msgs[k].clone());
            proof {
                assert(pieces.deep_view() =~= pre.push(msgsv[k as int]));
            }
        }
    }
    proof {
        assert(msgsv.take(n as int) =~= msgsv);
    }
    let ghost piecesv = pieces.deep_view();
    // Sort them by index, stably.
    proof {
        assert(piecesv == pieces_of(msgsv));
        assert(forall|j: int| 0 <= j < piecesv.len() ==> (#[trigger] piecesv[j]) == pieces@[j]@);
        lemma_sort_pieces_kind(piecesv);
    }
    let sorted = sort_exec(pieces);
    let ghost sortedv = sorted.deep_view();
    proof {
        assert(sortedv == sort_pieces(pieces_of(msgsv)));
    }
    // Decode each piece's chunk and concatenate.
    let mut data: Vec<u8> = Vec::new();
    let ghost mut gchunks: Seq<Seq<u8>> = Seq::empty();
    let m = sorted.len();
    proof {
        assert(sortedv.take(0) =~= Seq::<crate::protocol::MessageView>::empty());
        assert(decoded_pieces(sortedv.take(0)) == Some(Seq::<Seq<u8>>::empty()));
        assert(data@ =~= concat_bytes(gchunks));
    }
    for k in 0..m
        invariant
            m == sorted@.len(),
            sortedv == sorted.deep_view(),
            msgsv == received_msgs.deep_view(),
            sortedv == sort_pieces(pieces_of(msgsv)),
            forall|j: int| 0 <= j < sortedv.len() ==> (#[trigger] sortedv[j]) is Piece,
            decoded_pieces(sortedv.take(k as int)) == Some(gchunks),
            data@ == concat_bytes(gchunks),
    {
        proof {
            assert(sortedv[k as int] == sorted@[k as int]@);
            assert(sortedv.take(k + 1).drop_last() =~= sortedv.take(k as int));
            assert(sortedv.take(k + 1).last() == sortedv[k as int]);
        }
        let decoded = match &sorted[k] {
            Message::Piece { data: piece_text, .. } => codec::decode(piece_text.as_str()),
            Message::Metadata(_) => unreached(),
        };
        match decoded {
            None => {
                proof {
                    assert(decoded_pieces(sortedv.take(k + 1)) is None);
                    lemma_decoded_prefix_none(sortedv, k + 1);
                    assert(decoded_pieces(sort_pieces(pieces_of(msgsv))) is None);
                }
                return MachineWrapper::Corrupt;
            },
            Some(mut chunk) => {
                proof {
                    gchunks = gchunks.push(chunk@);
                    lemma_concat_bytes_push(gchunks.drop_last(), chunk@);
                    assert(gchunks.drop_last() =~= decoded_pieces(
                        sortedv.take(k as int),
                    )->Some_0);
                }
                data.append(&mut chunk);
            },
        }
    }
    proof {
        assert(sortedv.take(m as int) =~= sortedv);
    }
    // Verify the digest over the reassembled compressed bytes.
    let digest = utils::hash(data.as_slice());
    if !(digest == metadata.hash) {
        return MachineWrapper::Corrupt;
    }
    // Decompress.
    let bytes = match compress::decompress(data) {
        Some(bytes) => bytes,
        None => {
            return MachineWrapper::Corrupt;
        },
    };
    // Resolve the display name, falling back to the raw wire name.
    let name = match codec::decode(metadata.name.as_str()) {
        Some(name_bytes) => match utils::bytes_to_string(name_bytes) {
            Some(name) => name,
            None => metadata.name.clone(),
        },
        None => metadata.name.clone(),
    };
    proof {
        assert(name@ == display_name_of(metadata@.name));
    }
    MachineWrapper::Finished(Finished { name, data: bytes })
}

/// Check the expected set and either stay in `Started` or complete.
fn try_complete(metadata: Metadata, received_msgs: Vec<Message>) -> (r: MachineWrapper)
    ensures
        wrapper_view(r) == after_record(metadata@, received_msgs.deep_view()),
{
    let ghost msgsv = received_msgs.deep_view();
    let length = metadata.length;
    let mut idx: usize = 0;
    while idx < length
        invariant
            idx <= length,
            length == metadata@.length,
            msgsv == received_msgs.deep_view(),
            forall|i: usize| 1 <= i <= idx ==> has_piece(msgsv, i),
        decreases length - idx,
    {
        if !find_piece(&received_msgs, idx + 1) {
            proof {
                assert(!has_piece(msgsv, (idx + 1) as usize));
                assert(!is_complete(length, msgsv));
            }
            return MachineWrapper::Started(Started { metadata, received_msgs });
        }
        idx += 1;
    }
    proof {
        assert(is_complete(length, msgsv));
    }
    finalize_exec(metadata, received_msgs)
}

fn step_machine(mach: MachineWrapper, msg: Message) -> (r: (MachineWrapper, bool))
    ensures
        wrapper_view(r.0) == step_msg(wrapper_view(mach), msg@).0,
        r.1 == step_msg(wrapper_view(mach), msg@).1,
{
    match mach {
        MachineWrapper::Finished(f) => (MachineWrapper::Finished(f), false),
        MachineWrapper::Corrupt => (MachineWrapper::Corrupt, false),
        MachineWrapper::Initted(mut state) => {
            let ghost msgsv = state.received_msgs.deep_view();
            if contains_msg(&state.received_msgs, &msg) {
                (MachineWrapper::Initted(state), false)
            } else {
                match msg {
                    Message::Metadata(metadata) => {
                        state.received_msgs.push(Message::Metadata(metadata.clone()));
                        proof {
                            assert(state.received_msgs.deep_view() =~= msgsv.push(
                                Message::Metadata(metadata)@,
                            ));
                        }
                        (try_complete(metadata, state.received_msgs), true)
                    },
                    piece => {
                        let ghost pv = piece@;
                        state.received_msgs.push(piece);
                        proof {
                            assert(state.received_msgs.deep_view() =~= msgsv.push(pv));
                        }
                        (MachineWrapper::Initted(state), true)
                    },
                }
            }
        },
        MachineWrapper::Started(mut state) => {
            let ghost msgsv = state.received_msgs.deep_view();
            if contains_msg(&state.received_msgs, &msg) {
                (MachineWrapper::Started(state), false)
            } else {
                match msg {
                    Message::Metadata(_) => (MachineWrapper::Started(state), false),
                    piece => {
                        let ghost pv = piece@;
                        state.received_msgs.push(piece);
                        proof {
                            assert(state.received_msgs.deep_view() =~= msgsv.push(pv));
                        }
                        let Started { metadata, received_msgs } = state;
                        (try_complete(metadata, received_msgs), true)
                    },
                }
            }
        },
    }
}

/// One receiver-side reassembly session.
pub struct Decoder {
    decoder: MachineWrapper,
}

impl View for Decoder {
    type V = MachineView;

    closed spec fn view(&self) -> MachineView {
        wrapper_view(self.decoder)
    }
}

impl Decoder {
    /// A fresh session: nothing received, no Metadata.
    pub fn new() -> (r: Self)
        ensures
            r@ == spec_init(),
    {
        let r = Decoder { decoder: MachineWrapper::Initted(Initted { received_msgs: Vec::new() }) };
        proof {
            assert(r@ =~= spec_init());
        }
        r
    }

    /// Feed one line of wire text: exactly one [`spec_step`] transition.
    /// Returns true iff the line brought new information.  Lines that do
    /// not parse, duplicates, messages after completion, and a second,
    /// distinct Metadata all return false and change nothing.
    pub fn process_chunk(&mut self, chunk: String) -> (r: bool)
        ensures
            final(self)@ == spec_step(old(self)@, chunk@).0,
            r == spec_step(old(self)@, chunk@).1,
    {
        let msg = match Message::from_str(chunk.as_str()) {
            Ok(msg) => msg,
            Err(_) => {
                return false;
            },
        };
        let mut current = MachineWrapper::Corrupt;
        core::mem::swap(&mut current, &mut self.decoder);
        let (next, changed) = step_machine(current, msg);
        self.decoder = next;
        changed
    }

    /// True exactly in the Finished state.
    pub fn is_finished(&self) -> (r: bool)
        ensures
            r == (self@ is Finished),
    {
        match &self.decoder {
            MachineWrapper::Finished(_) => true,
            _ => false,
        }
    }

    /// A read-only report: what is still missing, or that the session has
    /// not started, finished, or was rejected.
    pub fn get_progress(&self) -> (r: Progress)
        ensures
            match self@ {
                MachineView::Initted { .. } => r is NoMetadata,
                MachineView::Finished { .. } => r is Finished,
                MachineView::Corrupt => r is Corrupt,
                MachineView::Started { meta, msgs } => {
                    &&& r matches Progress::Receiving { received, total, missing }
                    &&& total == meta.length
                    &&& missing@.len() <= total
                    &&& received == total - missing@.len()
                    &&& forall|j: int|
                        0 <= j < missing@.len() ==> 1 <= #[trigger] missing@[j] <= meta.length
                            && !has_piece(msgs, missing@[j])
                    &&& forall|j: int|
                        0 <= j < missing@.len() - 1 ==> #[trigger] missing@[j] < missing@[j + 1]
                    &&& forall|i: usize|
                        1 <= i <= meta.length && !has_piece(msgs, i) ==> missing@.contains(i)
                },
            },
    {
        match &self.decoder {
            MachineWrapper::Initted(_) => Progress::NoMetadata,
            MachineWrapper::Finished(_) => Progress::Finished,
            MachineWrapper::Corrupt => Progress::Corrupt,
            MachineWrapper::Started(state) => {
                let ghost msgs = state.received_msgs.deep_view();
                let total = state.metadata.length;
                let mut missing: Vec<usize> = Vec::new();
                let mut idx: usize = 0;
                while idx < total
                    invariant
                        idx <= total,
                        total == state.metadata@.length,
                        msgs == state.received_msgs.deep_view(),
                        missing@.len() <= idx,
                        forall|j: int|
                            0 <= j < missing@.len() ==> 1 <= #[trigger] missing@[j] <= idx
                                && !has_piece(msgs, missing@[j]),
                        forall|j: int|
                            0 <= j < missing@.len() - 1 ==> #[trigger] missing@[j] < missing@[j
                                + 1],
                        forall|i: usize|
                            1 <= i <= idx && !has_piece(msgs, i) ==> missing@.contains(i),
                    decreases total - idx,
                {
                    let ghost pre = missing@;
                    if !find_piece(&state.received_msgs, idx + 1) {
                        missing.push(idx + 1);
                        proof {
                            assert(missing@ == pre.push((idx + 1) as usize));
                            assert(missing@[missing@.len() - 1] == (idx + 1) as usize);
                            assert(missing@.contains((idx + 1) as usize));
                            assert(forall|i: usize|
                                pre.contains(i) ==> missing@.contains(i)) by {
                                assert(forall|j: int|
                                    0 <= j < pre.len() ==> missing@[j] == #[trigger] pre[j]);
                            }
                        }
                    } else {
                        proof {
                            assert(has_piece(msgs, (idx + 1) as usize));
                        }
                    }
                    idx += 1;
                }
                let received = total - missing.len();
                Progress::Receiving { received, total, missing }
            },
        }
    }

    /// Surrender the session for its output.  Only a Finished session has
    /// one; asking earlier is a caller error, ruled out by contract.
    pub fn get_finished(self) -> (r: Finished)
        requires
            self@ is Finished,
        ensures
            self@ == (MachineView::Finished { out: r@ }),
    {
        match self.decoder {
            MachineWrapper::Finished(f) => f,
            _ => unreached(),
        }
    }
}

} // verus!
