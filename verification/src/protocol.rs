//! The wire message format: textual framing for the two message kinds, a
//! one-time `Metadata` message and many `Piece` messages, one message per
//! frame.
//!
//! Grammar, one message per line:
//!
//! ```text
//! METADATA:<name>,<total pieces>,<digest>
//! <index>:<data>
//! ```
//!
//! The substring before the *first* colon of a piece parses as its index;
//! the remainder, which may itself contain colons, is its data.  A message
//! that does not parse is discarded by the receiver; nothing is
//! incorporated.

use crate::digits::dec_val;
use crate::digits::is_dec_digit;
use crate::digits::lemma_spec_dec;
use crate::digits::parse_dec_str;
use crate::digits::spec_dec;
use crate::digits::usize_to_string;
use crate::digits::valid_dec_usize;
use vstd::prelude::*;

verus! {

/// The one-time description of a transfer: the codec-encoded file name,
/// the number of pieces, and the integrity digest of the compressed
/// payload.
#[derive(Debug)]
pub struct Metadata {
    pub name: String,
    pub length: usize,
    pub hash: String,
}

/// The mathematical value of a [`Metadata`].
#[verifier::ext_equal]
pub struct MetadataView {
    pub name: Seq<char>,
    pub length: usize,
    pub hash: Seq<char>,
}

impl View for Metadata {
    type V = MetadataView;

    open spec fn view(&self) -> MetadataView {
        MetadataView { name: self.name@, length: self.length, hash: self.hash@ }
    }
}

impl DeepView for Metadata {
    type V = MetadataView;

    open spec fn deep_view(&self) -> MetadataView {
        self.view()
    }
}

impl Metadata {
    pub fn new(name: String, length: usize, hash: String) -> (r: Self)
        ensures
            r@ == (MetadataView { name: name@, length, hash: hash@ }),
    {
        Self { name, length, hash }
    }
}

impl Clone for Metadata {
    fn clone(&self) -> (r: Self)
        ensures
            r == *self,
    {
        Metadata { name: self.name.clone(), length: self.length, hash: self.hash.clone() }
    }
}

impl PartialEq for Metadata {
    fn eq(&self, other: &Self) -> (r: bool) {
        self.name == other.name && self.length == other.length && self.hash == other.hash
    }
}

impl vstd::std_specs::cmp::PartialEqSpecImpl for Metadata {
    open spec fn obeys_eq_spec() -> bool {
        true
    }

    open spec fn eq_spec(&self, other: &Self) -> bool {
        self@ == other@
    }
}

/// One frame's worth of wire text, parsed: either the transfer's Metadata
/// or one Piece.  Two messages are equal exactly when their kind and all
/// their fields are; that equality is the basis of deduplication.
#[derive(Debug)]
pub enum Message {
    Metadata(Metadata),
    Piece { index: usize, data: String },
}

/// The mathematical value of a [`Message`].
#[verifier::ext_equal]
pub enum MessageView {
    Metadata(MetadataView),
    Piece { index: usize, data: Seq<char> },
}

impl View for Message {
    type V = MessageView;

    open spec fn view(&self) -> MessageView {
        match self {
            Message::Metadata(m) => MessageView::Metadata(m@),
            Message::Piece { index, data } => MessageView::Piece { index: *index, data: data@ },
        }
    }
}

impl DeepView for Message {
    type V = MessageView;

    open spec fn deep_view(&self) -> MessageView {
        self.view()
    }
}

impl Clone for Message {
    fn clone(&self) -> (r: Self)
        ensures
            r == *self,
    {
        match self {
            Message::Metadata(m) => Message::Metadata(m.clone()),
            Message::Piece { index, data } => Message::Piece { index: *index, data: data.clone() },
        }
    }
}

impl PartialEq for Message {
    fn eq(&self, other: &Self) -> (r: bool) {
        let r = match (self, other) {
            (Message::Metadata(a), Message::Metadata(b)) => a.eq(b),
            (
                Message::Piece { index: ai, data: ad },
                Message::Piece { index: bi, data: bd },
            ) => *ai == *bi && ad.eq(bd),
            _ => false,
        };
        proof {
            match (self, other) {
                (Message::Metadata(a), Message::Metadata(b)) => {
                    assert(self@ == other@ <==> a@ == b@);
                },
                (
                    Message::Piece { index: ai, data: ad },
                    Message::Piece { index: bi, data: bd },
                ) => {
                    assert(self@ == other@ <==> (*ai == *bi && ad@ == bd@));
                },
                _ => {
                    assert(self@ != other@);
                },
            }
        }
        r
    }
}

impl vstd::std_specs::cmp::PartialEqSpecImpl for Message {
    open spec fn obeys_eq_spec() -> bool {
        true
    }

    open spec fn eq_spec(&self, other: &Self) -> bool {
        self@ == other@
    }
}

/// Why a line of wire text was rejected.
#[derive(Debug, Clone, Copy, PartialEq, Eq, Structural)]
pub enum ParseError {
    /// A metadata line must start with the literal `METADATA:` prefix.
    BadPrefix,
    /// A metadata line must hold exactly three comma-separated fields
    /// after the prefix.
    WrongFieldCount,
    /// A piece line must contain at least one colon.
    MissingColon,
    /// An index or piece count must be a decimal numeral that fits the
    /// machine.
    BadNumber,
}

/// The full set of messages the sender produces for one file: one
/// Metadata plus `length` pieces, each piece a 1-based index with its
/// codec-encoded chunk.
#[derive(Debug)]
pub struct Payload {
    pub metadata: Metadata,
    pub pieces: Vec<(usize, String)>,
}

/// The mathematical value of a [`Payload`].
#[verifier::ext_equal]
pub struct PayloadView {
    pub metadata: MetadataView,
    pub pieces: Seq<(usize, Seq<char>)>,
}

impl View for Payload {
    type V = PayloadView;

    open spec fn view(&self) -> PayloadView {
        PayloadView { metadata: self.metadata@, pieces: self.pieces.deep_view() }
    }
}

impl Payload {
    pub fn new(metadata: Metadata, pieces: Vec<(usize, String)>) -> (r: Self)
        ensures
            r.metadata == metadata,
            r.pieces == pieces,
    {
        Self { metadata, pieces }
    }

    /// How many messages the payload holds: the metadata plus the pieces.
    pub fn len(&self) -> (r: usize)
        requires
            self.pieces@.len() < usize::MAX,
        ensures
            r == 1 + self.pieces@.len(),
    {
        1 + self.pieces.len()
    }

    pub fn is_empty(&self) -> (r: bool)
        ensures
            r == (self.pieces@.len() == 0),
    {
        self.pieces.is_empty()
    }
}

/// The literal prefix that distinguishes the Metadata message.
pub open spec fn meta_prefix() -> Seq<char> {
    seq!['M', 'E', 'T', 'A', 'D', 'A', 'T', 'A', ':']
}

pub open spec fn starts_with(s: Seq<char>, p: Seq<char>) -> bool {
    s.len() >= p.len() && s.take(p.len() as int) == p
}

pub open spec fn no_char(s: Seq<char>, c: char) -> bool {
    forall|i: int| 0 <= i < s.len() ==> s[i] != c
}

/// The position of the first occurrence of `c` in `s`, if any.
pub open spec fn find_char(s: Seq<char>, c: char) -> Option<int>
    decreases s.len(),
{
    if s.len() == 0 {
        None
    } else if s[0] == c {
        Some(0)
    } else {
        match find_char(s.drop_first(), c) {
            None => None,
            Some(i) => Some(i + 1),
        }
    }
}

pub proof fn lemma_find_char(s: Seq<char>, c: char)
    ensures
        match find_char(s, c) {
            None => no_char(s, c),
            Some(i) => 0 <= i < s.len() && s[i] == c && (forall|j: int| 0 <= j < i ==> s[j] != c),
        },
    decreases s.len(),
{
    if s.len() > 0 && s[0] != c {
        lemma_find_char(s.drop_first(), c);
        assert(forall|j: int| 1 <= j < s.len() ==> s[j] == s.drop_first()[j - 1]);
    }
}

/// `find_char` returns exactly the index witnessed as a first occurrence.
pub proof fn lemma_find_char_is(s: Seq<char>, c: char, i: int)
    requires
        0 <= i < s.len(),
        s[i] == c,
        forall|j: int| 0 <= j < i ==> s[j] != c,
    ensures
        find_char(s, c) == Some(i),
{
    lemma_find_char(s, c);
    match find_char(s, c) {
        None => {
            assert(s[i] != c);
        },
        Some(k) => {
            if k < i {
                assert(s[k] != c);
            } else if k > i {
                assert(s[i] != c);
            }
        },
    }
}

/// The wire text of a Metadata message.
pub open spec fn spec_meta_wire(m: MetadataView) -> Seq<char> {
    meta_prefix() + m.name + seq![','] + spec_dec(m.length as nat) + seq![','] + m.hash
}

/// The wire text of a Piece message.
pub open spec fn spec_piece_wire(index: usize, data: Seq<char>) -> Seq<char> {
    spec_dec(index as nat) + seq![':'] + data
}

/// The wire text of a message.
pub open spec fn spec_msg_wire(m: MessageView) -> Seq<char> {
    match m {
        MessageView::Metadata(meta) => spec_meta_wire(meta),
        MessageView::Piece { index, data } => spec_piece_wire(index, data),
    }
}

/// What parsing a Metadata line yields: `None` exactly on the texts the
/// receiver discards.
pub open spec fn spec_parse_metadata(s: Seq<char>) -> Option<MetadataView> {
    if !starts_with(s, meta_prefix()) {
        None
    } else {
        let rest = s.skip(9);
        match find_char(rest, ',') {
            None => None,
            Some(i1) => {
                let name = rest.take(i1);
                let tail = rest.skip(i1 + 1);
                match find_char(tail, ',') {
                    None => None,
                    Some(i2) => {
                        let num = tail.take(i2);
                        let hash = tail.skip(i2 + 1);
                        if find_char(hash, ',') is Some {
                            None
                        } else if !valid_dec_usize(num) {
                            None
                        } else {
                            Some(
                                MetadataView {
                                    name,
                                    length: dec_val(num) as usize,
                                    hash,
                                },
                            )
                        }
                    },
                }
            },
        }
    }
}

/// What parsing one line of wire text yields.  A line with the metadata
/// prefix is a Metadata message or nothing; any other line is a Piece when
/// the text before its first colon is a valid index.
pub open spec fn spec_parse_msg(s: Seq<char>) -> Option<MessageView> {
    if starts_with(s, meta_prefix()) {
        match spec_parse_metadata(s) {
            None => None,
            Some(m) => Some(MessageView::Metadata(m)),
        }
    } else {
        match find_char(s, ':') {
            None => None,
            Some(k) => {
                let num = s.take(k);
                let data = s.skip(k + 1);
                if valid_dec_usize(num) {
                    Some(MessageView::Piece { index: dec_val(num) as usize, data })
                } else {
                    None
                }
            },
        }
    }
}

/// A message whose fields can survive the trip through the wire text: the
/// metadata's name and digest must not contain the field separator.
pub open spec fn wire_safe(m: MessageView) -> bool {
    match m {
        MessageView::Metadata(meta) => no_char(meta.name, ',') && no_char(meta.hash, ','),
        MessageView::Piece { .. } => true,
    }
}

/// Printing a wire-safe message and parsing the text gives the message
/// back.
pub proof fn lemma_wire_roundtrip(m: MessageView)
    requires
        wire_safe(m),
    ensures
        spec_parse_msg(spec_msg_wire(m)) == Some(m),
{
    match m {
        MessageView::Piece { index, data } => {
            let d = spec_dec(index as nat);
            lemma_spec_dec(index as nat);
            let w = spec_piece_wire(index, data);
            assert(w[0] == d[0]);
            assert(is_dec_digit(d[0]));
            if w.len() >= 9 {
                assert(w.take(9)[0] == w[0]);
                assert(meta_prefix()[0] == 'M');
                assert(!('M' as u32 <= 57));
                assert(w.take(9) != meta_prefix());
            }
            assert(!starts_with(w, meta_prefix()));
            let k = d.len() as int;
            assert(w[k] == ':');
            assert(forall|j: int| 0 <= j < k ==> w[j] == d[j]);
            assert(forall|j: int| 0 <= j < k ==> is_dec_digit(#[trigger] w[j]) && w[j] != ':');
            lemma_find_char_is(w, ':', k);
            assert(w.take(k) =~= d);
            assert(w.skip(k + 1) =~= data);
            assert(valid_dec_usize(d));
            assert(dec_val(d) == index as nat);
            assert(spec_parse_msg(w) == Some(MessageView::Piece { index, data }));
        },
        MessageView::Metadata(meta) => {
            let d = spec_dec(meta.length as nat);
            lemma_spec_dec(meta.length as nat);
            let w = spec_meta_wire(meta);
            assert(w.take(9) =~= meta_prefix());
            assert(starts_with(w, meta_prefix()));
            let rest = w.skip(9);
            assert(rest =~= meta.name + seq![','] + d + seq![','] + meta.hash);
            let i1 = meta.name.len() as int;
            assert(rest[i1] == ',');
            assert(forall|j: int| 0 <= j < i1 ==> rest[j] == meta.name[j]);
            lemma_find_char_is(rest, ',', i1);
            assert(rest.take(i1) =~= meta.name);
            let tail = rest.skip(i1 + 1);
            assert(tail =~= d + seq![','] + meta.hash);
            let i2 = d.len() as int;
            assert(tail[i2] == ',');
            assert(forall|j: int| 0 <= j < i2 ==> tail[j] == d[j] && !is_dec_digit(',')
                && is_dec_digit(#[trigger] d[j]));
            lemma_find_char_is(tail, ',', i2);
            assert(tail.take(i2) =~= d);
            let hash = tail.skip(i2 + 1);
            assert(hash =~= meta.hash);
            lemma_find_char(hash, ',');
            if find_char(hash, ',') is Some {
                let i3 = find_char(hash, ',')->Some_0;
                assert(hash[i3] == ',');
                assert(false);
            }
            assert(valid_dec_usize(d));
            assert(dec_val(d) == meta.length as nat);
            assert(spec_parse_metadata(w) == Some(
                MetadataView { name: rest.take(i1), length: meta.length, hash },
            ));
            assert(MetadataView { name: rest.take(i1), length: meta.length, hash } =~= meta);
        },
    }
}

/// Does `s` start with the literal metadata prefix?
fn has_meta_prefix(s: &str) -> (r: bool)
    ensures
        r == starts_with(s@, meta_prefix()),
{
    if s.unicode_len() < 9 {
        assert(!starts_with(s@, meta_prefix()));
        return false;
    }
    let r = s.get_char(0) == 'M' && s.get_char(1) == 'E' && s.get_char(2) == 'T' && s.get_char(3)
        == 'A' && s.get_char(4) == 'D' && s.get_char(5) == 'A' && s.get_char(6) == 'T'
        && s.get_char(7) == 'A' && s.get_char(8) == ':';
    proof {
        if r {
            assert(s@.take(9) =~= meta_prefix());
        } else {
            assert(forall|k: int| 0 <= k < 9 ==> #[trigger] s@.take(9)[k] == s@[k]);
            assert(s@.take(9) != meta_prefix());
        }
    }
    r
}

/// The first position of `c` in `s` at or after `from`.
fn find_from(s: &str, from: usize, c: char) -> (r: Option<usize>)
    requires
        from <= s@.len(),
    ensures
        match r {
            Some(i) => from <= i < s@.len() && s@[i as int] == c && (forall|j: int|
                from <= j < i ==> s@[j] != c),
            None => forall|j: int| from <= j < s@.len() ==> s@[j] != c,
        },
{
    let n = s.unicode_len();
    let mut i = from;
    while i < n
        invariant
            from <= i <= n,
            n == s@.len(),
            forall|j: int| from <= j < i ==> s@[j] != c,
        decreases n - i,
    {
        if s.get_char(i) == c {
            return Some(i);
        }
        i += 1;
    }
    None
}

impl Metadata {
    /// The message's wire text: `METADATA:<name>,<length>,<hash>`.
    pub fn to_string(&self) -> (r: String)
        ensures
            r@ == spec_meta_wire(self@),
    {
        let mut r = String::from_str("METADATA:");
        proof {
            reveal_strlit("METADATA:");
            assert(r@ =~= meta_prefix());
        }
        r.append(self.name.as_str());
        r.append(",");
        let num = usize_to_string(self.length);
        r.append(num.as_str());
        r.append(",");
        r.append(self.hash.as_str());
        proof {
            reveal_strlit(",");
            assert((",")@ =~= seq![',']);
            assert(r@ =~= spec_meta_wire(self@));
        }
        r
    }

    /// Parse a Metadata line.  Fails, and says why, exactly on the texts
    /// the grammar rejects.
    pub fn from_str(s: &str) -> (r: Result<Metadata, ParseError>)
        ensures
            match r {
                Ok(m) => spec_parse_metadata(s@) == Some(m@),
                Err(_) => spec_parse_metadata(s@) is None,
            },
            r == Err::<Metadata, ParseError>(ParseError::BadPrefix) <==> !starts_with(
                s@,
                meta_prefix(),
            ),
    {
        if !has_meta_prefix(s) {
            return Err(ParseError::BadPrefix);
        }
        let n = s.unicode_len();
        let ghost rest = s@.skip(9);
        assert(forall|j: int| 0 <= j < rest.len() ==> rest[j] == s@[j + 9]);
        let i1 = match find_from(s, 9, ',') {
            Some(i) => i,
            None => {
                proof {
                    lemma_find_char(rest, ',');
                    if find_char(rest, ',') is Some {
                        let k = find_char(rest, ',')->Some_0;
                        assert(rest[k] == ',');
                    }
                }
                return Err(ParseError::WrongFieldCount);
            },
        };
        proof {
            lemma_find_char_is(rest, ',', i1 - 9);
        }
        let i2 = match find_from(s, i1 + 1, ',') {
            Some(i) => i,
            None => {
                proof {
                    let tail = rest.skip(i1 - 9 + 1);
                    assert(forall|j: int| 0 <= j < tail.len() ==> tail[j] == s@[j + i1 + 1]);
                    lemma_find_char(tail, ',');
                    if find_char(tail, ',') is Some {
                        let k = find_char(tail, ',')->Some_0;
                        assert(tail[k] == ',');
                    }
                }
                return Err(ParseError::WrongFieldCount);
            },
        };
        proof {
            let tail = rest.skip(i1 - 9 + 1);
            assert(forall|j: int| 0 <= j < tail.len() ==> tail[j] == s@[j + i1 + 1]);
            lemma_find_char_is(tail, ',', i2 - i1 - 1);
        }
        if let Some(i3) = find_from(s, i2 + 1, ',') {
            proof {
                let tail = rest.skip(i1 - 9 + 1);
                let hash = tail.skip(i2 - i1 - 1 + 1);
                assert(forall|j: int| 0 <= j < hash.len() ==> hash[j] == s@[j + i2 + 1]);
                assert(hash[i3 - i2 - 1] == ',');
                lemma_find_char(hash, ',');
            }
            return Err(ParseError::WrongFieldCount);
        }
        proof {
            let tail = rest.skip(i1 - 9 + 1);
            let hash = tail.skip(i2 - i1 - 1 + 1);
            assert(forall|j: int| 0 <= j < hash.len() ==> hash[j] == s@[j + i2 + 1]);
            lemma_find_char(hash, ',');
            if find_char(hash, ',') is Some {
                let k = find_char(hash, ',')->Some_0;
                assert(hash[k] == ',');
            }
        }
        let num_str = s.substring_char(i1 + 1, i2);
        let length = match parse_dec_str(num_str) {
            Some(v) => v,
            None => {
                proof {
                    let tail = rest.skip(i1 - 9 + 1);
                    assert(num_str@ =~= tail.take(i2 - i1 - 1));
                }
                return Err(ParseError::BadNumber);
            },
        };
        let name = String::from_str(s.substring_char(9, i1));
        let hash = String::from_str(s.substring_char(i2 + 1, n));
        proof {
            let tail = rest.skip(i1 - 9 + 1);
            assert(num_str@ =~= tail.take(i2 - i1 - 1));
            assert(name@ =~= rest.take(i1 - 9));
            assert(hash@ =~= tail.skip(i2 - i1 - 1 + 1));
        }
        Ok(Metadata { name, length, hash })
    }
}

impl Message {
    /// The message's wire text.
    pub fn to_string(&self) -> (r: String)
        ensures
            r@ == spec_msg_wire(self@),
    {
        match self {
            Message::Metadata(m) => m.to_string(),
            Message::Piece { index, data } => {
                let mut r = usize_to_string(*index);
                r.append(":");
                r.append(data.as_str());
                proof {
                    reveal_strlit(":");
                    assert((":")@ =~= seq![':']);
                    assert(r@ =~= spec_piece_wire(*index, data@));
                }
                r
            },
        }
    }

    /// Parse one line of wire text into a message.  Fails, and says why,
    /// exactly on the texts the grammar rejects.
    pub fn from_str(s: &str) -> (r: Result<Message, ParseError>)
        ensures
            match r {
                Ok(m) => spec_parse_msg(s@) == Some(m@),
                Err(_) => spec_parse_msg(s@) is None,
            },
    {
        if has_meta_prefix(s) {
            match Metadata::from_str(s) {
                Ok(m) => Ok(Message::Metadata(m)),
                Err(e) => Err(e),
            }
        } else {
            let n = s.unicode_len();
            let k = match find_from(s, 0, ':') {
                Some(k) => k,
                None => {
                    proof {
                        lemma_find_char(s@, ':');
                        if find_char(s@, ':') is Some {
                            let j = find_char(s@, ':')->Some_0;
                            assert(s@[j] == ':');
                        }
                    }
                    return Err(ParseError::MissingColon);
                },
            };
            proof {
                lemma_find_char_is(s@, ':', k as int);
            }
            let num_str = s.substring_char(0, k);
            proof {
                assert(num_str@ =~= s@.take(k as int));
            }
            let index = match parse_dec_str(num_str) {
                Some(v) => v,
                None => {
                    return Err(ParseError::BadNumber);
                },
            };
            let data = String::from_str(s.substring_char(k + 1, n));
            proof {
                assert(data@ =~= s@.skip(k + 1));
            }
            Ok(Message::Piece { index, data })
        }
    }
}

} // verus!
