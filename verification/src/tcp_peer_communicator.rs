//! The peer protocol on the wire: the handshake, and the framing of messages.
//!
//! A message is framed by its length in four bytes, most significant first. A message of length
//! zero keeps the connection alive; any other begins with a byte that tells its kind.

use vstd::prelude::*;
use vstd::slice::{slice_subrange, slice_to_vec};
use vstd::utf8::encode_utf8;

use crate::bits::{bits_of_bytes, bytes_of_bits, law_bits_survive_bytes, BitField};
use crate::types::{Block, BlockMeta, Content, Message};

verus! {

/// Why what a peer sent is refused.
#[derive(Debug, Clone, Copy, PartialEq, Eq)]
pub enum TcpPeerError {
    /// A message of an unknown kind.
    InvalidMessage { id: u8 },
    /// A message whose length does not fit its kind.
    InvalidMessageLen { len: u32, id: u8 },
    /// A handshake for another torrent.
    HandshakeInfoHash,
}

/// The length of a handshake between peers whose info hash and peer ID have twenty bytes.
pub const HANDSHAKE_LEN: usize = 68;

/// The handshake: the length of the protocol's name, the name, eight reserved bytes, the info
/// hash and the peer ID.
pub open spec fn handshake(info_hash: Seq<u8>, peer_id: Seq<u8>) -> Seq<u8> {
    seq![19u8] + encode_utf8("BitTorrent protocol"@) + seq![0u8, 0, 0, 0, 0, 0, 0, 0] + info_hash
        + peer_id
}

/// Whether a handshake is for the torrent with this info hash.
pub open spec fn handshake_matches(reply: Seq<u8>, info_hash: Seq<u8>) -> bool {
    reply.subrange(28, 48) == info_hash
}

proof fn lemma_protocol_name()
    ensures
        encode_utf8("BitTorrent protocol"@).len() == 19,
{
    reveal_strlit("BitTorrent protocol");
    vstd::utf8::is_ascii_chars_encode_utf8("BitTorrent protocol"@);
}

/// The handshake to send.
pub fn build_handshake(info_hash: &[u8], peer_id: &[u8]) -> (bytes: Vec<u8>)
    ensures
        bytes@ == handshake(info_hash@, peer_id@),
{
    let mut bytes: Vec<u8> = vec![19u8];
    let reserved: [u8; 8] = [0, 0, 0, 0, 0, 0, 0, 0];
    append_bytes(&mut bytes, "BitTorrent protocol".as_bytes());
    append_bytes(&mut bytes, reserved.as_slice());
    append_bytes(&mut bytes, info_hash);
    append_bytes(&mut bytes, peer_id);
    proof {
        assert(reserved@ =~= seq![0u8, 0, 0, 0, 0, 0, 0, 0]);
        assert(bytes@ =~= handshake(info_hash@, peer_id@));
    }
    bytes
}

/// Whether the peer's handshake is for our torrent.
pub fn check_handshake(reply: &[u8], info_hash: &[u8]) -> (r: Result<(), TcpPeerError>)
    requires
        reply@.len() >= 48,
    ensures
        handshake_matches(reply@, info_hash@) ==> r == Ok::<(), TcpPeerError>(()),
        !handshake_matches(reply@, info_hash@) ==> r == Err::<(), TcpPeerError>(
            TcpPeerError::HandshakeInfoHash,
        ),
{
    if same_bytes(slice_subrange(reply, 28, 48), info_hash) {
        Ok(())
    } else {
        Err(TcpPeerError::HandshakeInfoHash)
    }
}

/// Two peers accept each other's handshake if and only if they speak of the same torrent.
pub proof fn law_handshake_is_accepted(ours: Seq<u8>, theirs: Seq<u8>, peer_id: Seq<u8>)
    requires
        ours.len() == 20,
        theirs.len() == 20,
        peer_id.len() == 20,
    ensures
        handshake(theirs, peer_id).len() == HANDSHAKE_LEN,
        handshake_matches(handshake(theirs, peer_id), ours) <==> ours == theirs,
{
    lemma_protocol_name();
    assert(handshake(theirs, peer_id).subrange(28, 48) =~= theirs);
}

/// Whether two byte strings are equal.
pub(crate) fn same_bytes(a: &[u8], b: &[u8]) -> (r: bool)
    ensures
        r == (a@ == b@),
{
    if a.len() != b.len() {
        return false;
    }
    for i in 0..a.len()
        invariant
            a@.len() == b@.len(),
            forall|j: int| 0 <= j < i ==> a@[j] == b@[j],
    {
        if a[i] != b[i] {
            return false;
        }
    }
    proof {
        assert(a@ =~= b@);
    }
    true
}

/// Puts `more` behind `bytes`.
pub(crate) fn append_bytes(bytes: &mut Vec<u8>, more: &[u8])
    ensures
        final(bytes)@ == old(bytes)@ + more@,
{
    for i in 0..more.len()
        invariant
            bytes@ == old(bytes)@ + more@.take(i as int),
    {
        bytes.push(more[i]);
        proof {
            assert(more@.take(i + 1) =~= more@.take(i as int).push(more@[i as int]));
            assert(bytes@ =~= old(bytes)@ + more@.take(i + 1));
        }
    }
    proof {
        assert(more@.take(more@.len() as int) =~= more@);
    }
}

/// The four bytes of `n`, the most significant first.
pub open spec fn be_bytes(n: u32) -> Seq<u8> {
    seq![
        (n / 0x100_0000) as u8,
        (n / 0x1_0000 % 0x100) as u8,
        (n / 0x100 % 0x100) as u8,
        (n % 0x100) as u8,
    ]
}

/// The number in the first four bytes of `bytes`, the most significant first.
pub open spec fn be_number(bytes: Seq<u8>) -> u32 {
    (bytes[0] * 0x100_0000 + bytes[1] * 0x1_0000 + bytes[2] * 0x100 + bytes[3]) as u32
}

/// A number reads back from its bytes.
pub proof fn law_be_number_reads_back(n: u32, rest: Seq<u8>)
    ensures
        be_number(be_bytes(n) + rest) == n,
{
    let bytes = be_bytes(n) + rest;
    assert(bytes[0] == n / 0x100_0000);
    assert(bytes[1] == n / 0x1_0000 % 0x100);
    assert(bytes[2] == n / 0x100 % 0x100);
    assert(bytes[3] == n % 0x100);
}

fn append_number(bytes: &mut Vec<u8>, n: u32)
    ensures
        final(bytes)@ == old(bytes)@ + be_bytes(n),
{
    bytes.push((n / 0x100_0000) as u8);
    bytes.push((n / 0x1_0000 % 0x100) as u8);
    bytes.push((n / 0x100 % 0x100) as u8);
    bytes.push((n % 0x100) as u8);
    proof {
        assert(bytes@ =~= old(bytes)@ + be_bytes(n));
    }
}

fn number_at(bytes: &[u8], at: usize) -> (n: u32)
    requires
        at + 4 <= bytes@.len(),
    ensures
        n == be_number(bytes@.skip(at as int)),
{
    let ghost part = bytes@.skip(at as int);
    proof {
        assert(part[0] == bytes@[at as int]);
        assert(part[1] == bytes@[at + 1]);
        assert(part[2] == bytes@[at + 2]);
        assert(part[3] == bytes@[at + 3]);
    }
    bytes[at] as u32 * 0x100_0000 + bytes[at + 1] as u32 * 0x1_0000 + bytes[at + 2] as u32 * 0x100
        + bytes[at + 3] as u32
}

/// The three numbers of a block's place.
pub open spec fn meta_bytes(meta: BlockMeta) -> Seq<u8> {
    be_bytes(meta.piece_index) + be_bytes(meta.begin) + be_bytes(meta.length)
}

/// The byte that tells the kind of a message, or none for one that keeps the connection alive.
pub open spec fn message_id(m: Content) -> Option<u8> {
    match m {
        Content::KeepAlive => None,
        Content::Choke => Some(0u8),
        Content::Unchoke => Some(1u8),
        Content::Interested => Some(2u8),
        Content::NotInterested => Some(3u8),
        Content::Have(_) => Some(4u8),
        Content::BitField(..) => Some(5u8),
        Content::Request(_) => Some(6u8),
        Content::Piece(..) => Some(7u8),
        Content::Cancel(_) => Some(8u8),
    }
}

/// What stands behind the kind of a message. The length of a block is not sent.
pub open spec fn message_payload(m: Content) -> Seq<u8> {
    match m {
        Content::Have(index) => be_bytes(index),
        Content::BitField(bits, padding) => bytes_of_bits(bits + padding),
        Content::Request(meta) => meta_bytes(meta),
        Content::Piece(meta, data) => be_bytes(meta.piece_index) + be_bytes(meta.begin) + data,
        Content::Cancel(meta) => meta_bytes(meta),
        _ => Seq::empty(),
    }
}

/// The frame of a message: its length modulo 2^32, its kind, and the rest.
pub open spec fn message_frame(m: Content) -> Seq<u8> {
    match message_id(m) {
        None => be_bytes(0),
        Some(id) => be_bytes((message_payload(m).len() % 0x1_0000_0000 + 1) as u32).push(id)
            + message_payload(m),
    }
}

fn encode_meta(meta: &BlockMeta) -> (bytes: Vec<u8>)
    ensures
        bytes@ == meta_bytes(*meta),
{
    let mut bytes: Vec<u8> = Vec::new();
    append_number(&mut bytes, meta.piece_index);
    append_number(&mut bytes, meta.begin);
    append_number(&mut bytes, meta.length);
    proof {
        assert(bytes@ =~= meta_bytes(*meta));
    }
    bytes
}

/// The bytes to send for a message.
pub fn encode_message(message: Message) -> (bytes: Vec<u8>)
    requires
        message_payload(message@).len() % 0x1_0000_0000 < u32::MAX,
    ensures
        bytes@ == message_frame(message@),
{
    let ghost content = message@;
    let mut payload: Vec<u8> = Vec::new();
    let id: u8 = match message {
        Message::KeepAlive => {
            let mut bytes: Vec<u8> = Vec::new();
            append_number(&mut bytes, 0);
            return bytes;
        },
        Message::Choke => 0,
        Message::Unchoke => 1,
        Message::Interested => 2,
        Message::NotInterested => 3,
        Message::Have(piece_index) => {
            append_number(&mut payload, piece_index);
            4
        },
        Message::BitField(bitfield) => {
            payload = bitfield.into_bytes();
            5
        },
        Message::Request(meta) => {
            payload = encode_meta(&meta);
            6
        },
        Message::Piece(block) => {
            append_number(&mut payload, block.meta.piece_index);
            append_number(&mut payload, block.meta.begin);
            append_bytes(&mut payload, block.data.as_slice());
            7
        },
        Message::Cancel(meta) => {
            payload = encode_meta(&meta);
            8
        },
    };
    proof {
        assert(payload@ =~= message_payload(content));
    }
    let len: u32 = (payload.len() as u64 % 0x1_0000_0000 + 1) as u32;
    let mut bytes: Vec<u8> = Vec::new();
    append_number(&mut bytes, len);
    bytes.push(id);
    append_bytes(&mut bytes, payload.as_slice());
    proof {
        assert(bytes@ =~= message_frame(content));
    }
    bytes
}

/// How far a message has been read. Each state waits for a fixed number of bytes.
#[derive(Debug, Clone, Copy, PartialEq, Eq)]
pub enum ReadState {
    /// The length comes next.
    Length,
    /// The kind of a message of this length comes next.
    Kind { len: u32 },
    /// The index of a piece comes next.
    Have,
    /// The bytes of a bit field come next.
    BitField { len: u32 },
    /// The place of a requested block comes next.
    Request,
    /// The place of a block and its bytes come next.
    Piece { len: u32 },
    /// The place of a block that is no longer wanted comes next.
    Cancel,
}

/// What follows from the bytes that a state was waiting for.
#[derive(Debug, Clone, PartialEq, Eq)]
pub enum ReadStep {
    /// More bytes are needed.
    More(ReadState),
    /// The message is complete.
    Done(Message),
}

/// What `ReadStep` says.
pub enum StepView {
    More(ReadState),
    Done(Content),
    Fail(TcpPeerError),
}

/// What a step says.
pub open spec fn step_view(r: Result<ReadStep, TcpPeerError>) -> StepView {
    match r {
        Ok(ReadStep::More(state)) => StepView::More(state),
        Ok(ReadStep::Done(message)) => StepView::Done(message@),
        Err(e) => StepView::Fail(e),
    }
}

/// What follows once the kind of a message of length `len` is known. Messages without a payload
/// are complete, whatever their length.
pub open spec fn kind_step(len: u32, id: u8) -> StepView {
    let bad_len = StepView::Fail(TcpPeerError::InvalidMessageLen { len, id });
    if id == 0 {
        StepView::Done(Content::Choke)
    } else if id == 1 {
        StepView::Done(Content::Unchoke)
    } else if id == 2 {
        StepView::Done(Content::Interested)
    } else if id == 3 {
        StepView::Done(Content::NotInterested)
    } else if id == 4 {
        if len == 5 {
            StepView::More(ReadState::Have)
        } else {
            bad_len
        }
    } else if id == 5 {
        StepView::More(ReadState::BitField { len })
    } else if id == 6 {
        if len == 13 {
            StepView::More(ReadState::Request)
        } else {
            bad_len
        }
    } else if id == 7 {
        if len >= 9 {
            StepView::More(ReadState::Piece { len })
        } else {
            bad_len
        }
    } else if id == 8 {
        if len == 13 {
            StepView::More(ReadState::Cancel)
        } else {
            bad_len
        }
    } else {
        StepView::Fail(TcpPeerError::InvalidMessage { id })
    }
}

/// The block place in the first twelve bytes of `bytes`.
pub open spec fn meta_number(bytes: Seq<u8>) -> BlockMeta {
    BlockMeta {
        piece_index: be_number(bytes),
        begin: be_number(bytes.skip(4)),
        length: be_number(bytes.skip(8)),
    }
}

impl ReadState {
    /// The lengths that the state speaks of are those of a message of its kind.
    pub open spec fn well_formed(self) -> bool {
        match self {
            ReadState::Kind { len } => len >= 1,
            ReadState::BitField { len } => len >= 1,
            ReadState::Piece { len } => len >= 9,
            _ => true,
        }
    }

    /// The number of bytes that the state is waiting for.
    pub open spec fn needs(self) -> nat {
        match self {
            ReadState::Length => 4,
            ReadState::Kind { .. } => 1,
            ReadState::Have => 4,
            ReadState::BitField { len } => (len - 1) as nat,
            ReadState::Request => 12,
            ReadState::Piece { len } => (len - 1) as nat,
            ReadState::Cancel => 12,
        }
    }

    /// What follows from the bytes that the state is waiting for. The length of a block is that
    /// of its bytes.
    pub open spec fn next(self, bytes: Seq<u8>) -> StepView {
        match self {
            ReadState::Length => if be_number(bytes) == 0 {
                StepView::Done(Content::KeepAlive)
            } else {
                StepView::More(ReadState::Kind { len: be_number(bytes) })
            },
            ReadState::Kind { len } => kind_step(len, bytes[0]),
            ReadState::Have => StepView::Done(Content::Have(be_number(bytes))),
            ReadState::BitField { len } => StepView::Done(
                Content::BitField(bits_of_bytes(bytes), Seq::empty()),
            ),
            ReadState::Request => StepView::Done(Content::Request(meta_number(bytes))),
            ReadState::Piece { len } => StepView::Done(
                Content::Piece(
                    BlockMeta {
                        piece_index: be_number(bytes),
                        begin: be_number(bytes.skip(4)),
                        length: (len - 9) as u32,
                    },
                    bytes.skip(8),
                ),
            ),
            ReadState::Cancel => StepView::Done(Content::Cancel(meta_number(bytes))),
        }
    }

    /// The number of bytes to read next.
    pub fn wanted(&self) -> (n: usize)
        requires
            self.well_formed(),
        ensures
            n == self.needs(),
    {
        match self {
            ReadState::Length => 4,
            ReadState::Kind { .. } => 1,
            ReadState::Have => 4,
            ReadState::BitField { len } => (*len - 1) as usize,
            ReadState::Request => 12,
            ReadState::Piece { len } => (*len - 1) as usize,
            ReadState::Cancel => 12,
        }
    }

    /// Goes on with the bytes that were wanted.
    #[verifier::rlimit(40)]
    pub fn advance(self, bytes: Vec<u8>) -> (r: Result<ReadStep, TcpPeerError>)
        requires
            self.well_formed(),
            bytes@.len() == self.needs(),
            self is BitField ==> bytes@.len() <= usize::MAX / 64,
        ensures
            step_view(r) == self.next(bytes@),
            r matches Ok(ReadStep::More(state)) ==> state.well_formed(),
    {
        let ghost all = bytes@;
        proof {
            assert(all.skip(0) =~= all);
        }
        match self {
            ReadState::Length => {
                let len = number_at(bytes.as_slice(), 0);
                if len == 0 {
                    Ok(ReadStep::Done(Message::KeepAlive))
                } else {
                    Ok(ReadStep::More(ReadState::Kind { len }))
                }
            },
            ReadState::Kind { len } => {
                let id: u8 = bytes[0];
                match id {
                    0 => Ok(ReadStep::Done(Message::Choke)),
                    1 => Ok(ReadStep::Done(Message::Unchoke)),
                    2 => Ok(ReadStep::Done(Message::Interested)),
                    3 => Ok(ReadStep::Done(Message::NotInterested)),
                    4 => if len == 5 {
                        Ok(ReadStep::More(ReadState::Have))
                    } else {
                        Err(TcpPeerError::InvalidMessageLen { len, id })
                    },
                    5 => Ok(ReadStep::More(ReadState::BitField { len })),
                    6 => if len == 13 {
                        Ok(ReadStep::More(ReadState::Request))
                    } else {
                        Err(TcpPeerError::InvalidMessageLen { len, id })
                    },
                    7 => if len >= 9 {
                        Ok(ReadStep::More(ReadState::Piece { len }))
                    } else {
                        Err(TcpPeerError::InvalidMessageLen { len, id })
                    },
                    8 => if len == 13 {
                        Ok(ReadStep::More(ReadState::Cancel))
                    } else {
                        Err(TcpPeerError::InvalidMessageLen { len, id })
                    },
                    _ => Err(TcpPeerError::InvalidMessage { id }),
                }
            },
            ReadState::Have => Ok(
                ReadStep::Done(Message::Have(number_at(bytes.as_slice(), 0))),
            ),
            ReadState::BitField { .. } => Ok(
                ReadStep::Done(Message::BitField(BitField::from_bytes(bytes))),
            ),
            ReadState::Request => Ok(ReadStep::Done(Message::Request(decode_meta(&bytes)))),
            ReadState::Piece { len } => {
                let meta = BlockMeta {
                    piece_index: number_at(bytes.as_slice(), 0),
                    begin: number_at(bytes.as_slice(), 4),
                    length: len - 9,
                };
                let data = slice_to_vec(slice_subrange(bytes.as_slice(), 8, bytes.len()));
                proof {
                    assert(data@ =~= all.skip(8));
                }
                Ok(ReadStep::Done(Message::Piece(Block { meta, data })))
            },
            ReadState::Cancel => Ok(ReadStep::Done(Message::Cancel(decode_meta(&bytes)))),
        }
    }
}

fn decode_meta(bytes: &Vec<u8>) -> (meta: BlockMeta)
    requires
        bytes@.len() == 12,
    ensures
        meta == meta_number(bytes@),
{
    proof {
        assert(bytes@.skip(0) =~= bytes@);
    }
    BlockMeta {
        piece_index: number_at(bytes.as_slice(), 0),
        begin: number_at(bytes.as_slice(), 4),
        length: number_at(bytes.as_slice(), 8),
    }
}

/// What reading off a stream of bytes gives: a message and the stream behind it, a refusal, or
/// the need for more bytes.
pub enum Delivery {
    Message(Content, Seq<u8>),
    Refused(TcpPeerError),
    Incomplete,
}

/// What comes of a stream of bytes when it is read on from `state`: at most two more states
/// follow, since the length is followed by the kind and the kind by the payload.
pub open spec fn deliver(state: ReadState, stream: Seq<u8>) -> Delivery
    decreases
            match state {
                ReadState::Length => 2nat,
                ReadState::Kind { .. } => 1nat,
                _ => 0nat,
            },
{
    let n = state.needs() as int;
    if stream.len() < n {
        Delivery::Incomplete
    } else {
        match state.next(stream.take(n)) {
            StepView::More(next) => deliver(next, stream.skip(n)),
            StepView::Done(m) => Delivery::Message(m, stream.skip(n)),
            StepView::Fail(e) => Delivery::Refused(e),
        }
    }
}

/// What the other side makes of a message: a bit field has the padding among its bits, and a
/// block's length is that of its bytes.
pub open spec fn received(m: Content) -> Content {
    match m {
        Content::BitField(bits, padding) => Content::BitField(bits + padding, Seq::empty()),
        Content::Piece(meta, data) => Content::Piece(
            BlockMeta {
                piece_index: meta.piece_index,
                begin: meta.begin,
                length: data.len() as u32,
            },
            data,
        ),
        _ => m,
    }
}

/// Whether the frame of a message holds all of it: the padding of a bit field fills its last
/// byte, and the length of the message fits in the frame.
pub open spec fn can_be_framed(m: Content) -> bool {
    &&& message_payload(m).len() < u32::MAX
    &&& m matches Content::BitField(bits, padding) ==> (bits.len() + padding.len()) % 8 == 0
}

/// The length and the kind of a message settle in which state its payload is read.
proof fn lemma_header(len: u32, id: u8, body: Seq<u8>)
    requires
        len >= 1,
    ensures
        deliver(ReadState::Length, be_bytes(len) + seq![id] + body) == (match kind_step(len, id) {
            StepView::More(state) => deliver(state, body),
            StepView::Done(m) => Delivery::Message(m, body),
            StepView::Fail(e) => Delivery::Refused(e),
        }),
{
    let stream = be_bytes(len) + seq![id] + body;
    let tail = seq![id] + body;
    assert(stream.take(4) =~= be_bytes(len) + Seq::<u8>::empty());
    assert(stream.skip(4) =~= tail);
    law_be_number_reads_back(len, Seq::empty());
    assert(deliver(ReadState::Length, stream) == deliver(ReadState::Kind { len }, tail));
    assert(tail.take(1) =~= seq![id]);
    assert(tail.skip(1) =~= body);
    assert(ReadState::Kind { len }.next(tail.take(1)) == kind_step(len, id));
}

/// Whether the payload of a message is read as the message, once its length and kind are known.
spec fn payload_reads_back(m: Content, len: u32, id: u8) -> bool {
    match kind_step(len, id) {
        StepView::More(state) => state.needs() == message_payload(m).len() && state.next(
            message_payload(m),
        ) == StepView::Done(received(m)),
        StepView::Done(done) => done == received(m) && message_payload(m).len() == 0,
        StepView::Fail(_) => false,
    }
}

proof fn lemma_have_payload(index: u32)
    ensures
        payload_reads_back(Content::Have(index), 5, 4),
{
    law_be_number_reads_back(index, Seq::empty());
    assert(be_bytes(index) + Seq::<u8>::empty() =~= be_bytes(index));
}

proof fn lemma_bit_field_payload(bits: Seq<bool>, padding: Seq<bool>, len: u32)
    requires
        (bits.len() + padding.len()) % 8 == 0,
        len == bytes_of_bits(bits + padding).len() + 1,
    ensures
        payload_reads_back(Content::BitField(bits, padding), len, 5),
{
    law_bits_survive_bytes(bits + padding);
}

proof fn lemma_meta_payload(meta: BlockMeta)
    ensures
        payload_reads_back(Content::Request(meta), 13, 6),
        payload_reads_back(Content::Cancel(meta), 13, 8),
        meta_bytes(meta).len() == 12,
{
    lemma_meta_reads_back(meta);
}

proof fn lemma_piece_payload(meta: BlockMeta, data: Seq<u8>, len: u32)
    requires
        len == data.len() + 9,
    ensures
        payload_reads_back(Content::Piece(meta, data), len, 7),
{
    let payload = message_payload(Content::Piece(meta, data));
    assert(payload =~= be_bytes(meta.piece_index) + (be_bytes(meta.begin) + data));
    assert(payload.skip(4) =~= be_bytes(meta.begin) + data);
    assert(payload.skip(8) =~= data);
    law_be_number_reads_back(meta.piece_index, be_bytes(meta.begin) + data);
    law_be_number_reads_back(meta.begin, data);
}

/// The payload of a message holds what its kind demands.
#[verifier::rlimit(40)]
proof fn lemma_payload(m: Content, len: u32, id: u8)
    requires
        can_be_framed(m),
        message_id(m) == Some(id),
        len == message_payload(m).len() + 1,
    ensures
        payload_reads_back(m, len, id),
{
    match m {
        Content::Have(index) => {
            lemma_have_payload(index);
        },
        Content::BitField(bits, padding) => {
            lemma_bit_field_payload(bits, padding, len);
        },
        Content::Request(meta) => {
            lemma_meta_payload(meta);
        },
        Content::Cancel(meta) => {
            lemma_meta_payload(meta);
        },
        Content::Piece(meta, data) => {
            lemma_piece_payload(meta, data, len);
        },
        _ => {},
    }
}

/// A message that was sent is read as it was sent, and what follows it on the stream is left.
#[verifier::rlimit(40)]
pub proof fn law_message_reads_back(m: Content, rest: Seq<u8>)
    requires
        can_be_framed(m),
    ensures
        deliver(ReadState::Length, message_frame(m) + rest) == Delivery::Message(received(m), rest),
{
    let stream = message_frame(m) + rest;
    let payload = message_payload(m);
    match message_id(m) {
        None => {
            assert(stream.take(4) =~= be_bytes(0) + Seq::<u8>::empty());
            assert(stream.skip(4) =~= rest);
            law_be_number_reads_back(0, Seq::empty());
        },
        Some(id) => {
            let len = (payload.len() + 1) as u32;
            let body = payload + rest;
            assert(stream =~= be_bytes(len) + seq![id] + body);
            lemma_header(len, id, body);
            lemma_payload(m, len, id);
            assert(body.take(payload.len() as int) =~= payload);
            assert(body.skip(payload.len() as int) =~= rest);
            assert(body.skip(0) =~= body);
        },
    }
}

proof fn lemma_meta_reads_back(meta: BlockMeta)
    ensures
        meta_number(meta_bytes(meta)) == meta,
{
    let bytes = meta_bytes(meta);
    assert(bytes =~= be_bytes(meta.piece_index) + (be_bytes(meta.begin) + be_bytes(meta.length)));
    assert(bytes.skip(4) =~= be_bytes(meta.begin) + be_bytes(meta.length));
    assert(bytes.skip(8) =~= be_bytes(meta.length) + Seq::<u8>::empty());
    law_be_number_reads_back(meta.piece_index, be_bytes(meta.begin) + be_bytes(meta.length));
    law_be_number_reads_back(meta.begin, be_bytes(meta.length));
    law_be_number_reads_back(meta.length, Seq::empty());
}

} // verus!
