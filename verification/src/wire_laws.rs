//! Laws of the bytes on the wire: where what stands in a handshake and in a message, and that
//! nothing is read but what a peer can have written.

use vstd::prelude::*;
use vstd::utf8::{encode_utf8, is_ascii_chars_encode_utf8};

use crate::bits::{bit_of_byte, bits_of_bytes, law_bits_survive_bytes, padding_of, BitField};
use crate::tcp_peer_communicator::{
    be_bytes, be_number, can_be_framed, deliver, handshake, handshake_matches, kind_step,
    message_frame, message_payload, meta_bytes, meta_number, Delivery,
    ReadState, StepView, TcpPeerError,
};
use crate::types::{Block, BlockMeta, Content, Message};

verus! {

/// The number in the four bytes at a place, the most significant byte first.
pub open spec fn number_in(s: Seq<u8>, at: int) -> int {
    s[at] * 0x100_0000 + s[at + 1] * 0x1_0000 + s[at + 2] * 0x100 + s[at + 3]
}

/// A handshake is made of the number nineteen, the name of the protocol, eight zeroes, the info
/// hash and the peer ID, whatever these are.
pub proof fn law_handshake_layout(info_hash: Seq<u8>, peer_id: Seq<u8>)
    ensures
        ({
            let bytes = handshake(info_hash, peer_id);
            &&& bytes.len() == 28 + info_hash.len() + peer_id.len()
            &&& bytes[0] == 19
            &&& bytes.subrange(1, 20) == encode_utf8("BitTorrent protocol"@)
            &&& forall|i: int| 20 <= i < 28 ==> #[trigger] bytes[i] == 0
            &&& bytes.skip(28).take(info_hash.len() as int) == info_hash
            &&& bytes.skip(28 + info_hash.len() as int) == peer_id
        }),
{
    reveal_strlit("BitTorrent protocol");
    is_ascii_chars_encode_utf8("BitTorrent protocol"@);
    let bytes = handshake(info_hash, peer_id);
    assert(bytes.subrange(1, 20) =~= encode_utf8("BitTorrent protocol"@));
    assert(bytes.skip(28).take(info_hash.len() as int) =~= info_hash);
    assert(bytes.skip(28 + info_hash.len() as int) =~= peer_id);
}

/// A handshake is accepted if and only if its bytes from the twenty-eighth on are the info hash,
/// whatever else it says.
pub proof fn law_only_the_info_hash_matters(reply: Seq<u8>, info_hash: Seq<u8>)
    requires
        reply.len() >= 48,
    ensures
        handshake_matches(reply, info_hash) <==> info_hash.len() == 20 && forall|i: int|
            0 <= i < 20 ==> #[trigger] info_hash[i] == reply[28 + i],
{
    let part = reply.subrange(28, 48);
    if handshake_matches(reply, info_hash) {
        assert forall|i: int| 0 <= i < 20 implies #[trigger] info_hash[i] == reply[28 + i] by {
            assert(part[i] == reply[28 + i]);
        }
    }
    if info_hash.len() == 20 && forall|i: int|
        0 <= i < 20 ==> #[trigger] info_hash[i] == reply[28 + i] {
        assert(part =~= info_hash);
    }
}

proof fn lemma_number_in(s: Seq<u8>, at: int, n: u32)
    requires
        0 <= at,
        at + 4 <= s.len(),
        s.subrange(at, at + 4) == be_bytes(n),
    ensures
        number_in(s, at) == n,
{
    let part = s.subrange(at, at + 4);
    assert(part[0] == s[at] && part[1] == s[at + 1] && part[2] == s[at + 2] && part[3]
        == s[at + 3]);
}

/// A message begins with the number of the bytes behind that number, and then, unless there are
/// none, with the byte of its kind. A `Have` goes on with the index of the piece; a bit field with
/// its bits, the most significant bit of a byte first; a request and a cancellation with the piece,
/// the place in it and the length of the block; and a block with its piece, its place and its
/// bytes.
#[verifier::rlimit(40)]
pub proof fn law_frame_layout(m: Content)
    requires
        can_be_framed(m),
    ensures
        ({
            let s = message_frame(m);
            &&& number_in(s, 0) == s.len() - 4
            &&& match m {
                Content::KeepAlive => s.len() == 4,
                Content::Choke => s.len() == 5 && s[4] == 0,
                Content::Unchoke => s.len() == 5 && s[4] == 1,
                Content::Interested => s.len() == 5 && s[4] == 2,
                Content::NotInterested => s.len() == 5 && s[4] == 3,
                Content::Have(index) => s.len() == 9 && s[4] == 4 && number_in(s, 5) == index,
                Content::BitField(bits, padding) => s[4] == 5 && 8 * (s.len() - 5) == bits.len()
                    + padding.len() && forall|i: int|
                    0 <= i < bits.len() ==> #[trigger] bits[i] == bit_of_byte(
                        s[5 + i / 8],
                        i % 8,
                    ),
                Content::Request(meta) => s.len() == 17 && s[4] == 6 && number_in(s, 5)
                    == meta.piece_index && number_in(s, 9) == meta.begin && number_in(s, 13)
                    == meta.length,
                Content::Piece(meta, data) => s[4] == 7 && number_in(s, 5) == meta.piece_index
                    && number_in(s, 9) == meta.begin && s.skip(13) == data,
                Content::Cancel(meta) => s.len() == 17 && s[4] == 8 && number_in(s, 5)
                    == meta.piece_index && number_in(s, 9) == meta.begin && number_in(s, 13)
                    == meta.length,
            }
        }),
{
    let s = message_frame(m);
    let payload = message_payload(m);
    if m is KeepAlive {
        assert(s.subrange(0, 4) =~= be_bytes(0));
        lemma_number_in(s, 0, 0);
    } else {
        let len = (payload.len() + 1) as u32;
        assert(s.subrange(0, 4) =~= be_bytes(len));
        lemma_number_in(s, 0, len);
        assert(s.skip(5) =~= payload);
        match m {
            Content::Have(index) => {
                assert(s.subrange(5, 9) =~= be_bytes(index));
                lemma_number_in(s, 5, index);
            },
            Content::BitField(bits, padding) => {
                let all = bits + padding;
                law_bits_survive_bytes(all);
                assert forall|i: int| 0 <= i < bits.len() implies #[trigger] bits[i]
                    == bit_of_byte(s[5 + i / 8], i % 8) by {
                    assert(bits[i] == all[i]);
                    assert(bits_of_bytes(payload)[i] == all[i]);
                    assert(s[5 + i / 8] == payload[i / 8]);
                }
            },
            Content::Request(meta) => {
                lemma_meta_layout(s, meta);
            },
            Content::Cancel(meta) => {
                lemma_meta_layout(s, meta);
            },
            Content::Piece(meta, data) => {
                assert(s.subrange(5, 9) =~= be_bytes(meta.piece_index));
                assert(s.subrange(9, 13) =~= be_bytes(meta.begin));
                lemma_number_in(s, 5, meta.piece_index);
                lemma_number_in(s, 9, meta.begin);
                assert(s.skip(13) =~= data);
            },
            _ => {},
        }
    }
}

proof fn lemma_meta_layout(s: Seq<u8>, meta: BlockMeta)
    requires
        s.len() == 17,
        s.skip(5) == meta_bytes(meta),
    ensures
        number_in(s, 5) == meta.piece_index,
        number_in(s, 9) == meta.begin,
        number_in(s, 13) == meta.length,
{
    let bytes = meta_bytes(meta);
    assert forall|i: int| 5 <= i < 17 implies #[trigger] s[i] == bytes[i - 5] by {
        assert(s.skip(5)[i - 5] == s[i]);
    }
    assert(s.subrange(5, 9) =~= be_bytes(meta.piece_index));
    assert(s.subrange(9, 13) =~= be_bytes(meta.begin));
    assert(s.subrange(13, 17) =~= be_bytes(meta.length));
    lemma_number_in(s, 5, meta.piece_index);
    lemma_number_in(s, 9, meta.begin);
    lemma_number_in(s, 13, meta.length);
}

/// What is read first off a stream, by the places of the bytes. The first four bytes are the
/// length of what follows. Messages without a payload are read whatever their length. Those of a
/// fixed length, blocks that are too short for their place, and unknown kinds are refused.
pub open spec fn reads_as(s: Seq<u8>, d: Delivery) -> bool {
    let len = number_in(s, 0);
    let id = s[4];
    if s.len() < 4 {
        d is Incomplete
    } else if len == 0 {
        d == Delivery::Message(Content::KeepAlive, s.skip(4))
    } else if s.len() < 5 {
        d is Incomplete
    } else if id == 0 {
        d == Delivery::Message(Content::Choke, s.skip(5))
    } else if id == 1 {
        d == Delivery::Message(Content::Unchoke, s.skip(5))
    } else if id == 2 {
        d == Delivery::Message(Content::Interested, s.skip(5))
    } else if id == 3 {
        d == Delivery::Message(Content::NotInterested, s.skip(5))
    } else if id > 8 {
        d == Delivery::Refused(TcpPeerError::InvalidMessage { id })
    } else if (id == 4 && len != 5) || (id == 6 && len != 13) || (id == 8 && len != 13) || (id == 7
        && len < 9) {
        d == Delivery::Refused(TcpPeerError::InvalidMessageLen { len: len as u32, id })
    } else if s.len() < 4 + len {
        d is Incomplete
    } else {
        d matches Delivery::Message(m, rest) && rest == s.skip(4 + len) && match m {
            Content::Have(index) => id == 4 && index == number_in(s, 5),
            Content::BitField(bits, padding) => id == 5 && padding.len() == 0 && bits.len() == 8 * (
            len - 1) && forall|i: int|
                0 <= i < bits.len() ==> #[trigger] bits[i] == bit_of_byte(s[5 + i / 8], i % 8),
            Content::Request(meta) => id == 6 && meta.piece_index == number_in(s, 5) && meta.begin
                == number_in(s, 9) && meta.length == number_in(s, 13),
            Content::Piece(meta, data) => id == 7 && meta.piece_index == number_in(s, 5)
                && meta.begin == number_in(s, 9) && meta.length == len - 9 && data == s.subrange(
                13,
                4 + len,
            ),
            Content::Cancel(meta) => id == 8 && meta.piece_index == number_in(s, 5) && meta.begin
                == number_in(s, 9) && meta.length == number_in(s, 13),
            _ => false,
        }
    }
}

proof fn lemma_be_number(bytes: Seq<u8>, s: Seq<u8>, at: int)
    requires
        bytes.len() >= 4,
        0 <= at,
        at + 4 <= s.len(),
        forall|i: int| 0 <= i < 4 ==> #[trigger] bytes[i] == s[at + i],
    ensures
        be_number(bytes) == number_in(s, at),
{
    assert(bytes[0] == s[at + 0]);
    assert(bytes[1] == s[at + 1]);
    assert(bytes[2] == s[at + 2]);
    assert(bytes[3] == s[at + 3]);
}

proof fn lemma_meta_number(body: Seq<u8>, s: Seq<u8>)
    requires
        body.len() == 12,
        s.len() >= 17,
        forall|i: int| 0 <= i < 12 ==> #[trigger] body[i] == s[5 + i],
    ensures
        meta_number(body).piece_index == number_in(s, 5),
        meta_number(body).begin == number_in(s, 9),
        meta_number(body).length == number_in(s, 13),
{
    lemma_be_number(body, s, 5);
    assert forall|i: int| 0 <= i < 4 implies #[trigger] body.skip(4)[i] == s[9 + i] by {
        assert(body[4 + i] == s[5 + (4 + i)]);
    }
    lemma_be_number(body.skip(4), s, 9);
    assert forall|i: int| 0 <= i < 4 implies #[trigger] body.skip(8)[i] == s[13 + i] by {
        assert(body[8 + i] == s[5 + (8 + i)]);
    }
    lemma_be_number(body.skip(8), s, 13);
}

/// What a stream of bytes is read as.
#[verifier::rlimit(60)]
pub proof fn law_what_is_read(s: Seq<u8>)
    ensures
        reads_as(s, deliver(ReadState::Length, s)),
{
    if s.len() >= 4 {
        let four = s.take(4);
        assert forall|i: int| 0 <= i < 4 implies #[trigger] four[i] == s[0 + i] by {}
        lemma_be_number(four, s, 0);
        let len = be_number(four);
        if len != 0 {
            let tail = s.skip(4);
            assert(deliver(ReadState::Length, s) == deliver(ReadState::Kind { len }, tail));
            if tail.len() >= 1 {
                let id = s[4];
                assert(tail.take(1)[0] == id);
                let body = tail.skip(1);
                assert(body =~= s.skip(5));
                assert(deliver(ReadState::Kind { len }, tail) == (match kind_step(len, id) {
                    StepView::More(state) => deliver(state, body),
                    StepView::Done(m) => Delivery::Message(m, body),
                    StepView::Fail(e) => Delivery::Refused(e),
                }));
                lemma_body(s, len, id, body);
            }
        }
    }
}

#[verifier::rlimit(60)]
proof fn lemma_body(s: Seq<u8>, len: u32, id: u8, body: Seq<u8>)
    requires
        s.len() >= 5,
        len == number_in(s, 0),
        len >= 1,
        id == s[4],
        body == s.skip(5),
    ensures
        reads_as(
            s,
            match kind_step(len, id) {
                StepView::More(state) => deliver(state, body),
                StepView::Done(m) => Delivery::Message(m, body),
                StepView::Fail(e) => Delivery::Refused(e),
            },
        ),
{
    if let StepView::More(state) = kind_step(len, id) {
        let n = state.needs() as int;
        assert(n == len - 1);
        if body.len() >= n {
            let bytes = body.take(n);
            assert forall|i: int| 0 <= i < n implies #[trigger] bytes[i] == s[5 + i] by {
                assert(body[i] == s[5 + i]);
            }
            assert(body.skip(n) =~= s.skip(4 + len));
            if id == 4 {
                lemma_be_number(bytes, s, 5);
            } else if id == 5 {
                let bits = bits_of_bytes(bytes);
                assert forall|i: int| 0 <= i < bits.len() implies #[trigger] bits[i]
                    == bit_of_byte(s[5 + i / 8], i % 8) by {
                    assert(bytes[i / 8] == s[5 + i / 8]);
                }
            } else if id == 6 || id == 8 {
                lemma_meta_number(bytes, s);
            } else {
                lemma_be_number(bytes, s, 5);
                assert forall|i: int| 0 <= i < 4 implies #[trigger] bytes.skip(4)[i]
                    == s[9 + i] by {
                    assert(bytes[4 + i] == s[5 + (4 + i)]);
                }
                lemma_be_number(bytes.skip(4), s, 9);
                assert(bytes.skip(8) =~= s.subrange(13, 4 + len));
            }
        }
    }
}

/// A message is seen as what it says.
pub proof fn law_messages_are_seen_as_they_are(
    index: u32,
    field: BitField,
    meta: BlockMeta,
    data: Vec<u8>,
)
    ensures
        Message::KeepAlive@ == Content::KeepAlive,
        Message::Choke@ == Content::Choke,
        Message::Unchoke@ == Content::Unchoke,
        Message::Interested@ == Content::Interested,
        Message::NotInterested@ == Content::NotInterested,
        Message::Have(index)@ == Content::Have(index),
        Message::BitField(field)@ == Content::BitField(field@, padding_of(field)),
        Message::Request(meta)@ == Content::Request(meta),
        Message::Piece(Block { meta, data })@ == Content::Piece(meta, data@),
        Message::Cancel(meta)@ == Content::Cancel(meta),
{
}

} // verus!
