use mateyship::bits::BitField;
use mateyship::tcp_peer_communicator::{
    build_handshake, check_handshake, encode_message, ReadState, ReadStep, TcpPeerError,
    HANDSHAKE_LEN,
};
use mateyship::types::{Block, BlockMeta, Message};

/// Reads one message off the front of `stream`, as a connection does.
fn read(stream: &mut &[u8]) -> Result<Message, TcpPeerError> {
    let mut state = ReadState::Length;
    loop {
        let n = state.wanted();
        let (bytes, rest) = stream.split_at(n);
        *stream = rest;
        match state.advance(bytes.to_vec())? {
            ReadStep::More(next) => state = next,
            ReadStep::Done(message) => return Ok(message),
        }
    }
}

fn meta(piece_index: u32, begin: u32, length: u32) -> BlockMeta {
    BlockMeta {
        piece_index,
        begin,
        length,
    }
}

#[test]
fn handshakes() {
    let ours = build_handshake(&[7u8; 20], b"-MS0010-abcdefghijkl");
    assert_eq!(ours.len(), HANDSHAKE_LEN);
    assert_eq!(&ours[..20], b"\x13BitTorrent protocol");
    assert_eq!(&ours[20..28], &[0u8; 8]);
    assert_eq!(&ours[28..48], &[7u8; 20]);
    assert_eq!(&ours[48..], b"-MS0010-abcdefghijkl");
    assert_eq!(check_handshake(&ours, &[7u8; 20]), Ok(()));
    assert_eq!(
        check_handshake(&ours, &[8u8; 20]),
        Err(TcpPeerError::HandshakeInfoHash)
    );
    assert_eq!(
        check_handshake(&ours, &[7u8; 19]),
        Err(TcpPeerError::HandshakeInfoHash)
    );
}

#[test]
fn frames() {
    assert_eq!(encode_message(Message::KeepAlive), vec![0, 0, 0, 0]);
    assert_eq!(encode_message(Message::Choke), vec![0, 0, 0, 1, 0]);
    assert_eq!(encode_message(Message::Unchoke), vec![0, 0, 0, 1, 1]);
    assert_eq!(encode_message(Message::Interested), vec![0, 0, 0, 1, 2]);
    assert_eq!(encode_message(Message::NotInterested), vec![0, 0, 0, 1, 3]);
    assert_eq!(
        encode_message(Message::Have(0x01020304)),
        vec![0, 0, 0, 5, 4, 1, 2, 3, 4]
    );
    assert_eq!(
        encode_message(Message::BitField(BitField::from_bytes(vec![0xa5, 0x01]))),
        vec![0, 0, 0, 3, 5, 0xa5, 0x01]
    );
    assert_eq!(
        encode_message(Message::Request(meta(1, 0x100, 0x4000))),
        vec![0, 0, 0, 13, 6, 0, 0, 0, 1, 0, 0, 1, 0, 0, 0, 0x40, 0]
    );
    assert_eq!(
        encode_message(Message::Cancel(meta(1, 0x100, 0x4000)))[4],
        8
    );
    assert_eq!(
        encode_message(Message::Piece(Block {
            meta: meta(2, 3, 2),
            data: vec![9, 10],
        })),
        vec![0, 0, 0, 11, 7, 0, 0, 0, 2, 0, 0, 0, 3, 9, 10]
    );
}

#[test]
fn messages_read_back() {
    let messages = vec![
        Message::KeepAlive,
        Message::Choke,
        Message::Unchoke,
        Message::Interested,
        Message::NotInterested,
        Message::Have(u32::MAX),
        Message::BitField(BitField::from_bytes(vec![0x80, 0x7f])),
        Message::Request(meta(1, 2, 3)),
        Message::Piece(Block {
            meta: meta(4, 5, 3),
            data: vec![6, 7, 8],
        }),
        Message::Piece(Block {
            meta: meta(4, 5, 0),
            data: vec![],
        }),
        Message::Cancel(meta(0xff00ff00, 0x00ff00ff, 1)),
    ];
    let mut stream = Vec::new();
    for message in &messages {
        stream.extend(encode_message(message.clone()));
    }
    let mut rest: &[u8] = &stream;
    for message in messages {
        assert_eq!(read(&mut rest), Ok(message));
    }
    assert_eq!(rest, b"");
}

#[test]
fn a_block_has_the_length_of_its_bytes() {
    let bytes = encode_message(Message::Piece(Block {
        meta: meta(1, 2, 77),
        data: vec![1, 2, 3],
    }));
    assert_eq!(
        read(&mut &bytes[..]),
        Ok(Message::Piece(Block {
            meta: meta(1, 2, 3),
            data: vec![1, 2, 3],
        }))
    );
}

#[test]
fn a_bit_field_comes_with_its_padding() {
    let mut field = BitField::cleared(3);
    field.set(2, true);
    let bytes = encode_message(Message::BitField(field));
    assert_eq!(
        read(&mut &bytes[..]),
        Ok(Message::BitField(BitField::from_bytes(vec![0b0010_0000])))
    );
}

#[test]
fn messages_of_unknown_kind_are_refused() {
    assert_eq!(
        read(&mut &[0u8, 0, 0, 1, 9][..]),
        Err(TcpPeerError::InvalidMessage { id: 9 })
    );
    assert_eq!(
        read(&mut &[0u8, 0, 0, 1, 255][..]),
        Err(TcpPeerError::InvalidMessage { id: 255 })
    );
}

#[test]
fn lengths_that_do_not_fit_are_refused() {
    for (len, id) in [(4u32, 4u8), (6, 4), (12, 6), (14, 6), (8, 7), (12, 8), (14, 8)] {
        let mut bytes = len.to_be_bytes().to_vec();
        bytes.push(id);
        assert_eq!(
            read(&mut &bytes[..]),
            Err(TcpPeerError::InvalidMessageLen { len, id })
        );
    }
}

#[test]
fn messages_without_payload_have_any_length() {
    let mut stream: &[u8] = &[0u8, 0, 0, 3, 1, 5, 5];
    assert_eq!(read(&mut stream), Ok(Message::Unchoke));
    assert_eq!(stream, &[5, 5]);
}
