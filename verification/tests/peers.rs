use mateyship::bits::BitField;
use mateyship::download::{block_offsets, check_piece, complete_piece, piece_is_read};
use mateyship::fixed_length_chain::{ChainCursor, FirstRead};
use mateyship::peer_connection::{
    keepalive_due, Output, PeerConnectionError, PeerState, PIPELINE_AMOUNT,
};
use mateyship::tcp_peer_communicator::{encode_message, ReadState, ReadStep};
use mateyship::torrent_parser::{SHA1Hash, Torrent, TorrentFile, TorrentInfo};
use mateyship::types::{Block, BlockMeta, Message};
use mateyship::worker_queue::{
    can_be_queued, construct_worker_queue, get_available_blocks, BlockWork, WorkerQueue,
};

fn torrent(length: u64, piece_len: u64, pieces: usize) -> Torrent {
    Torrent {
        announce: String::new(),
        info: TorrentInfo {
            name: "n".to_string(),
            files: vec![TorrentFile {
                length,
                path: vec!["n".to_string()],
            }],
            piece_len,
            pieces: vec![SHA1Hash::of(b"piece"); pieces],
        },
        info_hash: SHA1Hash::default(),
    }
}

fn meta(piece_index: u32, begin: u32, length: u32) -> BlockMeta {
    BlockMeta {
        piece_index,
        begin,
        length,
    }
}

fn all(n: usize) -> BitField {
    let mut field = BitField::cleared(n);
    for i in 0..n {
        field.set(i, true);
    }
    field
}

/// Takes every free block of a queue.
fn drain(queue: &mut WorkerQueue, peer_pieces: &BitField) -> Vec<BlockMeta> {
    let mut blocks = Vec::new();
    get_available_blocks(&mut blocks, queue, peer_pieces, 1000);
    blocks.iter().map(|work: &BlockWork| work.block_meta).collect()
}

#[test]
fn blocks_of_a_torrent() {
    let mut queue = construct_worker_queue(&torrent(25, 10, 3), 4);
    assert_eq!(
        drain(&mut queue, &all(3)),
        vec![
            meta(0, 0, 4),
            meta(0, 4, 4),
            meta(0, 8, 2),
            meta(1, 0, 4),
            meta(1, 4, 4),
            meta(1, 8, 2),
            meta(2, 0, 4),
            meta(2, 4, 1),
        ]
    );
    assert_eq!(drain(&mut queue, &all(3)), vec![]);
}

#[test]
fn blocks_that_can_be_queued() {
    assert!(can_be_queued(&torrent(25, 10, 3), 4));
    assert!(can_be_queued(&torrent(0, 10, 3), 10));
    assert!(!can_be_queued(&torrent(25, 10, 3), 11));
    assert!(!can_be_queued(&torrent(25, 10, 3), 0));
    assert!(can_be_queued(&torrent(1 << 40, 1 << 32, 3), 1 << 14));
    assert!(!can_be_queued(&torrent(1 << 40, (1 << 32) + 1, 3), 1 << 14));
    assert!(can_be_queued(&torrent(1 << 32, 1 << 40, 3), 1 << 14));
}

#[test]
fn pieces_behind_the_last_byte_have_no_blocks() {
    let mut queue = construct_worker_queue(&torrent(8, 8, 3), 8);
    assert!(!queue.is_empty());
    assert_eq!(drain(&mut queue, &all(3)), vec![meta(0, 0, 8)]);
}

#[test]
fn blocks_are_taken_of_pieces_that_the_peer_has() {
    let mut queue = construct_worker_queue(&torrent(30, 10, 3), 5);
    let mut peer = BitField::cleared(2);
    peer.set(1, true);
    assert_eq!(
        drain(&mut queue, &peer),
        vec![meta(1, 0, 5), meta(1, 5, 5)]
    );
    assert_eq!(
        drain(&mut queue, &all(3)),
        vec![meta(0, 0, 5), meta(0, 5, 5), meta(2, 0, 5), meta(2, 5, 5)]
    );
}

#[test]
fn no_more_blocks_are_taken_than_asked_for() {
    let mut queue = construct_worker_queue(&torrent(30, 10, 3), 5);
    let mut blocks = vec![BlockWork {
        block_meta: meta(9, 9, 9),
        requested: true,
    }];
    get_available_blocks(&mut blocks, &mut queue, &all(3), 1);
    assert_eq!(blocks.len(), 1);
    get_available_blocks(&mut blocks, &mut queue, &all(3), 4);
    assert_eq!(
        blocks[1..]
            .iter()
            .map(|w| (w.block_meta, w.requested))
            .collect::<Vec<_>>(),
        vec![
            (meta(0, 0, 5), false),
            (meta(0, 5, 5), false),
            (meta(1, 0, 5), false)
        ]
    );
    // There is no end to a queue that holds more than the maximum already.
    get_available_blocks(&mut blocks, &mut queue, &all(3), 2);
    assert_eq!(blocks.len(), 7);
}

#[test]
fn blocks_that_are_given_back_are_free() {
    let mut queue = construct_worker_queue(&torrent(30, 10, 3), 5);
    let everything = drain(&mut queue, &all(3));
    queue.release(&meta(1, 5, 5));
    queue.release(&meta(1, 6, 5));
    queue.release(&meta(7, 0, 5));
    assert_eq!(drain(&mut queue, &all(3)), vec![meta(1, 5, 5)]);
    let work: Vec<BlockWork> = everything
        .iter()
        .map(|&block_meta| BlockWork {
            block_meta,
            requested: true,
        })
        .collect();
    queue.release_all(&work);
    assert_eq!(drain(&mut queue, &all(3)), everything);
}

#[test]
fn complete_pieces_leave_the_queue() {
    let mut queue = construct_worker_queue(&torrent(30, 10, 3), 10);
    let mut own = BitField::cleared(3);
    assert!(!complete_piece(&mut own, &mut queue, 1));
    assert_eq!(own.get(1), Some(true));
    assert_eq!(own.get(0), Some(false));
    assert!(!complete_piece(&mut own, &mut queue, 1));
    assert_eq!(
        drain(&mut queue, &all(3)),
        vec![meta(0, 0, 10), meta(2, 0, 10)]
    );
    assert!(!complete_piece(&mut own, &mut queue, 2));
    assert!(complete_piece(&mut own, &mut queue, 0));
    assert!(queue.is_empty());
    assert_eq!(own, all(3));
}

#[test]
fn places_in_the_file() {
    assert_eq!(block_offsets(&meta(3, 5, 1), 10), Some((30, 35)));
    assert_eq!(
        block_offsets(&meta(1, 1, 1), u64::MAX - 1),
        Some((u64::MAX - 1, u64::MAX))
    );
    assert_eq!(block_offsets(&meta(1, 2, 1), u64::MAX - 1), None);
    assert_eq!(block_offsets(&meta(2, 0, 1), u64::MAX), None);
    assert!(piece_is_read(10, 10));
    assert!(!piece_is_read(9, 10));
}

#[test]
fn pieces_are_checked_by_their_hash() {
    let torrent = torrent(10, 5, 2);
    assert_eq!(check_piece(&torrent, 1, b"piece"), Some((1, 5)));
    assert_eq!(check_piece(&torrent, 1, b"other"), None);
    assert_eq!(check_piece(&torrent, 0, b""), None);
}

fn connected(pieces: usize) -> (PeerState, WorkerQueue) {
    (
        PeerState::new(pieces),
        construct_worker_queue(&torrent(10 * pieces as u64, 10, pieces), 5),
    )
}

fn writes(outputs: Vec<Output>) -> Vec<Message> {
    outputs
        .into_iter()
        .filter_map(|output| match output {
            Output::Write(message) => Some(message),
            Output::Flush => None,
        })
        .collect()
}

#[test]
fn a_connection_opens_with_our_pieces() {
    let (mut state, _) = connected(3);
    let mut own = BitField::cleared(3);
    own.set(1, true);
    assert_eq!(
        state.opening(&own),
        Some(Message::BitField(own.clone()))
    );
    assert_eq!(state.opening(&own), None);

    let (mut state, _) = connected(3);
    assert_eq!(state.opening(&BitField::cleared(3)), None);
    assert_eq!(state.opening(&own), None);
}

#[test]
fn blocks_are_requested_once_the_peer_allows() {
    let (mut state, mut queue) = connected(4);
    state.fill_pipeline(&mut queue);
    assert_eq!(state.write_turn(false, None).outputs, vec![Output::Flush]);

    assert_eq!(
        state.on_message(&mut queue, Message::BitField(all(8))),
        Ok(None)
    );
    state.fill_pipeline(&mut queue);
    assert_eq!(
        state.write_turn(false, None).outputs,
        vec![Output::Write(Message::Interested), Output::Flush]
    );

    assert_eq!(state.on_message(&mut queue, Message::Unchoke), Ok(None));
    let requested = writes(state.write_turn(false, None).outputs);
    assert_eq!(requested.len(), PIPELINE_AMOUNT);
    assert!(!state.has_room());
    assert_eq!(requested[0], Message::Request(meta(0, 0, 5)));
    assert_eq!(requested[4], Message::Request(meta(2, 0, 5)));
    assert_eq!(writes(state.write_turn(false, None).outputs), vec![]);
}

#[test]
fn blocks_that_we_wait_for_are_delivered() {
    let (mut state, mut queue) = connected(4);
    state
        .on_message(&mut queue, Message::BitField(all(4)))
        .unwrap();
    state.fill_pipeline(&mut queue);
    let block = Block {
        meta: meta(0, 5, 5),
        data: vec![1, 2, 3, 4, 5],
    };
    assert_eq!(
        state.on_message(&mut queue, Message::Piece(block.clone())),
        Ok(Some(block.clone()))
    );
    assert_eq!(
        state.on_message(&mut queue, Message::Piece(block)),
        Ok(None)
    );
    // The block is done with, so another is taken.
    state.fill_pipeline(&mut queue);
    state.on_message(&mut queue, Message::Unchoke).unwrap();
    assert_eq!(
        writes(state.write_turn(false, None).outputs).last(),
        Some(&Message::Request(meta(2, 5, 5)))
    );
}

#[test]
fn a_choke_gives_requested_blocks_back() {
    let (mut state, mut queue) = connected(2);
    state
        .on_message(&mut queue, Message::BitField(all(2)))
        .unwrap();
    state.on_message(&mut queue, Message::Unchoke).unwrap();
    state.fill_pipeline(&mut queue);
    assert_eq!(writes(state.write_turn(false, None).outputs).len(), 5);
    assert_eq!(drain(&mut queue, &all(2)), vec![]);
    assert_eq!(state.on_message(&mut queue, Message::Choke), Ok(None));
    assert_eq!(drain(&mut queue, &all(2)).len(), 4);
    assert_eq!(writes(state.write_turn(false, None).outputs), vec![]);
}

#[test]
fn a_choke_keeps_blocks_that_are_not_requested() {
    let (mut state, mut queue) = connected(2);
    state
        .on_message(&mut queue, Message::BitField(all(2)))
        .unwrap();
    state.fill_pipeline(&mut queue);
    state.on_message(&mut queue, Message::Choke).unwrap();
    assert_eq!(drain(&mut queue, &all(2)), vec![]);
}

#[test]
fn a_connection_that_ends_gives_its_blocks_back() {
    let (mut state, mut queue) = connected(2);
    state.on_message(&mut queue, Message::Have(1)).unwrap();
    state.fill_pipeline(&mut queue);
    assert_eq!(
        drain(&mut queue, &all(2)),
        vec![meta(0, 0, 5), meta(0, 5, 5)]
    );
    state.close(&mut queue);
    assert_eq!(
        drain(&mut queue, &all(2)),
        vec![meta(1, 0, 5), meta(1, 5, 5)]
    );
}

#[test]
fn peers_do_not_share_blocks() {
    let (mut first, mut queue) = connected(4);
    let mut second = PeerState::new(4);
    for state in [&mut first, &mut second] {
        state
            .on_message(&mut queue, Message::BitField(all(4)))
            .unwrap();
        state.on_message(&mut queue, Message::Unchoke).unwrap();
        state.fill_pipeline(&mut queue);
    }
    let a = writes(first.write_turn(false, None).outputs);
    let b = writes(second.write_turn(false, None).outputs);
    assert_eq!((a.len(), b.len()), (6, 4));
    assert!(a[1..].iter().all(|request| !b[1..].contains(request)));
}

#[test]
fn peers_that_are_refused() {
    let (mut state, mut queue) = connected(9);
    assert_eq!(
        state.on_message(&mut queue, Message::Have(9)),
        Err(PeerConnectionError::InvalidPieceIndex)
    );
    assert_eq!(
        state.on_message(&mut queue, Message::BitField(all(8))),
        Err(PeerConnectionError::InvalidBitfield)
    );
    assert_eq!(
        state.on_message(&mut queue, Message::BitField(all(16))),
        Ok(None)
    );
    assert_eq!(state.on_message(&mut queue, Message::Have(8)), Ok(None));
}

#[test]
fn messages_that_change_nothing() {
    let (mut state, mut queue) = connected(2);
    for message in [
        Message::KeepAlive,
        Message::Interested,
        Message::NotInterested,
        Message::Request(meta(0, 0, 1)),
        Message::Cancel(meta(0, 0, 1)),
    ] {
        assert_eq!(state.on_message(&mut queue, message), Ok(None));
    }
    assert_eq!(state.write_turn(false, None).outputs, vec![Output::Flush]);
}

#[test]
fn the_time_to_keep_a_connection_alive() {
    assert!(!keepalive_due(0));
    assert!(!keepalive_due(120_000_000_000));
    assert!(keepalive_due(120_000_000_001));
}

#[test]
fn an_idle_connection_is_kept_alive() {
    let (mut state, mut queue) = connected(2);
    assert_eq!(
        state.write_turn(true, None).outputs,
        vec![
            Output::Write(Message::KeepAlive),
            Output::Flush,
            Output::Flush
        ]
    );
    state.on_message(&mut queue, Message::Have(0)).unwrap();
    state.fill_pipeline(&mut queue);
    assert_eq!(
        writes(state.write_turn(false, None).outputs),
        vec![Message::Interested]
    );
    assert_eq!(writes(state.write_turn(true, None).outputs), vec![]);
}

#[test]
fn complete_pieces_are_told_to_peers_without_them() {
    let (mut state, mut queue) = connected(2);
    state.on_message(&mut queue, Message::Have(0)).unwrap();
    assert_eq!(
        writes(state.write_turn(false, Some(1)).outputs),
        vec![Message::Have(1)]
    );
    assert_eq!(state.write_turn(false, Some(1)).draw, None);
    assert_eq!(state.write_turn(false, None).draw, None);
    assert_eq!(
        writes(state.write_turn_with(false, Some(0), false)),
        vec![]
    );
    assert_eq!(
        writes(state.write_turn_with(false, Some(0), true)),
        vec![Message::Have(0)]
    );
}

#[test]
fn complete_pieces_are_told_to_peers_with_them_now_and_then() {
    let (mut state, mut queue) = connected(2);
    state.on_message(&mut queue, Message::Have(0)).unwrap();
    let mut told = 0;
    for _ in 0..2000 {
        let turn = state.write_turn(false, Some(0));
        let draw = turn.draw.unwrap();
        assert_eq!(
            writes(turn.outputs),
            if draw.came_true() {
                vec![Message::Have(0)]
            } else {
                vec![]
            }
        );
        told += draw.came_true() as u32;
    }
    assert!(200 < told && told < 650, "{}", told);
}

#[test]
fn the_first_stream_of_a_chain_is_cut_to_its_length() {
    let mut chain = ChainCursor::new(10);
    assert!(chain.reads_first());
    assert_eq!(chain.remaining(), 10);
    assert_eq!(chain.split_write(7), 7);
    assert_eq!(chain.split_write(12), 10);
    // Eight bytes are read into a buffer that held two.
    assert_eq!(
        chain.after_first_read(10, 20, 12),
        FirstRead {
            filled: 10,
            go_on: false
        }
    );
    assert_eq!(chain.position(), 8);
    assert_eq!(chain.remaining(), 2);
    assert_eq!(chain.split_write(5), 2);
    // Five more bytes are read, of which two count.
    assert_eq!(
        chain.after_first_read(15, 12, 7),
        FirstRead {
            filled: 12,
            go_on: true
        }
    );
    assert!(!chain.reads_first());
    assert_eq!(chain.remaining(), 0);
    assert_eq!(chain.split_write(5), 0);
}

#[test]
fn a_bit_field_reaches_the_peer() {
    let mut ours = PeerState::new(3);
    let mut own = BitField::cleared(3);
    own.set(2, true);
    let bytes = encode_message(ours.opening(&own).unwrap());
    let mut message = None;
    let mut state = ReadState::Length;
    let mut rest = &bytes[..];
    while message.is_none() {
        let (part, tail) = rest.split_at(state.wanted());
        rest = tail;
        match state.advance(part.to_vec()).unwrap() {
            ReadStep::More(next) => state = next,
            ReadStep::Done(done) => message = Some(done),
        }
    }

    let (mut theirs, mut queue) = connected(3);
    assert_eq!(theirs.on_message(&mut queue, message.unwrap()), Ok(None));
    assert_eq!(theirs.on_message(&mut queue, Message::Unchoke), Ok(None));
    theirs.fill_pipeline(&mut queue);
    assert_eq!(
        writes(theirs.write_turn(false, None).outputs),
        vec![
            Message::Interested,
            Message::Request(meta(2, 0, 5)),
            Message::Request(meta(2, 5, 5)),
        ]
    );
}

#[test]
fn delivered_blocks_are_not_taken_again() {
    let (mut state, mut queue) = connected(1);
    state.on_message(&mut queue, Message::Have(0)).unwrap();
    state.fill_pipeline(&mut queue);
    let block = Block {
        meta: meta(0, 0, 5),
        data: vec![0; 5],
    };
    assert!(state
        .on_message(&mut queue, Message::Piece(block))
        .unwrap()
        .is_some());
    state.close(&mut queue);
    assert_eq!(drain(&mut queue, &all(1)), vec![meta(0, 5, 5)]);
}

#[test]
fn requests_are_repeated_only_behind_a_choke() {
    let (mut state, mut queue) = connected(2);
    let mut asked = Vec::new();
    state.on_message(&mut queue, Message::Have(1)).unwrap();
    state.fill_pipeline(&mut queue);
    asked.extend(writes(state.write_turn(false, None).outputs));
    assert_eq!(asked, vec![Message::Interested]);

    state.on_message(&mut queue, Message::Unchoke).unwrap();
    for _ in 0..3 {
        state.fill_pipeline(&mut queue);
        asked.extend(writes(state.write_turn(false, None).outputs));
    }
    assert_eq!(
        asked,
        vec![
            Message::Interested,
            Message::Request(meta(1, 0, 5)),
            Message::Request(meta(1, 5, 5)),
        ]
    );

    // One of the two is delivered, so that only the other is asked for again.
    let block = Block {
        meta: meta(1, 0, 5),
        data: vec![0; 5],
    };
    state
        .on_message(&mut queue, Message::Piece(block))
        .unwrap();
    state.on_message(&mut queue, Message::Choke).unwrap();
    state.fill_pipeline(&mut queue);
    assert_eq!(writes(state.write_turn(false, None).outputs), vec![]);
    state.on_message(&mut queue, Message::Unchoke).unwrap();
    assert_eq!(
        writes(state.write_turn(false, None).outputs),
        vec![Message::Request(meta(1, 5, 5))]
    );
}
