//! The progress of a download: where blocks go, when a piece is complete, and when all are.

use vstd::prelude::*;

use crate::bits::{padding_of, BitField};
use crate::tcp_peer_communicator::same_bytes;
use crate::torrent_parser::{sha1_of, SHA1Hash, Torrent, TorrentView};
use crate::types::BlockMeta;
use crate::worker_queue::{
    fresh_queue, lemma_without_piece, ordered_pieces, without_piece, PieceView, WorkerQueue,
};

verus! {

/// Where in the file the piece of a block begins, and where the block does, if these places fit in
/// 64 bits.
pub fn block_offsets(meta: &BlockMeta, piece_len: u64) -> (r: Option<(u64, u64)>)
    ensures
        match r {
            Some((piece, block)) => piece == meta.piece_index * piece_len && block
                == meta.piece_index * piece_len + meta.begin,
            None => meta.piece_index * piece_len + meta.begin > u64::MAX,
        },
{
    match (meta.piece_index as u64).checked_mul(piece_len) {
        None => None,
        Some(piece) => match piece.checked_add(meta.begin as u64) {
            None => None,
            Some(block) => Some((piece, block)),
        },
    }
}

/// Whether enough of a piece has been read back to check it.
pub fn piece_is_read(read: usize, piece_len: u64) -> (r: bool)
    ensures
        r == (read == piece_len as usize),
{
    read == piece_len as usize
}

/// Checks the bytes that the file holds for a piece. If they are right, the piece and the number
/// of its bytes are returned.
pub fn check_piece(torrent: &Torrent, piece_index: u32, bytes: &[u8]) -> (r: Option<(u32, usize)>)
    requires
        piece_index < torrent@.info.pieces.len(),
    ensures
        r == (if sha1_of(bytes@) == torrent@.info.pieces[piece_index as int] {
            Some((piece_index, bytes@.len() as usize))
        } else {
            None
        }),
{
    let hash = SHA1Hash::of(bytes);
    let ours = torrent.info.pieces[piece_index as usize];
    proof {
        assert(torrent@.info.pieces[piece_index as int] == ours@);
    }
    if same_bytes(hash.as_ref().as_slice(), ours.as_ref().as_slice()) {
        Some((piece_index, bytes.len()))
    } else {
        None
    }
}

/// Takes in that a piece is complete. Whether all pieces are is returned.
pub fn complete_piece(
    own_pieces: &mut BitField,
    worker_queue: &mut WorkerQueue,
    piece_index: u32,
) -> (all_done: bool)
    requires
        old(worker_queue).well_formed(),
        piece_index < old(own_pieces)@.len(),
    ensures
        final(worker_queue).well_formed(),
        final(own_pieces)@ == old(own_pieces)@.update(piece_index as int, true),
        padding_of(*final(own_pieces)) == padding_of(*old(own_pieces)),
        final(worker_queue)@ == without_piece(old(worker_queue)@, piece_index),
        all_done == (final(worker_queue)@.len() == 0),
{
    own_pieces.set(piece_index as usize, true);
    worker_queue.remove(piece_index);
    worker_queue.is_empty()
}

/// Whether a queue holds a piece.
pub open spec fn holds_piece(pieces: Seq<PieceView>, piece_index: int) -> bool {
    exists|i: int| 0 <= i < pieces.len() && (#[trigger] pieces[i]).piece_index == piece_index
}

/// Whether a queue holds the pieces that we do not have, and no others.
pub open spec fn in_step(pieces: Seq<PieceView>, own_pieces: Seq<bool>) -> bool {
    forall|p: int|
        0 <= p <= u32::MAX ==> (#[trigger] holds_piece(pieces, p) <==> p < own_pieces.len()
            && !own_pieces[p])
}

/// A download begins with no piece, and all pieces in the queue.
pub proof fn law_download_begins_in_step(torrent: TorrentView, block_len: int)
    requires
        torrent.info.pieces.len() <= u32::MAX,
    ensures
        in_step(
            fresh_queue(torrent, block_len),
            Seq::new(torrent.info.pieces.len(), |i: int| false),
        ),
{
    let queue = fresh_queue(torrent, block_len);
    let own = Seq::new(torrent.info.pieces.len(), |i: int| false);
    assert forall|p: int| 0 <= p <= u32::MAX implies (#[trigger] holds_piece(queue, p) <==> p
        < own.len() && !own[p]) by {
        if p < own.len() {
            assert(queue[p].piece_index == p);
        }
    }
}

/// A piece that is complete leaves the queue when we have it.
pub proof fn law_completing_keeps_step(
    pieces: Seq<PieceView>,
    own_pieces: Seq<bool>,
    piece_index: u32,
)
    requires
        ordered_pieces(pieces),
        in_step(pieces, own_pieces),
        piece_index < own_pieces.len(),
    ensures
        in_step(without_piece(pieces, piece_index), own_pieces.update(piece_index as int, true)),
{
    let after = without_piece(pieces, piece_index);
    let own = own_pieces.update(piece_index as int, true);
    if holds_piece(pieces, piece_index as int) {
        let i = choose|i: int|
            0 <= i < pieces.len() && (#[trigger] pieces[i]).piece_index == piece_index;
        assert forall|j: int| 0 <= j < pieces.len() && j != i implies (
        #[trigger] pieces[j]).piece_index != piece_index by {
            if j < i {
                assert(pieces[j].piece_index < pieces[i].piece_index);
            } else {
                assert(pieces[i].piece_index < pieces[j].piece_index);
            }
        }
        lemma_without_piece(pieces, piece_index, i);
        assert forall|p: int| 0 <= p <= u32::MAX implies (#[trigger] holds_piece(after, p) <==> p
            < own.len() && !own[p]) by {
            assert(holds_piece(pieces, p) <==> p < own_pieces.len() && !own_pieces[p]);
            if holds_piece(after, p) {
                let j = choose|j: int|
                    0 <= j < after.len() && (#[trigger] after[j]).piece_index == p;
                let j0: int = if j < i { j } else { j + 1 };
                assert(pieces[j0].piece_index == p);
            }
            if holds_piece(pieces, p) && p != piece_index {
                let j = choose|j: int|
                    0 <= j < pieces.len() && (#[trigger] pieces[j]).piece_index == p;
                let j1: int = if j < i { j } else { j - 1 };
                assert(after[j1] == pieces[j]);
            }
        }
    } else {
        lemma_without_piece(pieces, piece_index, pieces.len() as int);
        assert(own_pieces[piece_index as int]);
        assert(own =~= own_pieces);
    }
}

/// The download is complete when the queue is empty: we have every piece then.
pub proof fn law_empty_queue_means_complete(pieces: Seq<PieceView>, own_pieces: Seq<bool>)
    requires
        in_step(pieces, own_pieces),
        own_pieces.len() <= u32::MAX,
    ensures
        pieces.len() == 0 <==> forall|p: int|
            0 <= p < own_pieces.len() ==> #[trigger] own_pieces[p],
{
    if pieces.len() == 0 {
        assert forall|p: int| 0 <= p < own_pieces.len() implies #[trigger] own_pieces[p] by {
            assert(!holds_piece(pieces, p));
        }
    } else {
        let p = pieces[0].piece_index as int;
        assert(holds_piece(pieces, p));
        assert(!own_pieces[p]);
    }
}

} // verus!
