//! Laws of the queue with which a download begins: its blocks are the torrent.

use vstd::prelude::*;

use crate::torrent_parser::{total_length, FileView, TorrentView};
use crate::worker_laws::{law_blocks_tile_piece, tile};
use crate::worker_queue::{
    block_count, blocks_fit, fresh_blocks, fresh_queue, piece_length, queueable, smaller,
    BlockSlot, PieceView,
};

verus! {

/// The length of all files together is the sum of their lengths, however they are divided.
pub proof fn law_lengths_add_up(a: Seq<FileView>, b: Seq<FileView>, file: FileView)
    ensures
        total_length(Seq::empty()) == 0,
        total_length(seq![file]) == file.length,
        total_length(a + b) == total_length(a) + total_length(b),
    decreases b.len(),
{
    assert(seq![file].drop_last() =~= Seq::<FileView>::empty());
    assert(total_length(Seq::<FileView>::empty()) == 0);
    if b.len() == 0 {
        assert(a + b =~= a);
    } else {
        law_lengths_add_up(a, b.drop_last(), file);
        assert((a + b).drop_last() =~= a + b.drop_last());
        assert((a + b).last() == b.last());
    }
}

/// The number of bytes of a torrent of `total` bytes that lie in piece `i`: from `i` times the
/// length of a piece up to `i + 1` times that length, or to the end of the torrent.
pub open spec fn bytes_in_piece(total: int, piece_len: int, i: int) -> int {
    let end = if (i + 1) * piece_len <= total {
        (i + 1) * piece_len
    } else {
        total
    };
    if end <= i * piece_len {
        0
    } else {
        end - i * piece_len
    }
}

proof fn lemma_bytes_in_piece(total: int, piece_len: int, i: int)
    requires
        0 <= total,
        0 < piece_len,
        0 <= i,
    ensures
        bytes_in_piece(total, piece_len, i) == piece_length(total, piece_len, i),
        0 <= piece_length(total, piece_len, i) <= smaller(total, piece_len),
{
    assert((i + 1) * piece_len == i * piece_len + piece_len && i * piece_len >= 0)
        by (nonlinear_arith)
        requires
            0 < piece_len,
            0 <= i,
    ;
}

/// Rounded up, a quotient of a smaller number is no larger.
proof fn lemma_round_up_grows(len: int, longer: int, block_len: int)
    requires
        0 < block_len,
        0 <= len <= longer,
    ensures
        0 <= (len + block_len - 1) / block_len <= (longer + block_len - 1) / block_len,
{
    assert(0 <= (len + block_len - 1) / block_len <= (longer + block_len - 1) / block_len)
        by (nonlinear_arith)
        requires
            0 < block_len,
            0 <= len <= longer,
    ;
}

/// Where blocks of more than one byte can be placed in 32 bits, they can be counted as well.
proof fn lemma_countable(len: int, block_len: int)
    requires
        0 < block_len <= u32::MAX,
        0 <= len,
        blocks_fit(len, block_len),
        block_len > 1 || len <= u32::MAX,
    ensures
        (len + block_len - 1) / block_len <= u32::MAX,
{
    let up = (len + block_len - 1) / block_len;
    if block_len == 1 {
        assert(up == len);
    } else if up > u32::MAX {
        assert((u32::MAX - 1) * block_len > u32::MAX) by (nonlinear_arith)
            requires
                block_len > 1,
        ;
    }
}

/// Whether the blocks of a torrent can be told apart, counted and placed in 32 bits: always but
/// for blocks of one byte in pieces of more bytes than 32 bits count.
pub open spec fn countable(torrent: TorrentView, block_len: int) -> bool {
    &&& 0 < block_len <= u32::MAX
    &&& 0 <= total_length(torrent.info.files)
    &&& torrent.info.pieces.len() <= u32::MAX
    &&& queueable(torrent, block_len)
    &&& block_len > 1 || total_length(torrent.info.files) <= u32::MAX || torrent.info.piece_len
        <= u32::MAX
}

proof fn lemma_piece_of_queue(torrent: TorrentView, block_len: int, i: int)
    requires
        countable(torrent, block_len),
        0 <= i < torrent.info.pieces.len(),
    ensures
        ({
            let len = piece_length(
                total_length(torrent.info.files),
                torrent.info.piece_len,
                i,
            );
            &&& 0 <= len
            &&& (len + block_len - 1) / block_len <= u32::MAX
            &&& blocks_fit(len, block_len)
            &&& fresh_queue(torrent, block_len).len() == torrent.info.pieces.len()
            &&& fresh_queue(torrent, block_len)[i] == (PieceView {
                piece_index: i as u32,
                blocks: fresh_blocks(i, len, block_len),
            })
        }),
{
    let total = total_length(torrent.info.files);
    let piece_len = torrent.info.piece_len;
    let len = piece_length(total, piece_len, i);
    let longest = smaller(total, piece_len);
    lemma_bytes_in_piece(total, piece_len, i);
    lemma_countable(longest, block_len);
    lemma_round_up_grows(len, longest, block_len);
    let c = block_count(len, block_len);
    let d = block_count(longest, block_len);
    assert((c - 1) * block_len <= (d - 1) * block_len) by (nonlinear_arith)
        requires
            c <= d,
            0 < block_len,
    ;
}

/// The queue of a download that begins holds the torrent: there is one piece for each hash, in
/// order, and its blocks, which nobody has taken, are the bytes of the torrent from the place of
/// the piece up to that of the next or to the end of the files, each byte once, cut into blocks of
/// the given length from the front.
pub proof fn law_queue_is_the_torrent(torrent: TorrentView, block_len: int, i: int)
    requires
        countable(torrent, block_len),
        0 <= i < torrent.info.pieces.len(),
    ensures
        ({
            let queue = fresh_queue(torrent, block_len);
            let blocks = queue[i].blocks;
            &&& queue.len() == torrent.info.pieces.len()
            &&& queue[i].piece_index == i
            &&& tile(
                blocks,
                bytes_in_piece(total_length(torrent.info.files), torrent.info.piece_len, i),
            )
            &&& forall|j: int|
                0 <= j < blocks.len() ==> (#[trigger] blocks[j]).meta.piece_index == i
                    && blocks[j].meta.begin == j * block_len && blocks[j].meta.length <= block_len
                    && !blocks[j].locked
        }),
{
    let total = total_length(torrent.info.files);
    let len = piece_length(total, torrent.info.piece_len, i);
    lemma_bytes_in_piece(total, torrent.info.piece_len, i);
    lemma_piece_of_queue(torrent, block_len, i);
    law_blocks_tile_piece(i as u32, len, block_len);
    let blocks = fresh_queue(torrent, block_len)[i].blocks;
    assert forall|j: int| 0 <= j < blocks.len() implies (#[trigger] blocks[j]).meta.piece_index == i
        && blocks[j].meta.begin == j * block_len && blocks[j].meta.length <= block_len
        && !blocks[j].locked by {
        lemma_block_place(len, block_len, j);
    }
}

/// A block begins in front of the end of its piece.
proof fn lemma_block_place(len: int, block_len: int, j: int)
    requires
        0 < block_len <= u32::MAX,
        0 <= len,
        blocks_fit(len, block_len),
        0 <= j < block_count(len, block_len),
    ensures
        0 <= j * block_len < len,
        j * block_len <= u32::MAX,
{
    let c = block_count(len, block_len);
    let up = (len + block_len - 1) / block_len;
    assert(0 <= j * block_len <= (c - 1) * block_len) by (nonlinear_arith)
        requires
            0 <= j <= c - 1,
            0 < block_len,
    ;
    assert(j * block_len < len) by (nonlinear_arith)
        requires
            0 < block_len,
            j <= up - 1,
            up == (len + block_len - 1) / block_len,
    ;
}

/// The sum of the lengths of blocks.
pub open spec fn blocks_length(blocks: Seq<BlockSlot>) -> int
    decreases blocks.len(),
{
    if blocks.len() == 0 {
        0
    } else {
        blocks_length(blocks.drop_last()) + blocks.last().meta.length
    }
}

/// The sum of the lengths of the blocks of all pieces.
pub open spec fn queue_length(pieces: Seq<PieceView>) -> int
    decreases pieces.len(),
{
    if pieces.len() == 0 {
        0
    } else {
        queue_length(pieces.drop_last()) + blocks_length(pieces.last().blocks)
    }
}

proof fn lemma_blocks_length(piece_index: int, len: int, block_len: int, k: int)
    requires
        0 < block_len <= u32::MAX,
        0 <= len,
        blocks_fit(len, block_len),
        0 <= k <= fresh_blocks(piece_index, len, block_len).len(),
    ensures
        blocks_length(fresh_blocks(piece_index, len, block_len).take(k)) == smaller(
            len,
            k * block_len,
        ),
    decreases k,
{
    let blocks = fresh_blocks(piece_index, len, block_len);
    assert((len + block_len - 1) / block_len >= 0) by (nonlinear_arith)
        requires
            0 < block_len,
            0 <= len,
    ;
    if k == 0 {
        assert(0 * block_len == 0) by (nonlinear_arith);
    } else {
        lemma_blocks_length(piece_index, len, block_len, k - 1);
        lemma_block_place(len, block_len, k - 1);
        assert(blocks.take(k).drop_last() =~= blocks.take(k - 1));
        assert(blocks.take(k).last() == blocks[k - 1]);
        assert(k * block_len == (k - 1) * block_len + block_len) by (nonlinear_arith);
    }
}

proof fn lemma_queue_length(torrent: TorrentView, block_len: int, n: int)
    requires
        countable(torrent, block_len),
        0 <= n <= torrent.info.pieces.len(),
    ensures
        queue_length(fresh_queue(torrent, block_len).take(n)) == smaller(
            total_length(torrent.info.files),
            n * torrent.info.piece_len,
        ),
    decreases n,
{
    let queue = fresh_queue(torrent, block_len);
    let total = total_length(torrent.info.files);
    let piece_len = torrent.info.piece_len;
    if n == 0 {
        assert(0 * piece_len == 0) by (nonlinear_arith);
    } else {
        let i = n - 1;
        let len = piece_length(total, piece_len, i);
        lemma_queue_length(torrent, block_len, i);
        lemma_piece_of_queue(torrent, block_len, i);
        assert(queue.take(n).drop_last() =~= queue.take(i));
        assert(queue.take(n).last() == queue[i]);
        let blocks = fresh_blocks(i, len, block_len);
        let up = (len + block_len - 1) / block_len;
        assert(up >= 0 && len <= up * block_len) by (nonlinear_arith)
            requires
                up == (len + block_len - 1) / block_len,
                0 < block_len,
                0 <= len,
        ;
        assert(blocks.len() == up);
        lemma_blocks_length(i, len, block_len, up);
        assert(blocks.take(up) =~= blocks);
        assert(n * piece_len == i * piece_len + piece_len) by (nonlinear_arith)
            requires
                n == i + 1,
        ;
    }
}

/// The blocks of the queue of a download that begins are together as long as the files are, where
/// there are enough pieces for them; else they are as long as the pieces.
pub proof fn law_queue_is_as_long_as_the_torrent(torrent: TorrentView, block_len: int)
    requires
        countable(torrent, block_len),
    ensures
        ({
            let total = total_length(torrent.info.files);
            let room = torrent.info.pieces.len() * torrent.info.piece_len;
            &&& total <= room ==> queue_length(fresh_queue(torrent, block_len)) == total
            &&& total > room ==> queue_length(fresh_queue(torrent, block_len)) == room
        }),
{
    let queue = fresh_queue(torrent, block_len);
    let n = torrent.info.pieces.len() as int;
    lemma_queue_length(torrent, block_len, n);
    assert(queue.len() == n);
    assert(queue.take(n) =~= queue);
}

/// A torrent can be queued if and only if there are blocks, none longer than a piece, its length
/// fits in 64 bits, and every block that can be counted begins at a place that fits in 32 bits.
pub proof fn law_what_can_be_queued(torrent: TorrentView, block_len: int)
    requires
        0 <= total_length(torrent.info.files),
    ensures
        queueable(torrent, block_len) <==> {
            &&& 0 < block_len <= torrent.info.piece_len
            &&& total_length(torrent.info.files) <= u64::MAX
            &&& forall|j: int|
                0 <= j < u32::MAX && #[trigger] (j * block_len) < torrent.info.piece_len && j
                    * block_len < total_length(torrent.info.files) ==> j * block_len <= u32::MAX
        },
{
    let total = total_length(torrent.info.files);
    let len = smaller(total, torrent.info.piece_len);
    let c = block_count(len, block_len);
    let up = (len + block_len - 1) / block_len;
    if 0 < block_len <= torrent.info.piece_len {
        assert(up >= 0) by (nonlinear_arith)
            requires
                up == (len + block_len - 1) / block_len,
                0 < block_len,
                0 <= len,
        ;
        if queueable(torrent, block_len) {
            assert forall|j: int|
                0 <= j < u32::MAX && #[trigger] (j * block_len) < torrent.info.piece_len && j
                    * block_len < total implies j * block_len <= u32::MAX by {
                assert(j < up) by (nonlinear_arith)
                    requires
                        0 < block_len,
                        j * block_len < len,
                        up == (len + block_len - 1) / block_len,
                ;
                assert(j * block_len <= (c - 1) * block_len) by (nonlinear_arith)
                    requires
                        j <= c - 1,
                        0 < block_len,
                ;
            }
        }
        if total <= u64::MAX && forall|j: int|
            0 <= j < u32::MAX && #[trigger] (j * block_len) < torrent.info.piece_len && j
                * block_len < total ==> j * block_len <= u32::MAX {
            let j = c - 1;
            if c == 0 {
                assert(j * block_len <= 0) by (nonlinear_arith)
                    requires
                        j == -1,
                        0 < block_len,
                ;
            } else {
                assert(j * block_len < len) by (nonlinear_arith)
                    requires
                        0 < block_len,
                        j <= up - 1,
                        up == (len + block_len - 1) / block_len,
                ;
                assert(j * block_len <= u32::MAX);
            }
        }
    }
}

} // verus!
