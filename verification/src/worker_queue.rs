//! The work that is left: the blocks of the pieces that are not complete, and which of them
//! somebody has taken to download.

use vstd::prelude::*;

use crate::bits::BitField;
use crate::torrent_parser::{total_length, Torrent, TorrentView};
use crate::types::BlockMeta;

verus! {

/// A block, and whether somebody has taken it.
#[derive(Debug, Clone, Copy, PartialEq, Eq)]
pub struct BlockSlot {
    pub meta: BlockMeta,
    pub locked: bool,
}

/// The blocks of a piece, and how many of them nobody has taken.
#[derive(Debug)]
pub struct PieceWorkInfo {
    piece_index: u32,
    blocks: Vec<BlockSlot>,
    available_blocks: u32,
}

/// The pieces that are not complete, in ascending order.
#[derive(Debug)]
pub struct WorkerQueue {
    pieces: Vec<PieceWorkInfo>,
}

/// A block that we have taken, and whether it has been requested from the peer.
#[derive(Debug, Clone, Copy, PartialEq, Eq)]
pub struct BlockWork {
    pub block_meta: BlockMeta,
    pub requested: bool,
}

/// What a queue says of a piece: its index and its blocks.
pub struct PieceView {
    pub piece_index: u32,
    pub blocks: Seq<BlockSlot>,
}

/// The number of blocks that nobody has taken.
pub open spec fn unlocked(blocks: Seq<BlockSlot>) -> nat
    decreases blocks.len(),
{
    if blocks.len() == 0 {
        0
    } else {
        unlocked(blocks.drop_first()) + (if blocks[0].locked {
            0nat
        } else {
            1nat
        })
    }
}

/// Whether blocks are those of one piece, in ascending order.
pub open spec fn blocks_of_piece(blocks: Seq<BlockSlot>, piece_index: u32) -> bool {
    &&& forall|i: int|
        0 <= i < blocks.len() ==> (#[trigger] blocks[i]).meta.piece_index == piece_index
    &&& forall|i: int, j: int|
        0 <= i < j < blocks.len() ==> (#[trigger] blocks[i]).meta.begin < (
        #[trigger] blocks[j]).meta.begin
}

impl PieceWorkInfo {
    closed spec fn valid(self) -> bool {
        &&& self.available_blocks == unlocked(self.blocks@)
        &&& self.blocks@.len() <= u32::MAX
        &&& blocks_of_piece(self.blocks@, self.piece_index)
    }
}

impl View for PieceWorkInfo {
    type V = PieceView;

    closed spec fn view(&self) -> PieceView {
        PieceView { piece_index: self.piece_index, blocks: self.blocks@ }
    }
}

/// Whether pieces stand in ascending order and hold blocks of their own.
pub open spec fn ordered_pieces(pieces: Seq<PieceView>) -> bool {
    &&& forall|i: int|
        0 <= i < pieces.len() ==> blocks_of_piece(
            (#[trigger] pieces[i]).blocks,
            pieces[i].piece_index,
        )
    &&& forall|i: int, j: int|
        0 <= i < j < pieces.len() ==> (#[trigger] pieces[i]).piece_index < (
        #[trigger] pieces[j]).piece_index
}

impl View for WorkerQueue {
    type V = Seq<PieceView>;

    closed spec fn view(&self) -> Seq<PieceView> {
        self.pieces@.map_values(|piece: PieceWorkInfo| piece@)
    }
}

impl WorkerQueue {
    /// The counters count the blocks that nobody has taken.
    pub closed spec fn counted(self) -> bool {
        forall|i: int| 0 <= i < self.pieces@.len() ==> (#[trigger] self.pieces@[i]).valid()
    }

    /// Every piece counts its free blocks, and the pieces stand in ascending order.
    pub open spec fn well_formed(self) -> bool {
        self.counted() && ordered_pieces(self@)
    }
}

/// The smaller of two numbers.
pub open spec fn smaller(a: int, b: int) -> int {
    if a <= b {
        a
    } else {
        b
    }
}

/// The length of piece `i` of `total` bytes that are cut into pieces of `piece_len`.
pub open spec fn piece_length(total: int, piece_len: int, i: int) -> int {
    if total <= i * piece_len {
        0
    } else {
        smaller(total - i * piece_len, piece_len)
    }
}

/// The number of blocks of a piece of `len` bytes: as many as it takes, but no more than 32 bits
/// count.
pub open spec fn block_count(len: int, block_len: int) -> int {
    smaller((len + block_len - 1) / block_len, u32::MAX as int)
}

/// Block `j` of a piece of `len` bytes.
pub open spec fn block_of(piece_index: int, len: int, block_len: int, j: int) -> BlockMeta {
    BlockMeta {
        piece_index: piece_index as u32,
        begin: (j * block_len) as u32,
        length: smaller(len - j * block_len, block_len) as u32,
    }
}

/// The blocks of a piece of `len` bytes, which nobody has taken.
pub open spec fn fresh_blocks(piece_index: int, len: int, block_len: int) -> Seq<BlockSlot> {
    Seq::new(
        block_count(len, block_len) as nat,
        |j: int| BlockSlot { meta: block_of(piece_index, len, block_len, j), locked: false },
    )
}

/// The queue of a download that begins: all blocks of all pieces. Pieces are counted in 32 bits.
pub open spec fn fresh_queue(torrent: TorrentView, block_len: int) -> Seq<PieceView> {
    Seq::new(
        torrent.info.pieces.len() % 0x1_0000_0000,
        |i: int|
            PieceView {
                piece_index: i as u32,
                blocks: fresh_blocks(
                    i,
                    piece_length(total_length(torrent.info.files), torrent.info.piece_len, i),
                    block_len,
                ),
            },
    )
}

/// Whether the places of the blocks of a piece of `len` bytes fit in 32 bits.
pub open spec fn blocks_fit(len: int, block_len: int) -> bool {
    (block_count(len, block_len) - 1) * block_len <= u32::MAX
}

/// The blocks of a shorter piece fit where those of a longer one do.
proof fn lemma_blocks_fit(len: int, longer: int, block_len: int, j: int)
    requires
        block_len > 0,
        0 <= len <= longer,
        blocks_fit(longer, block_len),
        0 <= j < block_count(len, block_len),
    ensures
        j * block_len <= u32::MAX,
{
    assert((len + block_len - 1) / block_len <= (longer + block_len - 1) / block_len)
        by (nonlinear_arith)
        requires
            block_len > 0,
            len <= longer,
    ;
    assert(j <= block_count(longer, block_len) - 1);
    assert(j * block_len <= (block_count(longer, block_len) - 1) * block_len) by (nonlinear_arith)
        requires
            j <= block_count(longer, block_len) - 1,
            block_len > 0,
    ;
}

fn make_blocks(piece_index: u32, len: u64, block_len: u32) -> (blocks: Vec<BlockSlot>)
    requires
        block_len > 0,
        forall|j: int|
            0 <= j < block_count(len as int, block_len as int) ==> #[trigger] (j * block_len)
                <= u32::MAX,
    ensures
        blocks@ == fresh_blocks(piece_index as int, len as int, block_len as int),
        blocks@.len() <= u32::MAX,
{
    let ghost want = fresh_blocks(piece_index as int, len as int, block_len as int);
    let mut blocks: Vec<BlockSlot> = Vec::new();
    let mut left: u64 = len;
    let mut begin: u64 = 0;
    let mut count: u32 = 0;
    proof {
        assert(0 * block_len == 0) by (nonlinear_arith);
        assert((block_len - 1) / (block_len as int) == 0) by (nonlinear_arith)
            requires
                block_len > 0,
        ;
    }
    while left > 0 && count < u32::MAX
        invariant
            block_len > 0,
            begin == count * block_len,
            begin <= len + block_len,
            begin <= u32::MAX + block_len,
            left == (if begin < len {
                (len - begin) as u64
            } else {
                0
            }),
            count <= block_count(len as int, block_len as int),
            left == 0 ==> count == block_count(len as int, block_len as int),
            blocks@.len() == count,
            want == fresh_blocks(piece_index as int, len as int, block_len as int),
            forall|j: int| 0 <= j < count ==> #[trigger] blocks@[j] == want[j],
            forall|j: int|
                0 <= j < block_count(len as int, block_len as int) ==> #[trigger] (j * block_len)
                    <= u32::MAX,
        decreases left,
    {
        proof {
            lemma_more_blocks(len as int, block_len as int, count as int);
            assert((count as int) * block_len <= u32::MAX);
        }
        let length: u32 = if left < block_len as u64 {
            left as u32
        } else {
            block_len
        };
        let meta = BlockMeta { piece_index, begin: begin as u32, length };
        proof {
            assert(meta == want[count as int].meta);
        }
        blocks.push(BlockSlot { meta, locked: false });
        left = if left < block_len as u64 {
            0
        } else {
            left - block_len as u64
        };
        begin = begin + block_len as u64;
        count = count + 1;
        proof {
            assert((count as int) * block_len == (count - 1) * block_len + block_len)
                by (nonlinear_arith);
            lemma_last_block(len as int, block_len as int, count as int);
        }
    }
    proof {
        assert(blocks@ =~= want);
    }
    blocks
}

/// While bytes are left, there is a further block.
proof fn lemma_more_blocks(len: int, block_len: int, count: int)
    requires
        block_len > 0,
        count >= 0,
        count * block_len < len,
        count < u32::MAX,
    ensures
        count < block_count(len, block_len),
{
    assert(count < (len + block_len - 1) / block_len) by (nonlinear_arith)
        requires
            block_len > 0,
            count * block_len < len,
    ;
}

/// Once no bytes are left, the blocks are complete.
proof fn lemma_last_block(len: int, block_len: int, count: int)
    requires
        block_len > 0,
        0 < count <= u32::MAX,
        (count - 1) * block_len < len,
    ensures
        count <= block_count(len, block_len),
        count * block_len >= len ==> count == block_count(len, block_len),
{
    let up = (len + block_len - 1) / block_len;
    assert(count <= up) by (nonlinear_arith)
        requires
            block_len > 0,
            (count - 1) * block_len < len,
            up == (len + block_len - 1) / block_len,
    ;
    if count * block_len >= len {
        assert(up <= count) by (nonlinear_arith)
            requires
                block_len > 0,
                count * block_len >= len,
                up == (len + block_len - 1) / block_len,
        ;
    }
}

proof fn lemma_all_unlocked(blocks: Seq<BlockSlot>)
    requires
        forall|i: int| 0 <= i < blocks.len() ==> !(#[trigger] blocks[i]).locked,
    ensures
        unlocked(blocks) == blocks.len(),
    decreases blocks.len(),
{
    if blocks.len() > 0 {
        let rest = blocks.drop_first();
        assert forall|i: int| 0 <= i < rest.len() implies !(#[trigger] rest[i]).locked by {
            assert(rest[i] == blocks[i + 1]);
        }
        lemma_all_unlocked(rest);
    }
}

/// The blocks of a fresh piece are its own and stand in ascending order.
proof fn lemma_fresh_blocks(piece_index: u32, len: int, block_len: int)
    requires
        block_len > 0,
        len >= 0,
        forall|j: int|
            0 <= j < block_count(len, block_len) ==> #[trigger] (j * block_len) <= u32::MAX,
    ensures
        blocks_of_piece(fresh_blocks(piece_index as int, len, block_len), piece_index),
{
    let blocks = fresh_blocks(piece_index as int, len, block_len);
    assert((len + block_len - 1) / block_len >= 0) by (nonlinear_arith)
        requires
            block_len > 0,
            len >= 0,
    ;
    assert forall|i: int, j: int| 0 <= i < j < blocks.len() implies (
    #[trigger] blocks[i]).meta.begin < (#[trigger] blocks[j]).meta.begin by {
        assert(i * block_len < j * block_len && 0 <= i * block_len) by (nonlinear_arith)
            requires
                0 <= i < j,
                block_len > 0,
        ;
        assert(j * block_len <= u32::MAX);
    }
}

/// No piece is longer than the first.
proof fn lemma_piece_length(total: int, piece_len: int, i: int)
    requires
        total >= 0,
        piece_len > 0,
        i >= 0,
    ensures
        0 <= piece_length(total, piece_len, i) <= smaller(total, piece_len),
{
    assert(i * piece_len >= 0) by (nonlinear_arith)
        requires
            i >= 0,
            piece_len > 0,
    ;
}

/// The queue of a download that begins.
#[verifier::rlimit(40)]
pub fn construct_worker_queue(torrent: &Torrent, block_len: u32) -> (queue: WorkerQueue)
    requires
        queueable(torrent@, block_len as int),
    ensures
        queue.well_formed(),
        queue@ == fresh_queue(torrent@, block_len as int),
{
    let piece_len: u64 = torrent.info.piece_len;
    let total: u64 = match torrent.info.total_len() {
        Some(total) => total,
        None => 0,
    };
    let n: u32 = (torrent.info.pieces.len() as u64 % 0x1_0000_0000) as u32;
    let mut left: u64 = total;
    let mut pieces: Vec<PieceWorkInfo> = Vec::new();
    let ghost want = fresh_queue(torrent@, block_len as int);
    proof {
        assert(0 * piece_len == 0) by (nonlinear_arith);
    }
    for piece_index in 0..n
        invariant
            0 < block_len <= piece_len,
            piece_len == torrent@.info.piece_len,
            total == total_length(torrent@.info.files),
            want == fresh_queue(torrent@, block_len as int),
            n == torrent@.info.pieces.len() % 0x1_0000_0000,
            blocks_fit(smaller(total as int, piece_len as int), block_len as int),
            left == (if total <= piece_index * piece_len {
                0
            } else {
                total - piece_index * piece_len
            }),
            pieces@.len() == piece_index,
            forall|i: int| 0 <= i < piece_index ==> (#[trigger] pieces@[i]).valid(),
            forall|i: int| 0 <= i < piece_index ==> (#[trigger] pieces@[i])@ == want[i],
    {
        let len: u64 = if left < piece_len {
            left
        } else {
            piece_len
        };
        left = left - len;
        proof {
            assert((piece_index + 1) * piece_len == piece_index * piece_len + piece_len)
                by (nonlinear_arith);
            assert(len == piece_length(total as int, piece_len as int, piece_index as int));
            lemma_piece_length(total as int, piece_len as int, piece_index as int);
            assert forall|j: int|
                0 <= j < block_count(len as int, block_len as int) implies #[trigger] (j
                * block_len) <= u32::MAX by {
                lemma_blocks_fit(
                    len as int,
                    smaller(total as int, piece_len as int),
                    block_len as int,
                    j,
                );
            }
            lemma_fresh_blocks(piece_index, len as int, block_len as int);
        }
        let blocks = make_blocks(piece_index, len, block_len);
        let available_blocks: u32 = blocks.len() as u32;
        proof {
            lemma_all_unlocked(blocks@);
        }
        pieces.push(PieceWorkInfo { piece_index, blocks, available_blocks });
    }
    let queue = WorkerQueue { pieces };
    proof {
        assert(queue@ =~= want);
        assert forall|i: int| 0 <= i < queue@.len() implies blocks_of_piece(
            (#[trigger] queue@[i]).blocks,
            queue@[i].piece_index,
        ) by {
            assert(queue.pieces@[i].valid());
        }
    }
    queue
}

/// Whether the blocks of a torrent can be queued: they are no longer than a piece, and their places
/// and the length of the torrent can be counted.
pub open spec fn queueable(torrent: TorrentView, block_len: int) -> bool {
    &&& 0 < block_len <= torrent.info.piece_len
    &&& total_length(torrent.info.files) <= u64::MAX
    &&& blocks_fit(smaller(total_length(torrent.info.files), torrent.info.piece_len), block_len)
}

/// Whether the blocks of a torrent can be queued.
pub fn can_be_queued(torrent: &Torrent, block_len: u32) -> (r: bool)
    ensures
        r == queueable(torrent@, block_len as int),
{
    let piece_len: u64 = torrent.info.piece_len;
    if block_len == 0 || (block_len as u64) > piece_len {
        return false;
    }
    match torrent.info.total_len() {
        None => false,
        Some(total) => {
            let longest: u64 = if total < piece_len {
                total
            } else {
                piece_len
            };
            let b: u64 = block_len as u64;
            let whole: u64 = longest / b;
            let count: u64 = if whole >= 0xffff_ffff {
                0xffff_ffff
            } else if longest % b == 0 {
                whole
            } else {
                whole + 1
            };
            proof {
                lemma_round_up(longest as int, b as int);
            }
            proof {
                assert(0 <= (count - 1) * b <= 0xffff_ffff * 0xffff_ffff || count == 0)
                    by (nonlinear_arith)
                    requires
                        0 <= count <= 0xffff_ffff,
                        0 < b <= 0xffff_ffff,
                ;
                assert(count == 0 ==> (count - 1) * b <= 0) by (nonlinear_arith)
                    requires
                        b > 0,
                ;
            }
            count == 0 || (count - 1) * b <= 0xffff_ffff
        },
    }
}

/// Rounding a quotient up.
proof fn lemma_round_up(len: int, block_len: int)
    requires
        len >= 0,
        block_len > 0,
    ensures
        (len + block_len - 1) / block_len == (if len % block_len == 0 {
            len / block_len
        } else {
            len / block_len + 1
        }),
{
    let q = len / block_len;
    let r = len % block_len;
    assert(len == q * block_len + r && 0 <= r < block_len && 0 <= q <= len) by (nonlinear_arith)
        requires
            q == len / block_len,
            r == len % block_len,
            block_len > 0,
            len >= 0,
    ;
    if r == 0 {
        assert((len + block_len - 1) / block_len == q) by (nonlinear_arith)
            requires
                len == q * block_len,
                block_len > 0,
        ;
    } else {
        assert((len + block_len - 1) / block_len == q + 1) by (nonlinear_arith)
            requires
                len == q * block_len + r,
                0 < r < block_len,
        ;
    }
}

/// The blocks after the first `n` of those that nobody had taken have been taken; all of them
/// where `n` is negative.
pub open spec fn after_taking(blocks: Seq<BlockSlot>, n: int) -> Seq<BlockSlot>
    decreases blocks.len(),
{
    if blocks.len() == 0 || n == 0 {
        blocks
    } else if blocks[0].locked {
        seq![blocks[0]] + after_taking(blocks.drop_first(), n)
    } else {
        seq![BlockSlot { meta: blocks[0].meta, locked: true }] + after_taking(
            blocks.drop_first(),
            n - 1,
        )
    }
}

/// The first `n` blocks that nobody has taken; all of them where `n` is negative.
pub open spec fn taken(blocks: Seq<BlockSlot>, n: int) -> Seq<BlockMeta>
    decreases blocks.len(),
{
    if blocks.len() == 0 || n == 0 {
        Seq::empty()
    } else if blocks[0].locked {
        taken(blocks.drop_first(), n)
    } else {
        seq![blocks[0].meta] + taken(blocks.drop_first(), n - 1)
    }
}

/// Whether the peer has a piece.
pub open spec fn has_piece(peer_pieces: Seq<bool>, piece_index: u32) -> bool {
    piece_index < peer_pieces.len() && peer_pieces[piece_index as int]
}

/// The queue after the first `n` free blocks of pieces that the peer has have been taken.
pub open spec fn queue_after_taking(
    pieces: Seq<PieceView>,
    peer_pieces: Seq<bool>,
    n: int,
) -> Seq<PieceView>
    decreases pieces.len(),
{
    if pieces.len() == 0 || n == 0 {
        pieces
    } else if !has_piece(peer_pieces, pieces[0].piece_index) {
        seq![pieces[0]] + queue_after_taking(pieces.drop_first(), peer_pieces, n)
    } else {
        seq![
            PieceView {
                piece_index: pieces[0].piece_index,
                blocks: after_taking(pieces[0].blocks, n),
            },
        ] + queue_after_taking(
            pieces.drop_first(),
            peer_pieces,
            n - taken(pieces[0].blocks, n).len(),
        )
    }
}

/// The first `n` free blocks of pieces that the peer has.
pub open spec fn queue_taken(pieces: Seq<PieceView>, peer_pieces: Seq<bool>, n: int) -> Seq<
    BlockMeta,
>
    decreases pieces.len(),
{
    if pieces.len() == 0 || n == 0 {
        Seq::empty()
    } else if !has_piece(peer_pieces, pieces[0].piece_index) {
        queue_taken(pieces.drop_first(), peer_pieces, n)
    } else {
        taken(pieces[0].blocks, n) + queue_taken(
            pieces.drop_first(),
            peer_pieces,
            n - taken(pieces[0].blocks, n).len(),
        )
    }
}

/// Work that has not been requested yet.
pub open spec fn fresh_work(metas: Seq<BlockMeta>) -> Seq<BlockWork> {
    metas.map_values(|meta: BlockMeta| BlockWork { block_meta: meta, requested: false })
}

/// One block less is free once it has been taken, and one more once it is given back.
proof fn lemma_unlocked_update(blocks: Seq<BlockSlot>, i: int, slot: BlockSlot)
    requires
        0 <= i < blocks.len(),
    ensures
        unlocked(blocks.update(i, slot)) + (if slot.locked {
            1nat
        } else {
            0nat
        }) == unlocked(blocks) + (if blocks[i].locked {
            1nat
        } else {
            0nat
        }),
    decreases blocks.len(),
{
    if i > 0 {
        lemma_unlocked_update(blocks.drop_first(), i - 1, slot);
        assert(blocks.update(i, slot).drop_first() =~= blocks.drop_first().update(i - 1, slot));
    } else {
        assert(blocks.update(i, slot).drop_first() =~= blocks.drop_first());
    }
}

/// There are no more free blocks than blocks.
proof fn lemma_unlocked_bound(blocks: Seq<BlockSlot>)
    ensures
        unlocked(blocks) <= blocks.len(),
    decreases blocks.len(),
{
    if blocks.len() > 0 {
        lemma_unlocked_bound(blocks.drop_first());
    }
}

/// Puts free blocks of a piece behind `blocks` until there are `max`.
#[verifier::rlimit(40)]
fn take_from_piece(piece: &mut PieceWorkInfo, blocks: &mut Vec<BlockWork>, max: usize)
    requires
        old(piece).valid(),
    ensures
        final(piece).valid(),
        final(piece)@.piece_index == old(piece)@.piece_index,
        final(piece)@.blocks == after_taking(old(piece)@.blocks, max - old(blocks)@.len()),
        final(blocks)@ == old(blocks)@ + fresh_work(
            taken(old(piece)@.blocks, max - old(blocks)@.len()),
        ),
{
    let ghost all = piece.blocks@;
    let ghost before = blocks@;
    let ghost n = max - blocks@.len();
    let ghost mut metas = Seq::<BlockMeta>::empty();
    let ghost index = piece.piece_index;
    let mut i: usize = 0;
    proof {
        assert(all.skip(0) =~= all);
        assert(after_taking(all, n) =~= all.take(0) + after_taking(all.skip(0), n));
        assert(taken(all, n) =~= metas + taken(all.skip(0), n));
        assert(before =~= before + fresh_work(metas));
    }
    while i < piece.blocks.len() && blocks.len() != max
        invariant
            i <= all.len(),
            piece.blocks@.len() == all.len(),
            all.len() <= u32::MAX,
            piece.blocks@.skip(i as int) == all.skip(i as int),
            piece.piece_index == index,
            piece.available_blocks == unlocked(piece.blocks@),
            blocks_of_piece(piece.blocks@, index),
            blocks@ == before + fresh_work(metas),
            after_taking(all, n) == piece.blocks@.take(i as int) + after_taking(
                all.skip(i as int),
                max - blocks@.len(),
            ),
            taken(all, n) == metas + taken(all.skip(i as int), max - blocks@.len()),
        decreases all.len() - i,
    {
        let slot: BlockSlot = piece.blocks[i];
        let ghost rest = all.skip(i as int);
        let ghost held = piece.blocks@;
        let ghost had = blocks@;
        let ghost left = max - blocks@.len();
        proof {
            assert(held.skip(i as int)[0] == held[i as int]);
            assert(rest[0] == slot);
            assert(rest.drop_first() =~= all.skip(i + 1));
        }
        if !slot.locked {
            let now = BlockSlot { meta: slot.meta, locked: true };
            proof {
                lemma_unlocked_update(held, i as int, now);
            }
            piece.blocks.set(i, now);
            piece.available_blocks = piece.available_blocks - 1;
            blocks.push(BlockWork { block_meta: slot.meta, requested: false });
            proof {
                let more = metas.push(slot.meta);
                assert(blocks@ =~= before + fresh_work(more));
                assert(held.take(i as int).push(now) =~= piece.blocks@.take(i + 1));
                assert(after_taking(all, n) =~= piece.blocks@.take(i + 1) + after_taking(
                    all.skip(i + 1),
                    left - 1,
                ));
                assert(taken(all, n) =~= more + taken(all.skip(i + 1), left - 1));
                metas = more;
            }
        } else {
            proof {
                assert(held.take(i as int).push(slot) =~= held.take(i + 1));
                assert(after_taking(all, n) =~= held.take(i + 1) + after_taking(
                    all.skip(i + 1),
                    left,
                ));
            }
        }
        proof {
            assert(held.skip(i as int).drop_first() =~= held.skip(i + 1));
            assert(piece.blocks@.skip(i + 1) =~= held.skip(i + 1));
        }
        i = i + 1;
    }
    proof {
        let rest = all.skip(i as int);
        assert(after_taking(rest, max - blocks@.len()) == rest);
        assert(taken(rest, max - blocks@.len()) =~= Seq::<BlockMeta>::empty());
        assert(piece.blocks@ =~= piece.blocks@.take(i as int) + piece.blocks@.skip(i as int));
        assert(taken(all, n) =~= metas);
    }
}

/// Nothing is taken where nothing is free.
proof fn lemma_nothing_free(blocks: Seq<BlockSlot>, n: int)
    requires
        unlocked(blocks) == 0,
    ensures
        after_taking(blocks, n) == blocks,
        taken(blocks, n) == Seq::<BlockMeta>::empty(),
    decreases blocks.len(),
{
    if blocks.len() > 0 {
        lemma_nothing_free(blocks.drop_first(), n);
        assert(after_taking(blocks, n) =~= blocks);
    }
}

/// Takes free blocks of pieces that the peer has, in ascending order, until there are `max` in
/// `blocks`.
#[verifier::rlimit(40)]
pub fn get_available_blocks(
    blocks: &mut Vec<BlockWork>,
    worker_queue: &mut WorkerQueue,
    peer_pieces: &BitField,
    max: usize,
)
    requires
        old(worker_queue).well_formed(),
    ensures
        final(worker_queue).well_formed(),
        final(worker_queue)@ == queue_after_taking(
            old(worker_queue)@,
            peer_pieces@,
            max - old(blocks)@.len(),
        ),
        final(blocks)@ == old(blocks)@ + fresh_work(
            queue_taken(old(worker_queue)@, peer_pieces@, max - old(blocks)@.len()),
        ),
{
    let ghost all = worker_queue@;
    let ghost before = blocks@;
    let ghost n = max - blocks@.len();
    let ghost bits = peer_pieces@;
    let ghost mut metas = Seq::<BlockMeta>::empty();
    let mut i: usize = 0;
    proof {
        assert(all.skip(0) =~= all);
        assert(queue_after_taking(all, bits, n) =~= all.take(0) + queue_after_taking(
            all.skip(0),
            bits,
            n,
        ));
        assert(queue_taken(all, bits, n) =~= metas + queue_taken(all.skip(0), bits, n));
        assert(before =~= before + fresh_work(metas));
    }
    while i < worker_queue.pieces.len() && blocks.len() != max
        invariant
            bits == peer_pieces@,
            i <= all.len(),
            worker_queue@.len() == all.len(),
            worker_queue.pieces@.len() == all.len(),
            worker_queue.counted(),
            forall|j: int|
                0 <= j < all.len() ==> (#[trigger] worker_queue@[j]).piece_index
                    == all[j].piece_index,
            worker_queue@.skip(i as int) == all.skip(i as int),
            blocks@ == before + fresh_work(metas),
            queue_after_taking(all, bits, n) == worker_queue@.take(i as int) + queue_after_taking(
                all.skip(i as int),
                bits,
                max - blocks@.len(),
            ),
            queue_taken(all, bits, n) == metas + queue_taken(
                all.skip(i as int),
                bits,
                max - blocks@.len(),
            ),
        decreases all.len() - i,
    {
        let ghost rest = all.skip(i as int);
        let ghost held = worker_queue@;
        let ghost had = blocks@;
        let ghost left = max - blocks@.len();
        let ghost piece = held[i as int];
        proof {
            assert(held.skip(i as int)[0] == piece);
            assert(rest[0] == piece);
            assert(rest.drop_first() =~= all.skip(i + 1));
            assert(held.skip(i as int).drop_first() =~= held.skip(i + 1));
            assert(worker_queue.pieces@[i as int].valid());
            assert(worker_queue.pieces@[i as int]@ == piece);
        }
        let piece_index = worker_queue.pieces[i].piece_index;
        let has: bool = match peer_pieces.get(piece_index as usize) {
            Some(has) => has,
            None => false,
        };
        if has && worker_queue.pieces[i].available_blocks != 0 {
            take_from_piece(&mut worker_queue.pieces[i], blocks, max);
            proof {
                let more = metas + taken(piece.blocks, left);
                assert(blocks@ =~= before + fresh_work(more));
                assert(worker_queue@ =~= held.update(
                    i as int,
                    PieceView {
                        piece_index: piece.piece_index,
                        blocks: after_taking(piece.blocks, left),
                    },
                ));
                assert(queue_after_taking(all, bits, n) =~= worker_queue@.take(i + 1)
                    + queue_after_taking(all.skip(i + 1), bits, max - blocks@.len()));
                assert(queue_taken(all, bits, n) =~= more + queue_taken(
                    all.skip(i + 1),
                    bits,
                    max - blocks@.len(),
                ));
                metas = more;
            }
        } else {
            proof {
                if has {
                    lemma_nothing_free(piece.blocks, left);
                }
                assert(queue_after_taking(all, bits, n) =~= held.take(i + 1) + queue_after_taking(
                    all.skip(i + 1),
                    bits,
                    left,
                ));
                assert(queue_taken(all, bits, n) =~= metas + queue_taken(
                    all.skip(i + 1),
                    bits,
                    left,
                ));
            }
        }
        proof {
            assert(worker_queue@.skip(i + 1) =~= held.skip(i + 1));
        }
        i = i + 1;
    }
    proof {
        let rest = all.skip(i as int);
        assert(queue_after_taking(rest, bits, max - blocks@.len()) == rest);
        assert(queue_taken(rest, bits, max - blocks@.len()) =~= Seq::<BlockMeta>::empty());
        assert(worker_queue@ =~= worker_queue@.take(i as int) + worker_queue@.skip(i as int));
        assert(queue_taken(all, bits, n) =~= metas);
        assert forall|j: int| 0 <= j < worker_queue@.len() implies blocks_of_piece(
            (#[trigger] worker_queue@[j]).blocks,
            worker_queue@[j].piece_index,
        ) by {
            assert(worker_queue.pieces@[j].valid());
        }
    }
}

/// Blocks of which those in `metas` have been given back.
pub open spec fn given_back(blocks: Seq<BlockSlot>, metas: Seq<BlockMeta>) -> Seq<BlockSlot> {
    blocks.map_values(
        |slot: BlockSlot|
            BlockSlot { meta: slot.meta, locked: slot.locked && !metas.contains(slot.meta) },
    )
}

/// A queue to which the blocks in `metas` have been given back.
pub open spec fn queue_given_back(pieces: Seq<PieceView>, metas: Seq<BlockMeta>) -> Seq<
    PieceView,
> {
    pieces.map_values(
        |piece: PieceView|
            PieceView {
                piece_index: piece.piece_index,
                blocks: given_back(piece.blocks, metas),
            },
    )
}

/// A queue without a piece.
pub open spec fn without_piece(pieces: Seq<PieceView>, piece_index: u32) -> Seq<PieceView>
    decreases pieces.len(),
{
    if pieces.len() == 0 {
        pieces
    } else if pieces[0].piece_index == piece_index {
        pieces.drop_first()
    } else {
        seq![pieces[0]] + without_piece(pieces.drop_first(), piece_index)
    }
}

/// Where the piece is that is left out.
pub proof fn lemma_without_piece(pieces: Seq<PieceView>, piece_index: u32, i: int)
    requires
        0 <= i <= pieces.len(),
        i < pieces.len() ==> pieces[i].piece_index == piece_index,
        forall|j: int| 0 <= j < i ==> (#[trigger] pieces[j]).piece_index != piece_index,
    ensures
        without_piece(pieces, piece_index) == (if i < pieces.len() {
            pieces.remove(i)
        } else {
            pieces
        }),
    decreases pieces.len(),
{
    let rest = pieces.drop_first();
    if i == 0 && pieces.len() > 0 {
        assert(pieces.remove(0) =~= rest);
    } else if pieces.len() > 0 {
        assert forall|j: int| 0 <= j < i - 1 implies (#[trigger] rest[j]).piece_index
            != piece_index by {
            assert(rest[j] == pieces[j + 1]);
        }
        assert(pieces[0].piece_index != piece_index);
        lemma_without_piece(rest, piece_index, i - 1);
        if i < pieces.len() {
            assert(seq![pieces[0]] + rest.remove(i - 1) =~= pieces.remove(i));
        } else {
            assert(seq![pieces[0]] + rest =~= pieces);
        }
    }
}

/// The blocks of some work.
pub open spec fn metas_of(work: Seq<BlockWork>) -> Seq<BlockMeta> {
    work.map_values(|w: BlockWork| w.block_meta)
}

/// Gives a block of a piece back.
fn give_back_in_piece(piece: &mut PieceWorkInfo, meta: &BlockMeta)
    requires
        old(piece).valid(),
    ensures
        final(piece).valid(),
        final(piece)@.piece_index == old(piece)@.piece_index,
        final(piece)@.blocks == given_back(old(piece)@.blocks, seq![*meta]),
{
    let ghost all = piece.blocks@;
    let ghost index = piece.piece_index;
    let mut i: usize = 0;
    proof {
        assert(seq![*meta].contains(*meta)) by {
            assert(seq![*meta][0] == *meta);
        }
        assert forall|m: BlockMeta| seq![*meta].contains(m) implies m == *meta by {}
    }
    while i < piece.blocks.len()
        invariant_except_break
            i <= all.len(),
            piece.blocks@ == all,
            piece.piece_index == index,
            piece.valid(),
            seq![*meta].contains(*meta),
            forall|m: BlockMeta| #[trigger] seq![*meta].contains(m) ==> m == *meta,
            forall|j: int| 0 <= j < i ==> (#[trigger] all[j]).meta != *meta,
        ensures
            piece.valid(),
            piece.piece_index == index,
            piece.blocks@ =~= given_back(all, seq![*meta]),
        decreases all.len() - i,
    {
        let slot: BlockSlot = piece.blocks[i];
        if slot.meta == *meta {
            if slot.locked {
                let now = BlockSlot { meta: slot.meta, locked: false };
                proof {
                    lemma_unlocked_update(all, i as int, now);
                    lemma_unlocked_bound(all.update(i as int, now));
                }
                piece.blocks.set(i, now);
                piece.available_blocks = piece.available_blocks + 1;
            }
            proof {
                assert forall|j: int| i < j < all.len() implies (#[trigger] all[j]).meta
                    != *meta by {
                    assert(all[i as int].meta.begin < all[j].meta.begin);
                }
            }
            break;
        }
        i = i + 1;
    }
}

impl WorkerQueue {
    /// Gives a block back that had been taken.
    pub fn release(&mut self, meta: &BlockMeta)
        requires
            old(self).well_formed(),
        ensures
            final(self).well_formed(),
            final(self)@ == queue_given_back(old(self)@, seq![*meta]),
    {
        let ghost all = self@;
        let ghost want = queue_given_back(all, seq![*meta]);
        let mut i: usize = 0;
        proof {
            assert forall|j: int| 0 <= j < all.len() && (
            #[trigger] all[j]).piece_index != meta.piece_index implies want[j] == all[j] by {
                assert(blocks_of_piece(all[j].blocks, all[j].piece_index));
                let back = given_back(all[j].blocks, seq![*meta]);
                assert forall|k: int| 0 <= k < back.len() implies back[k] == all[j].blocks[k] by {
                    assert(all[j].blocks[k].meta.piece_index != meta.piece_index);
                    assert(!seq![*meta].contains(all[j].blocks[k].meta));
                }
                assert(back =~= all[j].blocks);
            }
        }
        while i < self.pieces.len()
            invariant_except_break
                i <= all.len(),
                self@ == all,
                self.pieces@.len() == all.len(),
                self.well_formed(),
                want == queue_given_back(all, seq![*meta]),
                forall|j: int|
                    0 <= j < all.len() && (#[trigger] all[j]).piece_index != meta.piece_index
                        ==> want[j] == all[j],
                forall|j: int|
                    0 <= j < i ==> (#[trigger] all[j]).piece_index != meta.piece_index,
            ensures
                self.well_formed(),
                self@ =~= want,
            decreases all.len() - i,
        {
            proof {
                assert(self.pieces@[i as int].valid());
                assert(self.pieces@[i as int]@ == all[i as int]);
            }
            if self.pieces[i].piece_index == meta.piece_index {
                give_back_in_piece(&mut self.pieces[i], meta);
                proof {
                    assert forall|j: int| i < j < all.len() implies (
                    #[trigger] all[j]).piece_index != meta.piece_index by {
                        assert(all[i as int].piece_index < all[j].piece_index);
                    }
                    assert(self@ =~= all.update(i as int, want[i as int]));
                    assert forall|j: int| 0 <= j < self@.len() implies blocks_of_piece(
                        (#[trigger] self@[j]).blocks,
                        self@[j].piece_index,
                    ) by {
                        assert(self.pieces@[j].valid());
                    }
                    assert forall|a: int, b: int| 0 <= a < b < self@.len() implies (
                    #[trigger] self@[a]).piece_index < (#[trigger] self@[b]).piece_index by {
                        assert(all[a].piece_index < all[b].piece_index);
                    }
                }
                break;
            }
            i = i + 1;
        }
    }

    /// Gives all blocks of some work back.
    pub fn release_all(&mut self, work: &Vec<BlockWork>)
        requires
            old(self).well_formed(),
        ensures
            final(self).well_formed(),
            final(self)@ == queue_given_back(old(self)@, metas_of(work@)),
    {
        let ghost all = self@;
        proof {
            lemma_given_back_nothing(all);
            assert(metas_of(work@.take(0)) =~= Seq::<BlockMeta>::empty());
        }
        for i in 0..work.len()
            invariant
                self.well_formed(),
                self@ == queue_given_back(all, metas_of(work@.take(i as int))),
        {
            self.release(&work[i].block_meta);
            proof {
                let some = metas_of(work@.take(i as int));
                lemma_given_back_twice(all, some, work@[i as int].block_meta);
                assert(metas_of(work@.take(i + 1)) =~= some.push(work@[i as int].block_meta));
            }
        }
        proof {
            assert(work@.take(work@.len() as int) =~= work@);
        }
    }

    /// Takes a piece out, since it is complete.
    pub fn remove(&mut self, piece_index: u32)
        requires
            old(self).well_formed(),
        ensures
            final(self).well_formed(),
            final(self)@ == without_piece(old(self)@, piece_index),
    {
        let ghost all = self@;
        let mut i: usize = 0;
        while i < self.pieces.len()
            invariant_except_break
                i <= all.len(),
                self@ == all,
                self.pieces@.len() == all.len(),
                self.well_formed(),
                forall|j: int| 0 <= j < i ==> (#[trigger] all[j]).piece_index != piece_index,
            ensures
                self.well_formed(),
                (i < all.len() && all[i as int].piece_index == piece_index && self@ == all.remove(
                    i as int,
                )) || (i == all.len() && self@ == all),
                forall|j: int| 0 <= j < i ==> (#[trigger] all[j]).piece_index != piece_index,
            decreases all.len() - i,
        {
            proof {
                assert(self.pieces@[i as int]@ == all[i as int]);
            }
            if self.pieces[i].piece_index == piece_index {
                let ghost held = self.pieces@;
                let removed = self.pieces.remove(i);
                proof {
                    assert(self@ =~= all.remove(i as int));
                    assert forall|j: int| 0 <= j < self.pieces@.len() implies (
                    #[trigger] self.pieces@[j]).valid() by {
                        let j0: int = if j < i { j } else { j + 1 };
                        assert(self.pieces@[j] == held[j0]);
                    }
                    assert forall|j: int| 0 <= j < self@.len() implies blocks_of_piece(
                        (#[trigger] self@[j]).blocks,
                        self@[j].piece_index,
                    ) by {
                        assert(self.pieces@[j].valid());
                    }
                    assert forall|a: int, b: int| 0 <= a < b < self@.len() implies (
                    #[trigger] self@[a]).piece_index < (#[trigger] self@[b]).piece_index by {
                        let a0: int = if a < i { a } else { a + 1 };
                        let b0: int = if b < i { b } else { b + 1 };
                        assert(all[a0].piece_index < all[b0].piece_index);
                    }
                }
                break;
            }
            i = i + 1;
        }
        proof {
            lemma_without_piece(all, piece_index, i as int);
        }
    }

    /// Whether no work is left.
    pub fn is_empty(&self) -> (r: bool)
        ensures
            r == (self@.len() == 0),
    {
        self.pieces.len() == 0
    }
}

pub proof fn lemma_given_back_nothing(pieces: Seq<PieceView>)
    ensures
        queue_given_back(pieces, Seq::empty()) == pieces,
{
    assert forall|i: int| 0 <= i < pieces.len() implies queue_given_back(pieces, Seq::empty())[i]
        == pieces[i] by {
        assert(given_back(pieces[i].blocks, Seq::empty()) =~= pieces[i].blocks);
    }
    assert(queue_given_back(pieces, Seq::empty()) =~= pieces);
}

proof fn lemma_given_back_twice(pieces: Seq<PieceView>, metas: Seq<BlockMeta>, meta: BlockMeta)
    ensures
        queue_given_back(queue_given_back(pieces, metas), seq![meta]) == queue_given_back(
            pieces,
            metas.push(meta),
        ),
{
    let more = metas.push(meta);
    assert forall|m: BlockMeta|
        more.contains(m) == (metas.contains(m) || seq![meta].contains(m)) by {
        if metas.contains(m) {
            let i = choose|i: int| 0 <= i < metas.len() && metas[i] == m;
            assert(more[i] == m);
        }
        if seq![meta].contains(m) {
            assert(more[metas.len() as int] == m);
        }
        if more.contains(m) {
            let i = choose|i: int| 0 <= i < more.len() && more[i] == m;
            if i < metas.len() {
                assert(metas[i] == m);
            } else {
                assert(seq![meta][0] == m);
            }
        }
    }
    let once = queue_given_back(pieces, metas);
    assert forall|i: int| 0 <= i < pieces.len() implies queue_given_back(once, seq![meta])[i]
        == queue_given_back(pieces, more)[i] by {
        assert(given_back(given_back(pieces[i].blocks, metas), seq![meta]) =~= given_back(
            pieces[i].blocks,
            more,
        ));
    }
    assert(queue_given_back(once, seq![meta]) =~= queue_given_back(pieces, more));
}

} // verus!
