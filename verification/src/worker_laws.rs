//! Laws of the work queue: blocks cover their pieces and pieces the torrent, and a block is held
//! by one taker until it is given back.

use vstd::prelude::*;

use crate::types::BlockMeta;
use crate::worker_queue::{
    after_taking, blocks_fit, blocks_of_piece, fresh_blocks, fresh_work, given_back, has_piece,
    metas_of, ordered_pieces, piece_length, queue_after_taking, queue_given_back, queue_taken,
    smaller, taken, BlockSlot, BlockWork, PieceView,
};

verus! {

/// Whether byte `x` of a piece belongs to a block.
pub open spec fn covers(meta: BlockMeta, x: int) -> bool {
    meta.begin <= x < meta.begin + meta.length
}

/// Whether byte `x` of a piece belongs to one of the blocks.
pub open spec fn is_covered(blocks: Seq<BlockSlot>, x: int) -> bool {
    exists|j: int| 0 <= j < blocks.len() && #[trigger] covers(blocks[j].meta, x)
}

/// Whether blocks stand one behind the other, none of them empty, and cover the bytes of a piece
/// of `len` bytes and no others.
pub open spec fn tile(blocks: Seq<BlockSlot>, len: int) -> bool {
    &&& forall|x: int| 0 <= x < len ==> #[trigger] is_covered(blocks, x)
    &&& forall|i: int, j: int|
        0 <= i < j < blocks.len() ==> (#[trigger] blocks[i]).meta.begin + blocks[i].meta.length <= (
        #[trigger] blocks[j]).meta.begin
    &&& forall|j: int|
        0 <= j < blocks.len() ==> 0 < (#[trigger] blocks[j]).meta.length && blocks[j].meta.begin
            + blocks[j].meta.length <= len
}

/// The blocks of a piece cover each of its bytes once and nothing behind it, where they can be
/// counted and placed in 32 bits.
pub proof fn law_blocks_tile_piece(piece_index: u32, len: int, block_len: int)
    requires
        0 < block_len <= u32::MAX,
        len >= 0,
        (len + block_len - 1) / block_len <= u32::MAX,
        blocks_fit(len, block_len),
    ensures
        tile(fresh_blocks(piece_index as int, len, block_len), len),
{
    let blocks = fresh_blocks(piece_index as int, len, block_len);
    let up = (len + block_len - 1) / block_len;
    assert(up >= 0 && up * block_len <= len + block_len - 1 && len <= up * block_len)
        by (nonlinear_arith)
        requires
            up == (len + block_len - 1) / block_len,
            block_len > 0,
            len >= 0,
    ;
    assert(blocks.len() == up);
    assert forall|j: int| 0 <= j < blocks.len() implies (#[trigger] blocks[j]).meta.begin == j
        * block_len && blocks[j].meta.length == smaller(len - j * block_len, block_len) && 0
        <= j * block_len < len by {
        lemma_multiples(j, up - 1, block_len);
        assert((up - 1) * block_len == up * block_len - block_len) by (nonlinear_arith);
    }
    assert forall|x: int| 0 <= x < len implies #[trigger] is_covered(blocks, x) by {
        let j = x / block_len;
        assert(0 <= j < up && j * block_len <= x < j * block_len + block_len) by (nonlinear_arith)
            requires
                j == x / block_len,
                0 <= x < len,
                len <= up * block_len,
                block_len > 0,
        ;
        assert(blocks[j].meta.begin == j * block_len);
        assert(covers(blocks[j].meta, x));
    }
    assert forall|i: int, j: int| 0 <= i < j < blocks.len() implies (
    #[trigger] blocks[i]).meta.begin + blocks[i].meta.length <= (
    #[trigger] blocks[j]).meta.begin by {
        lemma_multiples(i + 1, j, block_len);
        assert((i + 1) * block_len == i * block_len + block_len) by (nonlinear_arith);
    }
}

proof fn lemma_multiples(i: int, j: int, n: int)
    requires
        0 <= i <= j,
        n > 0,
    ensures
        0 <= i * n <= j * n,
{
    assert(0 <= i * n <= j * n) by (nonlinear_arith)
        requires
            0 <= i <= j,
            n > 0,
    ;
}

/// The sum of the lengths of the first `n` pieces.
pub open spec fn pieces_length(total: int, piece_len: int, n: nat) -> int
    decreases n,
{
    if n == 0 {
        0
    } else {
        pieces_length(total, piece_len, (n - 1) as nat) + piece_length(total, piece_len, n - 1)
    }
}

/// The pieces together are as long as the torrent, where there are enough of them; else they are
/// of full length.
pub proof fn law_pieces_cover_torrent(total: int, piece_len: int, n: nat)
    requires
        total >= 0,
        piece_len > 0,
    ensures
        pieces_length(total, piece_len, n) == smaller(total, n * piece_len),
    decreases n,
{
    if n == 0 {
        assert(0 * piece_len == 0) by (nonlinear_arith);
    } else {
        law_pieces_cover_torrent(total, piece_len, (n - 1) as nat);
        assert(n * piece_len == (n - 1) * piece_len + piece_len) by (nonlinear_arith);
        lemma_multiples(n - 1, n as int, piece_len);
    }
}

/// Whether `blocks` after a taking are those before, but for the blocks in `metas`, which are
/// taken now.
pub open spec fn locks(
    before: Seq<BlockSlot>,
    after: Seq<BlockSlot>,
    metas: Seq<BlockMeta>,
) -> bool {
    &&& after.len() == before.len()
    &&& forall|k: int|
        0 <= k < before.len() ==> #[trigger] after[k] == (BlockSlot {
            meta: before[k].meta,
            locked: before[k].locked || metas.contains(before[k].meta),
        })
}

#[verifier::rlimit(40)]
proof fn lemma_taking_from_blocks(blocks: Seq<BlockSlot>, n: int, piece_index: u32)
    requires
        blocks_of_piece(blocks, piece_index),
    ensures
        locks(blocks, after_taking(blocks, n), taken(blocks, n)),
        forall|m: BlockMeta| #[trigger]
            taken(blocks, n).contains(m) ==> blocks.contains(BlockSlot { meta: m, locked: false }),
        taken(blocks, n).no_duplicates(),
        n >= 0 ==> taken(blocks, n).len() <= n,
        n != taken(blocks, n).len() ==> forall|k: int|
            0 <= k < blocks.len() && !(#[trigger] blocks[k]).locked ==> taken(blocks, n).contains(
                blocks[k].meta,
            ),
    decreases blocks.len(),
{
    if blocks.len() > 0 && n != 0 {
        let first = blocks[0];
        let rest = blocks.drop_first();
        let left = if first.locked {
            n
        } else {
            n - 1
        };
        assert(blocks_of_piece(rest, piece_index)) by {
            assert forall|i: int| 0 <= i < rest.len() implies (#[trigger] rest[i]).meta.piece_index
                == piece_index by {
                assert(rest[i] == blocks[i + 1]);
            }
            assert forall|i: int, j: int| 0 <= i < j < rest.len() implies (
            #[trigger] rest[i]).meta.begin < (#[trigger] rest[j]).meta.begin by {
                assert(rest[i] == blocks[i + 1] && rest[j] == blocks[j + 1]);
            }
        }
        lemma_taking_from_blocks(rest, left, piece_index);
        let t = taken(blocks, n);
        let t1 = taken(rest, left);
        let after = after_taking(blocks, n);
        assert forall|m: BlockMeta| t1.contains(m) implies m != first.meta && blocks.contains(
            BlockSlot { meta: m, locked: false },
        ) by {
            let k = choose|k: int|
                0 <= k < rest.len() && rest[k] == (BlockSlot { meta: m, locked: false });
            assert(rest[k] == blocks[k + 1]);
            assert(blocks[0].meta.begin < blocks[k + 1].meta.begin);
        }
        if !first.locked {
            assert(t =~= seq![first.meta] + t1);
            assert(t[0] == first.meta);
            assert forall|m: BlockMeta| t.contains(m) == (m == first.meta || t1.contains(m)) by {
                if t1.contains(m) {
                    let k = choose|k: int| 0 <= k < t1.len() && t1[k] == m;
                    assert(t[k + 1] == m);
                }
                if t.contains(m) && m != first.meta {
                    let k = choose|k: int| 0 <= k < t.len() && t[k] == m;
                    assert(t1[k - 1] == m);
                }
            }
            assert(blocks.contains(BlockSlot { meta: first.meta, locked: false })) by {
                assert(blocks[0] == (BlockSlot { meta: first.meta, locked: false }));
            }
            assert forall|i: int, j: int| 0 <= i < j < t.len() implies t[i] != t[j] by {
                assert(t1.contains(t1[j - 1]));
            }
        }
        assert forall|k: int| 0 <= k < blocks.len() implies #[trigger] after[k] == (BlockSlot {
            meta: blocks[k].meta,
            locked: blocks[k].locked || t.contains(blocks[k].meta),
        }) by {
            if k > 0 {
                assert(after[k] == after_taking(rest, left)[k - 1]);
                assert(rest[k - 1] == blocks[k]);
                assert(blocks[0].meta.begin < blocks[k].meta.begin);
            }
        }
        if n != t.len() {
            assert forall|k: int| 0 <= k < blocks.len() && !(
            #[trigger] blocks[k]).locked implies t.contains(blocks[k].meta) by {
                if k > 0 {
                    assert(rest[k - 1] == blocks[k]);
                }
            }
        }
    }
}

/// Whether a block is free, and of a piece that the peer has.
pub open spec fn is_free(pieces: Seq<PieceView>, peer_pieces: Seq<bool>, m: BlockMeta) -> bool {
    exists|i: int|
        0 <= i < pieces.len() && has_piece(peer_pieces, pieces[i].piece_index) && (
        #[trigger] pieces[i]).blocks.contains(BlockSlot { meta: m, locked: false })
}

/// Taking blocks takes free blocks of pieces that the peer has, each once, no more than asked
/// for, and fewer only where there are no more. Those blocks are held then, and nothing else
/// changes; in particular no block that was held becomes free.
#[verifier::rlimit(40)]
pub proof fn law_taking(pieces: Seq<PieceView>, peer_pieces: Seq<bool>, n: int)
    requires
        ordered_pieces(pieces),
    ensures
        queue_after_taking(pieces, peer_pieces, n).len() == pieces.len(),
        forall|i: int|
            0 <= i < pieces.len() ==> (#[trigger] queue_after_taking(
                pieces,
                peer_pieces,
                n,
            )[i]).piece_index == pieces[i].piece_index && locks(
                pieces[i].blocks,
                queue_after_taking(pieces, peer_pieces, n)[i].blocks,
                queue_taken(pieces, peer_pieces, n),
            ),
        forall|m: BlockMeta| #[trigger]
            queue_taken(pieces, peer_pieces, n).contains(m) ==> is_free(pieces, peer_pieces, m),
        queue_taken(pieces, peer_pieces, n).no_duplicates(),
        n >= 0 ==> queue_taken(pieces, peer_pieces, n).len() <= n,
        n != queue_taken(pieces, peer_pieces, n).len() ==> forall|m: BlockMeta| #[trigger]
            is_free(pieces, peer_pieces, m) ==> queue_taken(pieces, peer_pieces, n).contains(m),
    decreases pieces.len(),
{
    if pieces.len() > 0 && n != 0 {
        let first = pieces[0];
        let rest = pieces.drop_first();
        let has = has_piece(peer_pieces, first.piece_index);
        let t0 = if has {
            taken(first.blocks, n)
        } else {
            Seq::empty()
        };
        let left = n - t0.len();
        let after = queue_after_taking(pieces, peer_pieces, n);
        let after1 = queue_after_taking(rest, peer_pieces, left);
        let t = queue_taken(pieces, peer_pieces, n);
        let t1 = queue_taken(rest, peer_pieces, left);
        assert(ordered_pieces(rest)) by {
            assert forall|i: int| 0 <= i < rest.len() implies blocks_of_piece(
                (#[trigger] rest[i]).blocks,
                rest[i].piece_index,
            ) by {
                assert(rest[i] == pieces[i + 1]);
            }
            assert forall|i: int, j: int| 0 <= i < j < rest.len() implies (
            #[trigger] rest[i]).piece_index < (#[trigger] rest[j]).piece_index by {
                assert(rest[i] == pieces[i + 1] && rest[j] == pieces[j + 1]);
            }
        }
        law_taking(rest, peer_pieces, left);
        if has {
            lemma_taking_from_blocks(first.blocks, n, first.piece_index);
        }
        assert(t =~= t0 + t1);
        assert forall|m: BlockMeta| #[trigger] t.contains(m) == (t0.contains(m) || t1.contains(
            m,
        )) by {
            lemma_contains_concat(t0, t1, m);
        }
        // Blocks of the first piece are told from the others by their piece.
        assert forall|m: BlockMeta| #[trigger] t0.contains(m) implies m.piece_index
            == first.piece_index by {
            let k = choose|k: int|
                0 <= k < first.blocks.len() && first.blocks[k] == (BlockSlot {
                    meta: m,
                    locked: false,
                });
            assert(first.blocks[k].meta.piece_index == first.piece_index);
        }
        assert forall|m: BlockMeta| #[trigger] t1.contains(m) implies m.piece_index
            != first.piece_index by {
            let i = choose|i: int|
                0 <= i < rest.len() && has_piece(peer_pieces, rest[i].piece_index) && (
                #[trigger] rest[i]).blocks.contains(BlockSlot { meta: m, locked: false });
            let k = choose|k: int|
                0 <= k < rest[i].blocks.len() && rest[i].blocks[k] == (BlockSlot {
                    meta: m,
                    locked: false,
                });
            assert(rest[i].blocks[k].meta.piece_index == rest[i].piece_index);
            assert(pieces[i + 1] == rest[i]);
            assert(pieces[0].piece_index < pieces[i + 1].piece_index);
        }
        assert forall|i: int| 0 <= i < pieces.len() implies (
        #[trigger] after[i]).piece_index == pieces[i].piece_index && locks(
            pieces[i].blocks,
            after[i].blocks,
            t,
        ) by {
            let blocks = pieces[i].blocks;
            assert(blocks_of_piece(blocks, pieces[i].piece_index));
            if i > 0 {
                assert(rest[i - 1] == pieces[i]);
                assert(after[i] == after1[i - 1]);
                assert(pieces[0].piece_index < pieces[i].piece_index);
                assert forall|k: int| 0 <= k < blocks.len() implies #[trigger] after[i].blocks[k]
                    == (BlockSlot {
                    meta: blocks[k].meta,
                    locked: blocks[k].locked || t.contains(blocks[k].meta),
                }) by {
                    assert(blocks[k].meta.piece_index == pieces[i].piece_index);
                }
            } else {
                assert forall|k: int| 0 <= k < blocks.len() implies #[trigger] after[i].blocks[k]
                    == (BlockSlot {
                    meta: blocks[k].meta,
                    locked: blocks[k].locked || t.contains(blocks[k].meta),
                }) by {
                    assert(blocks[k].meta.piece_index == first.piece_index);
                }
            }
        }
        assert forall|m: BlockMeta| #[trigger] t.contains(m) implies is_free(
            pieces,
            peer_pieces,
            m,
        ) by {
            if t0.contains(m) {
                assert(pieces[0].blocks.contains(BlockSlot { meta: m, locked: false }));
            } else {
                let i = choose|i: int|
                    0 <= i < rest.len() && has_piece(peer_pieces, rest[i].piece_index) && (
                    #[trigger] rest[i]).blocks.contains(BlockSlot { meta: m, locked: false });
                assert(pieces[i + 1] == rest[i]);
            }
        }
        assert forall|i: int, j: int| 0 <= i < j < t.len() implies t[i] != t[j] by {
            if i < t0.len() && j >= t0.len() {
                assert(t0.contains(t0[i]));
                assert(t1.contains(t1[j - t0.len()]));
            } else if j < t0.len() {
                assert(t[i] == t0[i] && t[j] == t0[j]);
            } else {
                assert(t[i] == t1[i - t0.len()] && t[j] == t1[j - t0.len()]);
            }
        }
        if n != t.len() {
            assert forall|m: BlockMeta| #[trigger] is_free(
                pieces,
                peer_pieces,
                m,
            ) implies t.contains(m) by {
                let i = choose|i: int|
                    0 <= i < pieces.len() && has_piece(peer_pieces, pieces[i].piece_index) && (
                    #[trigger] pieces[i]).blocks.contains(BlockSlot { meta: m, locked: false });
                let slot = BlockSlot { meta: m, locked: false };
                if i == 0 {
                    let k = choose|k: int| 0 <= k < first.blocks.len() && first.blocks[k] == slot;
                    assert(!first.blocks[k].locked);
                    if n == t0.len() {
                        assert(t1 =~= Seq::<BlockMeta>::empty());
                    }
                } else {
                    assert(rest[i - 1] == pieces[i]);
                    assert(is_free(rest, peer_pieces, m));
                }
            }
        }
    }
}

/// What is in two sequences one behind the other is in one of them.
pub proof fn lemma_contains_concat(a: Seq<BlockMeta>, b: Seq<BlockMeta>, m: BlockMeta)
    ensures
        (a + b).contains(m) == (a.contains(m) || b.contains(m)),
{
    if a.contains(m) {
        let k = choose|k: int| 0 <= k < a.len() && a[k] == m;
        assert((a + b)[k] == m);
    }
    if b.contains(m) {
        let k = choose|k: int| 0 <= k < b.len() && b[k] == m;
        assert((a + b)[k + a.len()] == m);
    }
    if (a + b).contains(m) {
        let k = choose|k: int| 0 <= k < (a + b).len() && (a + b)[k] == m;
        if k < a.len() {
            assert(a[k] == m);
        } else {
            assert(b[k - a.len()] == m);
        }
    }
}

/// No two slots of a queue are for one block.
pub proof fn lemma_one_slot(pieces: Seq<PieceView>, i: int, k: int, i0: int, k0: int)
    requires
        ordered_pieces(pieces),
        0 <= i < pieces.len(),
        0 <= i0 < pieces.len(),
        0 <= k < pieces[i].blocks.len(),
        0 <= k0 < pieces[i0].blocks.len(),
        pieces[i].blocks[k].meta == pieces[i0].blocks[k0].meta,
    ensures
        i == i0,
        k == k0,
{
    let a = pieces[i].blocks;
    let b = pieces[i0].blocks;
    assert(blocks_of_piece(a, pieces[i].piece_index));
    assert(blocks_of_piece(b, pieces[i0].piece_index));
    assert(a[k].meta.piece_index == pieces[i].piece_index);
    assert(b[k0].meta.piece_index == pieces[i0].piece_index);
    if i0 < i {
        assert(pieces[i0].piece_index < pieces[i].piece_index);
    } else if i < i0 {
        assert(pieces[i].piece_index < pieces[i0].piece_index);
    } else if k0 < k {
        assert(a[k0].meta.begin < a[k].meta.begin);
    } else if k < k0 {
        assert(a[k].meta.begin < a[k0].meta.begin);
    }
}

/// Giving back the blocks that were taken undoes the taking.
pub proof fn law_giving_back_undoes_taking(
    pieces: Seq<PieceView>,
    peer_pieces: Seq<bool>,
    n: int,
)
    requires
        ordered_pieces(pieces),
    ensures
        queue_given_back(
            queue_after_taking(pieces, peer_pieces, n),
            queue_taken(pieces, peer_pieces, n),
        ) == pieces,
{
    law_taking(pieces, peer_pieces, n);
    let after = queue_after_taking(pieces, peer_pieces, n);
    let t = queue_taken(pieces, peer_pieces, n);
    let back = queue_given_back(after, t);
    assert forall|i: int| 0 <= i < pieces.len() implies back[i] == pieces[i] by {
        let blocks = pieces[i].blocks;
        assert(after[i].piece_index == pieces[i].piece_index);
        assert(locks(blocks, after[i].blocks, t));
        let restored = given_back(after[i].blocks, t);
        assert forall|k: int| 0 <= k < blocks.len() implies restored[k] == blocks[k] by {
            assert(after[i].blocks[k].meta == blocks[k].meta);
            let m = blocks[k].meta;
            if t.contains(m) && blocks[k].locked {
                // A block that was taken had been free, and there is no other of its place.
                assert(is_free(pieces, peer_pieces, m));
                let i0 = choose|i0: int|
                    0 <= i0 < pieces.len() && has_piece(peer_pieces, pieces[i0].piece_index) && (
                    #[trigger] pieces[i0]).blocks.contains(BlockSlot { meta: m, locked: false });
                let b0 = pieces[i0].blocks;
                let k0 = choose|k0: int|
                    0 <= k0 < b0.len() && b0[k0] == (BlockSlot { meta: m, locked: false });
                lemma_one_slot(pieces, i, k, i0, k0);
            }
        }
        assert(restored =~= blocks);
    }
    assert(back =~= pieces);
}

/// Whether a block stands in front of another in a torrent.
pub open spec fn in_front(a: BlockMeta, b: BlockMeta) -> bool {
    a.piece_index < b.piece_index || (a.piece_index == b.piece_index && a.begin < b.begin)
}

proof fn lemma_taken_in_order(blocks: Seq<BlockSlot>, n: int, piece_index: u32)
    requires
        blocks_of_piece(blocks, piece_index),
    ensures
        forall|a: int, b: int|
            0 <= a < b < taken(blocks, n).len() ==> in_front(
                #[trigger] taken(blocks, n)[a],
                #[trigger] taken(blocks, n)[b],
            ),
        forall|m: BlockMeta, k: int| #[trigger]
            taken(blocks, n).contains(m) && 0 <= k < blocks.len() && !(#[trigger] blocks[k]).locked
                && blocks[k].meta.begin < m.begin ==> taken(blocks, n).contains(blocks[k].meta),
    decreases blocks.len(),
{
    if blocks.len() > 0 && n != 0 {
        let first = blocks[0];
        let rest = blocks.drop_first();
        let left = if first.locked {
            n
        } else {
            n - 1
        };
        assert(blocks_of_piece(rest, piece_index)) by {
            assert forall|i: int| 0 <= i < rest.len() implies (#[trigger] rest[i]).meta.piece_index
                == piece_index by {
                assert(rest[i] == blocks[i + 1]);
            }
            assert forall|i: int, j: int| 0 <= i < j < rest.len() implies (
            #[trigger] rest[i]).meta.begin < (#[trigger] rest[j]).meta.begin by {
                assert(rest[i] == blocks[i + 1] && rest[j] == blocks[j + 1]);
            }
        }
        lemma_taken_in_order(rest, left, piece_index);
        lemma_taking_from_blocks(rest, left, piece_index);
        let t = taken(blocks, n);
        let t1 = taken(rest, left);
        assert forall|m: BlockMeta| #[trigger] t1.contains(m) implies in_front(first.meta, m) by {
            let slot = BlockSlot { meta: m, locked: false };
            let k = choose|k: int| 0 <= k < rest.len() && rest[k] == slot;
            assert(rest[k] == blocks[k + 1]);
            assert(blocks[0].meta.begin < blocks[k + 1].meta.begin);
            assert(blocks[k + 1].meta.piece_index == piece_index);
        }
        if !first.locked {
            assert(t =~= seq![first.meta] + t1);
            assert(t[0] == first.meta);
            assert forall|m: BlockMeta| #[trigger] t.contains(m) == (m == first.meta || t1.contains(
                m,
            )) by {
                lemma_contains_concat(seq![first.meta], t1, m);
                assert(seq![first.meta][0] == first.meta);
            }
        }
        assert forall|a: int, b: int| 0 <= a < b < t.len() implies in_front(
            #[trigger] t[a],
            #[trigger] t[b],
        ) by {
            if !first.locked {
                assert(t1.contains(t1[b - 1]));
                if a > 0 {
                    assert(t[a] == t1[a - 1] && t[b] == t1[b - 1]);
                }
            }
        }
        assert forall|m: BlockMeta, k: int| #[trigger]
            t.contains(m) && 0 <= k < blocks.len() && !(#[trigger] blocks[k]).locked
                && blocks[k].meta.begin < m.begin implies t.contains(blocks[k].meta) by {
            if k > 0 {
                assert(rest[k - 1] == blocks[k]);
                assert(blocks[0].meta.begin < blocks[k].meta.begin);
                assert(t1.contains(m));
            }
        }
    }
}

/// Blocks are taken from the front: they come in the order in which they stand in the torrent, and
/// no free block of a piece that the peer has is left in front of one that is taken.
#[verifier::rlimit(40)]
pub proof fn law_taking_goes_in_order(pieces: Seq<PieceView>, peer_pieces: Seq<bool>, n: int)
    requires
        ordered_pieces(pieces),
    ensures
        forall|a: int, b: int|
            0 <= a < b < queue_taken(pieces, peer_pieces, n).len() ==> in_front(
                #[trigger] queue_taken(pieces, peer_pieces, n)[a],
                #[trigger] queue_taken(pieces, peer_pieces, n)[b],
            ),
        forall|m: BlockMeta, free: BlockMeta| #[trigger]
            queue_taken(pieces, peer_pieces, n).contains(m) && #[trigger] is_free(
                pieces,
                peer_pieces,
                free,
            ) && in_front(free, m) ==> queue_taken(pieces, peer_pieces, n).contains(free),
    decreases pieces.len(),
{
    if pieces.len() > 0 && n != 0 {
        let first = pieces[0];
        let rest = pieces.drop_first();
        let has = has_piece(peer_pieces, first.piece_index);
        let t0 = if has {
            taken(first.blocks, n)
        } else {
            Seq::empty()
        };
        let left = n - t0.len();
        let t = queue_taken(pieces, peer_pieces, n);
        let t1 = queue_taken(rest, peer_pieces, left);
        assert(ordered_pieces(rest)) by {
            assert forall|i: int| 0 <= i < rest.len() implies blocks_of_piece(
                (#[trigger] rest[i]).blocks,
                rest[i].piece_index,
            ) by {
                assert(rest[i] == pieces[i + 1]);
            }
            assert forall|i: int, j: int| 0 <= i < j < rest.len() implies (
            #[trigger] rest[i]).piece_index < (#[trigger] rest[j]).piece_index by {
                assert(rest[i] == pieces[i + 1] && rest[j] == pieces[j + 1]);
            }
        }
        law_taking_goes_in_order(rest, peer_pieces, left);
        law_taking(rest, peer_pieces, left);
        if has {
            lemma_taking_from_blocks(first.blocks, n, first.piece_index);
            lemma_taken_in_order(first.blocks, n, first.piece_index);
        }
        assert(t =~= t0 + t1);
        assert forall|m: BlockMeta| #[trigger] t.contains(m) == (t0.contains(m) || t1.contains(
            m,
        )) by {
            lemma_contains_concat(t0, t1, m);
        }
        assert forall|m: BlockMeta| #[trigger] t0.contains(m) implies m.piece_index
            == first.piece_index by {
            let slot = BlockSlot { meta: m, locked: false };
            let k = choose|k: int| 0 <= k < first.blocks.len() && first.blocks[k] == slot;
            assert(first.blocks[k].meta.piece_index == first.piece_index);
        }
        assert forall|m: BlockMeta| #[trigger]
            is_free(rest, peer_pieces, m) implies first.piece_index < m.piece_index by {
            let slot = BlockSlot { meta: m, locked: false };
            let i = choose|i: int|
                0 <= i < rest.len() && has_piece(peer_pieces, rest[i].piece_index) && (
                #[trigger] rest[i]).blocks.contains(slot);
            let k = choose|k: int| 0 <= k < rest[i].blocks.len() && rest[i].blocks[k] == slot;
            assert(rest[i].blocks[k].meta.piece_index == rest[i].piece_index);
            assert(pieces[i + 1] == rest[i]);
            assert(pieces[0].piece_index < pieces[i + 1].piece_index);
        }
        assert forall|a: int, b: int| 0 <= a < b < t.len() implies in_front(
            #[trigger] t[a],
            #[trigger] t[b],
        ) by {
            if b < t0.len() {
                assert(t[a] == t0[a] && t[b] == t0[b]);
            } else if a < t0.len() {
                assert(t[a] == t0[a] && t[b] == t1[b - t0.len()]);
                assert(t0.contains(t0[a]));
                assert(t1.contains(t1[b - t0.len()]));
            } else {
                assert(t[a] == t1[a - t0.len()] && t[b] == t1[b - t0.len()]);
            }
        }
        assert forall|m: BlockMeta, free: BlockMeta| #[trigger]
            t.contains(m) && #[trigger] is_free(pieces, peer_pieces, free) && in_front(
                free,
                m,
            ) implies t.contains(free) by {
            let slot = BlockSlot { meta: free, locked: false };
            let i = choose|i: int|
                0 <= i < pieces.len() && has_piece(peer_pieces, pieces[i].piece_index) && (
                #[trigger] pieces[i]).blocks.contains(slot);
            if i == 0 {
                let k = choose|k: int| 0 <= k < first.blocks.len() && first.blocks[k] == slot;
                assert(!first.blocks[k].locked);
                assert(first.blocks[k].meta.piece_index == first.piece_index);
                if t0.contains(m) {
                    assert(first.blocks[k].meta.begin < m.begin);
                } else {
                    assert(t1.contains(m));
                    assert(left != 0);
                }
            } else {
                assert(rest[i - 1] == pieces[i]);
                assert(is_free(rest, peer_pieces, free));
                assert(t1.contains(m));
            }
        }
    }
}

/// Work that is taken is for the blocks that were taken, in their order, and has not been
/// requested.
pub proof fn law_fresh_work_is_for_its_blocks(metas: Seq<BlockMeta>, work: Seq<BlockWork>)
    ensures
        fresh_work(metas).len() == metas.len(),
        forall|i: int|
            0 <= i < metas.len() ==> (#[trigger] fresh_work(metas)[i]).block_meta == metas[i]
                && !fresh_work(metas)[i].requested,
        metas_of(work).len() == work.len(),
        forall|i: int|
            0 <= i < work.len() ==> #[trigger] metas_of(work)[i] == work[i].block_meta,
{
}

/// Giving blocks back frees those that are given back, and leaves every other block, and all
/// pieces, as they were.
pub proof fn law_giving_back(pieces: Seq<PieceView>, metas: Seq<BlockMeta>, i: int, k: int)
    requires
        0 <= i < pieces.len(),
        0 <= k < pieces[i].blocks.len(),
    ensures
        ({
            let after = queue_given_back(pieces, metas);
            let slot = pieces[i].blocks[k];
            &&& after.len() == pieces.len()
            &&& after[i].piece_index == pieces[i].piece_index
            &&& after[i].blocks.len() == pieces[i].blocks.len()
            &&& metas.contains(slot.meta) ==> after[i].blocks[k] == (BlockSlot {
                meta: slot.meta,
                locked: false,
            })
            &&& !metas.contains(slot.meta) ==> after[i].blocks[k] == slot
        }),
{
}

} // verus!
