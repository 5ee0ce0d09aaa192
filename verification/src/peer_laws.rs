//! Laws of the connections with peers.

use vstd::prelude::*;

use crate::peer_connection::{
    all_requested, only_requested, only_state, place_of, reaction, to_request, turn_state,
    PeerConnectionError, Reaction, StateView,
};
use crate::tcp_peer_communicator::received;
use crate::types::{BlockMeta, Content};
use crate::worker_laws::{
    is_free, law_giving_back_undoes_taking, law_taking, lemma_one_slot, locks,
};
use crate::worker_queue::{
    blocks_of_piece, fresh_work, has_piece, lemma_without_piece, metas_of, ordered_pieces,
    queue_after_taking, queue_given_back, queue_taken, without_piece, BlockSlot, BlockWork,
    PieceView,
};

verus! {

/// The bit field that we send tells a peer of the same torrent exactly which pieces we have: the
/// padding that comes with it is cut off.
pub proof fn law_bit_field_reaches_peer(state: StateView, bits: Seq<bool>, padding: Seq<bool>)
    requires
        state.peer_pieces.len() == bits.len(),
    ensures
        reaction(state, received(Content::BitField(bits, padding))) == Ok::<
            Reaction,
            PeerConnectionError,
        >(only_state(StateView { peer_pieces: bits, ..state })),
{
    assert((bits + padding).take(bits.len() as int) =~= bits);
}

/// Whether a block is held by somebody.
pub open spec fn is_held(pieces: Seq<PieceView>, m: BlockMeta) -> bool {
    exists|i: int|
        0 <= i < pieces.len() && (#[trigger] pieces[i]).blocks.contains(
            BlockSlot { meta: m, locked: true },
        )
}

/// No block is held by two peers: taking blocks for a peer takes none that is held, and all that
/// were held stay so, as do those that are taken.
pub proof fn law_blocks_are_not_shared(
    pieces: Seq<PieceView>,
    peer_pieces: Seq<bool>,
    n: int,
    m: BlockMeta,
)
    requires
        ordered_pieces(pieces),
    ensures
        is_held(pieces, m) ==> !queue_taken(pieces, peer_pieces, n).contains(m),
        is_held(pieces, m) || queue_taken(pieces, peer_pieces, n).contains(m) ==> is_held(
            queue_after_taking(pieces, peer_pieces, n),
            m,
        ),
{
    law_taking(pieces, peer_pieces, n);
    let after = queue_after_taking(pieces, peer_pieces, n);
    let t = queue_taken(pieces, peer_pieces, n);
    let free = BlockSlot { meta: m, locked: false };
    let held = BlockSlot { meta: m, locked: true };
    if is_held(pieces, m) {
        let i = choose|i: int|
            0 <= i < pieces.len() && (#[trigger] pieces[i]).blocks.contains(held);
        let k = choose|k: int| 0 <= k < pieces[i].blocks.len() && pieces[i].blocks[k] == held;
        assert(after[i].piece_index == pieces[i].piece_index);
        assert(locks(pieces[i].blocks, after[i].blocks, t));
        assert(after[i].blocks[k] == held);
        assert(after[i].blocks.contains(held));
        if t.contains(m) {
            assert(is_free(pieces, peer_pieces, m));
            let i0 = choose|i0: int|
                0 <= i0 < pieces.len() && has_piece(peer_pieces, pieces[i0].piece_index) && (
                #[trigger] pieces[i0]).blocks.contains(free);
            let k0 = choose|k0: int|
                0 <= k0 < pieces[i0].blocks.len() && pieces[i0].blocks[k0] == free;
            lemma_one_slot(pieces, i, k, i0, k0);
        }
    } else if t.contains(m) {
        assert(is_free(pieces, peer_pieces, m));
        let i = choose|i: int|
            0 <= i < pieces.len() && has_piece(peer_pieces, pieces[i].piece_index) && (
            #[trigger] pieces[i]).blocks.contains(free);
        let k = choose|k: int| 0 <= k < pieces[i].blocks.len() && pieces[i].blocks[k] == free;
        assert(after[i].piece_index == pieces[i].piece_index);
        assert(locks(pieces[i].blocks, after[i].blocks, t));
        assert(after[i].blocks[k] == held);
        assert(after[i].blocks.contains(held));
    }
}

/// Giving blocks back frees those blocks and no others.
pub proof fn law_giving_back_frees_no_other(
    pieces: Seq<PieceView>,
    metas: Seq<BlockMeta>,
    m: BlockMeta,
)
    ensures
        is_held(queue_given_back(pieces, metas), m) <==> is_held(pieces, m) && !metas.contains(m),
{
    let after = queue_given_back(pieces, metas);
    let held = BlockSlot { meta: m, locked: true };
    if is_held(after, m) {
        let i = choose|i: int| 0 <= i < after.len() && (#[trigger] after[i]).blocks.contains(held);
        let k = choose|k: int| 0 <= k < after[i].blocks.len() && after[i].blocks[k] == held;
        assert(pieces[i].blocks[k] == held);
        assert(pieces[i].blocks.contains(held));
    }
    if is_held(pieces, m) && !metas.contains(m) {
        let i = choose|i: int|
            0 <= i < pieces.len() && (#[trigger] pieces[i]).blocks.contains(held);
        let k = choose|k: int| 0 <= k < pieces[i].blocks.len() && pieces[i].blocks[k] == held;
        assert(after[i].blocks[k] == held);
        assert(after[i].blocks.contains(held));
    }
}

/// A piece that leaves the queue takes its own blocks with it and no others.
pub proof fn law_completing_keeps_other_blocks(
    pieces: Seq<PieceView>,
    piece_index: u32,
    m: BlockMeta,
)
    requires
        ordered_pieces(pieces),
    ensures
        is_held(without_piece(pieces, piece_index), m) <==> is_held(pieces, m) && m.piece_index
            != piece_index,
{
    let after = without_piece(pieces, piece_index);
    let held = BlockSlot { meta: m, locked: true };
    let i = place_of_piece(pieces, piece_index);
    lemma_place_of_piece(pieces, piece_index);
    lemma_without_piece(pieces, piece_index, i);
    if is_held(after, m) {
        let j = choose|j: int| 0 <= j < after.len() && (#[trigger] after[j]).blocks.contains(held);
        let j0: int = if j < i { j } else { j + 1 };
        assert(after[j] == pieces[j0]);
        let k = choose|k: int| 0 <= k < after[j].blocks.len() && after[j].blocks[k] == held;
        assert(blocks_of_piece(pieces[j0].blocks, pieces[j0].piece_index));
        assert(pieces[j0].blocks[k].meta.piece_index == pieces[j0].piece_index);
        if i < j0 && i < pieces.len() {
            assert(pieces[i].piece_index < pieces[j0].piece_index);
        }
    }
    if is_held(pieces, m) && m.piece_index != piece_index {
        let j = choose|j: int|
            0 <= j < pieces.len() && (#[trigger] pieces[j]).blocks.contains(held);
        let k = choose|k: int| 0 <= k < pieces[j].blocks.len() && pieces[j].blocks[k] == held;
        assert(blocks_of_piece(pieces[j].blocks, pieces[j].piece_index));
        assert(pieces[j].blocks[k].meta.piece_index == pieces[j].piece_index);
        let j1: int = if j < i { j } else { j - 1 };
        assert(after[j1] == pieces[j]);
    }
}

/// Where a piece is in a queue, or the length of the queue.
pub open spec fn place_of_piece(pieces: Seq<PieceView>, piece_index: u32) -> int
    decreases pieces.len(),
{
    if pieces.len() == 0 || pieces[0].piece_index == piece_index {
        0
    } else {
        1 + place_of_piece(pieces.drop_first(), piece_index)
    }
}

pub proof fn lemma_place_of_piece(pieces: Seq<PieceView>, piece_index: u32)
    ensures
        0 <= place_of_piece(pieces, piece_index) <= pieces.len(),
        place_of_piece(pieces, piece_index) < pieces.len() ==> pieces[place_of_piece(
            pieces,
            piece_index,
        )].piece_index == piece_index,
        forall|j: int|
            0 <= j < place_of_piece(pieces, piece_index) ==> (#[trigger] pieces[j]).piece_index
                != piece_index,
    decreases pieces.len(),
{
    if pieces.len() > 0 && pieces[0].piece_index != piece_index {
        let rest = pieces.drop_first();
        lemma_place_of_piece(rest, piece_index);
        assert forall|j: int| 0 <= j < place_of_piece(pieces, piece_index) implies (
        #[trigger] pieces[j]).piece_index != piece_index by {
            if j > 0 {
                assert(rest[j - 1] == pieces[j]);
            }
        }
    }
}

/// A block that has been delivered stays held, so that no peer is asked for it again: its delivery
/// gives nothing back to the queue.
pub proof fn law_delivered_block_stays_held(state: StateView, meta: BlockMeta, data: Seq<u8>)
    ensures
        reaction(state, Content::Piece(meta, data)) matches Ok(r) && r.returned.len() == 0 && (
        r.delivered is Some ==> r.delivered == Some((meta, data)) && r.state.block_queue.len() + 1
            == state.block_queue.len()) && (r.delivered is None ==> r.state == state),
{
    lemma_place_of(state.block_queue, meta);
}

/// The first item for a block is at its place, and there is none where that is behind the end.
pub proof fn lemma_place_of(work: Seq<BlockWork>, meta: BlockMeta)
    ensures
        0 <= place_of(work, meta) <= work.len(),
        place_of(work, meta) < work.len() ==> work[place_of(work, meta)].block_meta == meta,
        forall|j: int|
            0 <= j < place_of(work, meta) ==> (#[trigger] work[j]).block_meta != meta,
    decreases work.len(),
{
    if work.len() > 0 && work[0].block_meta != meta {
        let rest = work.drop_first();
        lemma_place_of(rest, meta);
        assert forall|j: int| 0 <= j < place_of(work, meta) implies (
        #[trigger] work[j]).block_meta != meta by {
            if j > 0 {
                assert(rest[j - 1] == work[j]);
            }
        }
    }
}

/// A connection that ends with the blocks that it began with leaves the queue as it was.
pub proof fn law_ended_connection_leaves_no_trace(
    pieces: Seq<PieceView>,
    peer_pieces: Seq<bool>,
    n: int,
)
    requires
        ordered_pieces(pieces),
    ensures
        queue_given_back(
            queue_after_taking(pieces, peer_pieces, n),
            metas_of(fresh_work(queue_taken(pieces, peer_pieces, n))),
        ) == pieces,
{
    let t = queue_taken(pieces, peer_pieces, n);
    assert(metas_of(fresh_work(t)) =~= t);
    law_giving_back_undoes_taking(pieces, peer_pieces, n);
}

/// A block is requested once: a turn in which the peer does not refuse leaves nothing to request.
pub proof fn law_blocks_are_requested_once(
    state: StateView,
    keepalive_due: bool,
    completed: Option<u32>,
    coin: bool,
)
    requires
        !state.am_choked,
    ensures
        to_request(turn_state(state, keepalive_due, completed, coin)).len() == 0,
{
    lemma_all_requested(state.block_queue);
}

proof fn lemma_all_requested(work: Seq<BlockWork>)
    ensures
        only_requested(all_requested(work), false).len() == 0,
    decreases work.len(),
{
    if work.len() > 0 {
        lemma_all_requested(work.drop_last());
        assert(all_requested(work).drop_last() =~= all_requested(work.drop_last()));
    }
}

/// A peer that refuses our requests gets none.
pub proof fn law_choked_peer_gets_no_requests(state: StateView)
    requires
        state.am_choked,
    ensures
        to_request(state).len() == 0,
{
}

/// A choke loses no block: each one that we had taken is either kept, unrequested, or given back,
/// as those are that had been requested.
pub proof fn law_choke_loses_no_block(state: StateView, w: BlockWork)
    requires
        state.block_queue.contains(w),
    ensures
        reaction(state, Content::Choke) matches Ok(r) && r.state.am_choked && (if w.requested {
            r.returned.contains(w.block_meta)
        } else {
            r.state.block_queue.contains(w)
        }) && to_request(r.state).len() == 0,
{
    lemma_sorted_out(state.block_queue, w);
    let out = only_requested(state.block_queue, true);
    if w.requested {
        let k = choose|k: int| 0 <= k < out.len() && out[k] == w;
        assert(metas_of(out)[k] == w.block_meta);
    }
}

proof fn lemma_sorted_out(work: Seq<BlockWork>, w: BlockWork)
    requires
        work.contains(w),
    ensures
        only_requested(work, w.requested).contains(w),
    decreases work.len(),
{
    let out = only_requested(work, w.requested);
    let init = only_requested(work.drop_last(), w.requested);
    let k = choose|k: int| 0 <= k < work.len() && work[k] == w;
    if k == work.len() - 1 {
        assert(out.last() == w);
    } else {
        assert(work.drop_last()[k] == w);
        lemma_sorted_out(work.drop_last(), w);
        let j = choose|j: int| 0 <= j < init.len() && init[j] == w;
        assert(out[j] == w);
    }
}

/// A piece that is complete leaves the queue, and every other piece stays in it as it was, with all
/// its blocks, taken or free, and in its order.
pub proof fn law_completing_removes_one_piece(pieces: Seq<PieceView>, piece_index: u32)
    requires
        ordered_pieces(pieces),
    ensures
        ({
            let after = without_piece(pieces, piece_index);
            &&& ordered_pieces(after)
            &&& forall|j: int|
                0 <= j < pieces.len() && (#[trigger] pieces[j]).piece_index != piece_index
                    ==> after.contains(pieces[j])
            &&& forall|j: int|
                0 <= j < after.len() ==> (#[trigger] after[j]).piece_index != piece_index
                    && pieces.contains(after[j])
        }),
{
    let after = without_piece(pieces, piece_index);
    let i = place_of_piece(pieces, piece_index);
    lemma_place_of_piece(pieces, piece_index);
    lemma_without_piece(pieces, piece_index, i);
    assert forall|j: int| 0 <= j < pieces.len() && j != i implies (
    #[trigger] pieces[j]).piece_index != piece_index by {
        if j > i {
            assert(pieces[i].piece_index < pieces[j].piece_index);
        }
    }
    assert forall|j: int|
        0 <= j < pieces.len() && (#[trigger] pieces[j]).piece_index
            != piece_index implies after.contains(pieces[j]) by {
        let j1: int = if j < i { j } else { j - 1 };
        assert(after[j1] == pieces[j]);
    }
    assert forall|j: int| 0 <= j < after.len() implies (#[trigger] after[j]).piece_index
        != piece_index && pieces.contains(after[j]) by {
        let j0: int = if j < i { j } else { j + 1 };
        assert(after[j] == pieces[j0]);
    }
    assert forall|j: int| 0 <= j < after.len() implies blocks_of_piece(
        (#[trigger] after[j]).blocks,
        after[j].piece_index,
    ) by {
        let j0: int = if j < i { j } else { j + 1 };
        assert(after[j] == pieces[j0]);
    }
    assert forall|a: int, b: int| 0 <= a < b < after.len() implies (
    #[trigger] after[a]).piece_index < (#[trigger] after[b]).piece_index by {
        let a0: int = if a < i { a } else { a + 1 };
        let b0: int = if b < i { b } else { b + 1 };
        assert(pieces[a0].piece_index < pieces[b0].piece_index);
    }
}

} // verus!
