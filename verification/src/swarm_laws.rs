//! Laws of a client's connections over time: blocks are held by one connection each, no block is
//! requested twice without a choke in between, and each request has its reasons.

use vstd::prelude::*;

use crate::download::holds_piece;
use crate::peer_connection::{
    all_requested, only_requested, place_of, StateView, PIPELINE_AMOUNT,
};
use crate::peer_laws::{
    is_held, law_blocks_are_not_shared, law_completing_keeps_other_blocks,
    law_giving_back_frees_no_other, lemma_place_of, lemma_place_of_piece, place_of_piece,
};
use crate::swarm::{effect, Action};
use crate::types::{BlockMeta, Content};
use crate::worker_laws::{is_free, law_taking, lemma_contains_concat, lemma_one_slot, locks};
use crate::worker_queue::{
    blocks_of_piece, fresh_work, given_back, has_piece, lemma_given_back_nothing,
    lemma_without_piece, metas_of, ordered_pieces, queue_after_taking, queue_given_back,
    queue_taken, without_piece, BlockSlot, BlockWork, PieceView,
};

verus! {

/// Whether nobody can take a block: it is held, or its piece has left the queue.
pub open spec fn reserved(queue: Seq<PieceView>, m: BlockMeta) -> bool {
    is_held(queue, m) || !holds_piece(queue, m.piece_index as int)
}

/// Whether a connection has taken a block.
pub open spec fn takes(state: StateView, m: BlockMeta) -> bool {
    metas_of(state.block_queue).contains(m)
}

/// Whether a connection waits for a block that it has requested.
pub open spec fn waits_for(state: StateView, m: BlockMeta) -> bool {
    state.block_queue.contains(BlockWork { block_meta: m, requested: true })
}

/// Whether the blocks that a connection has taken are distinct, no more than the pipeline holds,
/// and out of the reach of others.
pub open spec fn sound(state: StateView, queue: Seq<PieceView>) -> bool {
    &&& ordered_pieces(queue)
    &&& metas_of(state.block_queue).no_duplicates()
    &&& state.block_queue.len() <= PIPELINE_AMOUNT
    &&& forall|m: BlockMeta| #[trigger] takes(state, m) ==> reserved(queue, m)
}

/// Whether blocks that others hold or are done with are left to them.
pub open spec fn leaves_others(
    state: StateView,
    queue: Seq<PieceView>,
    after: StateView,
    queue_after: Seq<PieceView>,
) -> bool {
    forall|m: BlockMeta| #[trigger]
        reserved(queue, m) && !takes(state, m) ==> reserved(queue_after, m) && !takes(after, m)
}

/// Blocks that are the same but for being held are those of the same piece.
proof fn lemma_same_metas(a: Seq<BlockSlot>, b: Seq<BlockSlot>, piece_index: u32)
    requires
        blocks_of_piece(a, piece_index),
        a.len() == b.len(),
        forall|k: int| 0 <= k < a.len() ==> (#[trigger] b[k]).meta == a[k].meta,
    ensures
        blocks_of_piece(b, piece_index),
{
    assert forall|k: int| 0 <= k < b.len() implies (#[trigger] b[k]).meta.piece_index
        == piece_index by {
        assert(a[k].meta.piece_index == piece_index);
    }
    assert forall|i: int, j: int| 0 <= i < j < b.len() implies (#[trigger] b[i]).meta.begin < (
    #[trigger] b[j]).meta.begin by {
        assert(a[i].meta.begin < a[j].meta.begin);
    }
}

/// Whether two queues have the same pieces with the same blocks.
pub open spec fn same_blocks(a: Seq<PieceView>, b: Seq<PieceView>) -> bool {
    &&& a.len() == b.len()
    &&& forall|i: int|
        0 <= i < a.len() ==> (#[trigger] b[i]).piece_index == a[i].piece_index && b[i].blocks.len()
            == a[i].blocks.len()
    &&& forall|i: int, k: int|
        0 <= i < a.len() && 0 <= k < a[i].blocks.len() ==> (#[trigger] b[i].blocks[k]).meta
            == a[i].blocks[k].meta
}

pub proof fn lemma_same_blocks(a: Seq<PieceView>, b: Seq<PieceView>)
    requires
        ordered_pieces(a),
        same_blocks(a, b),
    ensures
        ordered_pieces(b),
        forall|p: int| holds_piece(b, p) == #[trigger] holds_piece(a, p),
{
    assert forall|i: int| 0 <= i < b.len() implies blocks_of_piece(
        (#[trigger] b[i]).blocks,
        b[i].piece_index,
    ) by {
        assert(blocks_of_piece(a[i].blocks, a[i].piece_index));
        lemma_same_metas(a[i].blocks, b[i].blocks, a[i].piece_index);
    }
    assert forall|i: int, j: int| 0 <= i < j < b.len() implies (#[trigger] b[i]).piece_index < (
    #[trigger] b[j]).piece_index by {
        assert(a[i].piece_index < a[j].piece_index);
    }
    assert forall|p: int| holds_piece(b, p) == #[trigger] holds_piece(a, p) by {
        if holds_piece(a, p) {
            let i = choose|i: int| 0 <= i < a.len() && (#[trigger] a[i]).piece_index == p;
            assert(b[i].piece_index == p);
        }
        if holds_piece(b, p) {
            let i = choose|i: int| 0 <= i < b.len() && (#[trigger] b[i]).piece_index == p;
            assert(a[i].piece_index == p);
        }
    }
}

pub proof fn lemma_given_back_same_blocks(queue: Seq<PieceView>, metas: Seq<BlockMeta>)
    ensures
        same_blocks(queue, queue_given_back(queue, metas)),
{
    let b = queue_given_back(queue, metas);
    assert forall|i: int, k: int|
        0 <= i < queue.len() && 0 <= k < queue[i].blocks.len() implies (
    #[trigger] b[i].blocks[k]).meta == queue[i].blocks[k].meta by {
        assert(b[i].blocks == given_back(queue[i].blocks, metas));
    }
}

pub proof fn lemma_taking_same_blocks(queue: Seq<PieceView>, peer_pieces: Seq<bool>, n: int)
    requires
        ordered_pieces(queue),
    ensures
        same_blocks(queue, queue_after_taking(queue, peer_pieces, n)),
{
    law_taking(queue, peer_pieces, n);
    let b = queue_after_taking(queue, peer_pieces, n);
    let t = queue_taken(queue, peer_pieces, n);
    assert forall|i: int| 0 <= i < queue.len() implies (#[trigger] b[i]).piece_index
        == queue[i].piece_index && b[i].blocks.len() == queue[i].blocks.len() by {
        assert(locks(queue[i].blocks, b[i].blocks, t));
    }
    assert forall|i: int, k: int|
        0 <= i < queue.len() && 0 <= k < queue[i].blocks.len() implies (
    #[trigger] b[i].blocks[k]).meta == queue[i].blocks[k].meta by {
        assert(b[i].piece_index == queue[i].piece_index);
        assert(locks(queue[i].blocks, b[i].blocks, t));
    }
}

/// Giving blocks back leaves others reserved.
pub proof fn lemma_given_back_reserved(queue: Seq<PieceView>, metas: Seq<BlockMeta>, m: BlockMeta)
    requires
        ordered_pieces(queue),
        reserved(queue, m),
        !metas.contains(m),
    ensures
        reserved(queue_given_back(queue, metas), m),
{
    lemma_given_back_same_blocks(queue, metas);
    lemma_same_blocks(queue, queue_given_back(queue, metas));
    law_giving_back_frees_no_other(queue, metas, m);
    assert(holds_piece(queue, m.piece_index as int) == holds_piece(
        queue_given_back(queue, metas),
        m.piece_index as int,
    ));
}

/// What is reserved is not free.
proof fn lemma_reserved_not_free(queue: Seq<PieceView>, peer_pieces: Seq<bool>, m: BlockMeta)
    requires
        ordered_pieces(queue),
        reserved(queue, m),
    ensures
        !is_free(queue, peer_pieces, m),
{
    if is_free(queue, peer_pieces, m) {
        let free = BlockSlot { meta: m, locked: false };
        let i = choose|i: int|
            0 <= i < queue.len() && has_piece(peer_pieces, queue[i].piece_index) && (
            #[trigger] queue[i]).blocks.contains(free);
        let k = choose|k: int| 0 <= k < queue[i].blocks.len() && queue[i].blocks[k] == free;
        assert(blocks_of_piece(queue[i].blocks, queue[i].piece_index));
        assert(queue[i].blocks[k].meta.piece_index == queue[i].piece_index);
        assert(holds_piece(queue, m.piece_index as int));
        let held = BlockSlot { meta: m, locked: true };
        let i0 = choose|i0: int|
            0 <= i0 < queue.len() && (#[trigger] queue[i0]).blocks.contains(held);
        let k0 = choose|k0: int| 0 <= k0 < queue[i0].blocks.len() && queue[i0].blocks[k0] == held;
        lemma_one_slot(queue, i, k, i0, k0);
    }
}

/// Taking blocks leaves reserved blocks reserved, and takes none of them.
proof fn lemma_taking_reserved(
    queue: Seq<PieceView>,
    peer_pieces: Seq<bool>,
    n: int,
    m: BlockMeta,
)
    requires
        ordered_pieces(queue),
    ensures
        reserved(queue, m) ==> reserved(queue_after_taking(queue, peer_pieces, n), m)
            && !queue_taken(queue, peer_pieces, n).contains(m),
        queue_taken(queue, peer_pieces, n).contains(m) ==> reserved(
            queue_after_taking(queue, peer_pieces, n),
            m,
        ),
{
    let after = queue_after_taking(queue, peer_pieces, n);
    law_taking(queue, peer_pieces, n);
    law_blocks_are_not_shared(queue, peer_pieces, n, m);
    lemma_taking_same_blocks(queue, peer_pieces, n);
    lemma_same_blocks(queue, after);
    assert(holds_piece(queue, m.piece_index as int) == holds_piece(after, m.piece_index as int));
    if reserved(queue, m) {
        lemma_reserved_not_free(queue, peer_pieces, m);
    }
}

/// A piece that leaves the queue leaves reserved blocks reserved, and the queue in order.
pub proof fn lemma_completing_reserved(queue: Seq<PieceView>, piece_index: u32, m: BlockMeta)
    requires
        ordered_pieces(queue),
    ensures
        ordered_pieces(without_piece(queue, piece_index)),
        reserved(queue, m) ==> reserved(without_piece(queue, piece_index), m),
{
    let after = without_piece(queue, piece_index);
    let i = place_of_piece(queue, piece_index);
    lemma_place_of_piece(queue, piece_index);
    lemma_without_piece(queue, piece_index, i);
    law_completing_keeps_other_blocks(queue, piece_index, m);
    assert forall|j: int| 0 <= j < after.len() implies #[trigger] after[j] == queue[if j < i {
        j
    } else {
        j + 1
    }] by {}
    assert forall|j: int| 0 <= j < after.len() implies blocks_of_piece(
        (#[trigger] after[j]).blocks,
        after[j].piece_index,
    ) by {
        let j0: int = if j < i { j } else { j + 1 };
        assert(blocks_of_piece(queue[j0].blocks, queue[j0].piece_index));
    }
    assert forall|a: int, b: int| 0 <= a < b < after.len() implies (
    #[trigger] after[a]).piece_index < (#[trigger] after[b]).piece_index by {
        let a0: int = if a < i { a } else { a + 1 };
        let b0: int = if b < i { b } else { b + 1 };
        assert(queue[a0].piece_index < queue[b0].piece_index);
    }
    if reserved(queue, m) && !is_held(after, m) && holds_piece(after, m.piece_index as int) {
        let j = choose|j: int|
            0 <= j < after.len() && (#[trigger] after[j]).piece_index == m.piece_index;
        let j0: int = if j < i { j } else { j + 1 };
        assert(queue[j0].piece_index == m.piece_index);
        assert(holds_piece(queue, m.piece_index as int));
        assert(m.piece_index == piece_index);
        if i < queue.len() {
            if j0 < i {
                assert(queue[j0].piece_index < queue[i].piece_index);
            } else {
                assert(queue[i].piece_index < queue[j0].piece_index);
            }
        }
    }
}

/// The blocks that were, or were not, requested are some of the blocks.
pub proof fn lemma_only_requested(work: Seq<BlockWork>, requested: bool, w: BlockWork)
    ensures
        only_requested(work, requested).contains(w) <==> work.contains(w) && w.requested
            == requested,
        only_requested(work, requested).len() <= work.len(),
    decreases work.len(),
{
    let out = only_requested(work, requested);
    if work.len() > 0 {
        let init = work.drop_last();
        lemma_only_requested(init, requested, w);
        let o = only_requested(init, requested);
        lemma_contains_push(init, work.last(), w);
        assert(init.push(work.last()) =~= work);
        if work.last().requested == requested {
            lemma_contains_push(o, work.last(), w);
        }
    }
}

proof fn lemma_contains_push(s: Seq<BlockWork>, last: BlockWork, w: BlockWork)
    ensures
        s.push(last).contains(w) <==> s.contains(w) || w == last,
{
    if s.contains(w) {
        let k = choose|k: int| 0 <= k < s.len() && s[k] == w;
        assert(s.push(last)[k] == w);
    }
    if w == last {
        assert(s.push(last)[s.len() as int] == w);
    }
    if s.push(last).contains(w) && w != last {
        let k = choose|k: int| 0 <= k < s.push(last).len() && s.push(last)[k] == w;
        assert(s[k] == w);
    }
}

/// A block of some work is that of one of its items.
pub proof fn lemma_metas(work: Seq<BlockWork>, m: BlockMeta)
    ensures
        metas_of(work).contains(m) <==> exists|w: BlockWork| #[trigger]
            work.contains(w) && w.block_meta == m,
{
    if metas_of(work).contains(m) {
        let k = choose|k: int| 0 <= k < metas_of(work).len() && metas_of(work)[k] == m;
        assert(work.contains(work[k]));
    }
    if exists|w: BlockWork| #[trigger] work.contains(w) && w.block_meta == m {
        let w = choose|w: BlockWork| #[trigger] work.contains(w) && w.block_meta == m;
        let k = choose|k: int| 0 <= k < work.len() && work[k] == w;
        assert(metas_of(work)[k] == m);
    }
}

/// Where blocks are distinct, there is one item for each.
pub proof fn lemma_one_item(work: Seq<BlockWork>, a: BlockWork, b: BlockWork)
    requires
        metas_of(work).no_duplicates(),
        work.contains(a),
        work.contains(b),
        a.block_meta == b.block_meta,
    ensures
        a == b,
{
    let i = choose|i: int| 0 <= i < work.len() && work[i] == a;
    let j = choose|j: int| 0 <= j < work.len() && work[j] == b;
    assert(metas_of(work)[i] == metas_of(work)[j]);
}

pub proof fn lemma_only_requested_distinct(work: Seq<BlockWork>, requested: bool)
    requires
        metas_of(work).no_duplicates(),
    ensures
        metas_of(only_requested(work, requested)).no_duplicates(),
    decreases work.len(),
{
    if work.len() > 0 {
        let init = work.drop_last();
        let last = work.last();
        assert(metas_of(init) =~= metas_of(work).drop_last());
        assert forall|i: int, j: int|
            0 <= i < metas_of(init).len() && 0 <= j < metas_of(init).len() && i
                != j implies metas_of(init)[i] != metas_of(init)[j] by {
            assert(metas_of(work)[i] != metas_of(work)[j]);
        }
        lemma_only_requested_distinct(init, requested);
        let o = only_requested(init, requested);
        if last.requested == requested {
            let out = o.push(last);
            assert forall|i: int, j: int|
                0 <= i < metas_of(out).len() && 0 <= j < metas_of(out).len() && i
                    != j implies metas_of(out)[i] != metas_of(out)[j] by {
                if i < o.len() && j < o.len() {
                    assert(metas_of(o)[i] != metas_of(o)[j]);
                } else {
                    let k = if i < o.len() { i } else { j };
                    lemma_only_requested(init, requested, o[k]);
                    assert(o.contains(o[k]));
                    let l = choose|l: int| 0 <= l < init.len() && init[l] == o[k];
                    assert(metas_of(work)[l] != metas_of(work)[work.len() - 1]);
                }
            }
        }
    } else {
        assert(metas_of(only_requested(work, requested)).len() == 0);
    }
}

/// A choke gives back what was requested and keeps the rest.
pub proof fn lemma_choke(state: StateView, queue: Seq<PieceView>)
    requires
        sound(state, queue),
    ensures
        sound(
            effect(state, queue, Action::Read(Content::Choke)).state,
            effect(state, queue, Action::Read(Content::Choke)).queue,
        ),
        leaves_others(
            state,
            queue,
            effect(state, queue, Action::Read(Content::Choke)).state,
            effect(state, queue, Action::Read(Content::Choke)).queue,
        ),
        forall|m: BlockMeta| #[trigger]
            takes(effect(state, queue, Action::Read(Content::Choke)).state, m) ==> takes(state, m),
{
    let e = effect(state, queue, Action::Read(Content::Choke));
    let work = state.block_queue;
    let kept = only_requested(work, false);
    let dropped = only_requested(work, true);
    let metas = metas_of(dropped);
    lemma_given_back_same_blocks(queue, metas);
    lemma_same_blocks(queue, e.queue);
    lemma_only_requested_distinct(work, false);
    lemma_only_requested(work, false, arbitrary());
    assert forall|m: BlockMeta| #[trigger] takes(e.state, m) implies takes(state, m) && reserved(
        e.queue,
        m,
    ) by {
        lemma_metas(kept, m);
        let w = choose|w: BlockWork| #[trigger] kept.contains(w) && w.block_meta == m;
        lemma_only_requested(work, false, w);
        lemma_metas(work, m);
        assert(takes(state, m));
        if metas.contains(m) {
            lemma_metas(dropped, m);
            let v = choose|v: BlockWork| #[trigger] dropped.contains(v) && v.block_meta == m;
            lemma_only_requested(work, true, v);
            lemma_one_item(work, v, w);
        }
        lemma_given_back_reserved(queue, metas, m);
    }
    assert forall|m: BlockMeta| #[trigger] reserved(queue, m) && !takes(state, m) implies reserved(
        e.queue,
        m,
    ) && !takes(e.state, m) by {
        if metas.contains(m) {
            lemma_metas(dropped, m);
            let v = choose|v: BlockWork| #[trigger] dropped.contains(v) && v.block_meta == m;
            lemma_only_requested(work, true, v);
            lemma_metas(work, m);
        }
        lemma_given_back_reserved(queue, metas, m);
    }
}

/// A block that was waited for is done with: the others stay.
pub proof fn lemma_piece(state: StateView, queue: Seq<PieceView>, meta: BlockMeta, data: Seq<u8>)
    requires
        sound(state, queue),
    ensures
        effect(state, queue, Action::Read(Content::Piece(meta, data))).queue == queue,
        sound(effect(state, queue, Action::Read(Content::Piece(meta, data))).state, queue),
        forall|m: BlockMeta| #[trigger]
            takes(effect(state, queue, Action::Read(Content::Piece(meta, data))).state, m)
                <==> takes(state, m) && m != meta,
        forall|m: BlockMeta| #[trigger]
            waits_for(state, m) && m != meta ==> waits_for(
                effect(state, queue, Action::Read(Content::Piece(meta, data))).state,
                m,
            ),
{
    let e = effect(state, queue, Action::Read(Content::Piece(meta, data)));
    let work = state.block_queue;
    let i = place_of(work, meta);
    lemma_place_of(work, meta);
    lemma_given_back_nothing(queue);
    if i < work.len() {
        let rest = work.remove(i);
        assert(metas_of(rest) =~= metas_of(work).remove(i));
        assert forall|a: int, b: int|
            0 <= a < metas_of(rest).len() && 0 <= b < metas_of(rest).len() && a
                != b implies metas_of(rest)[a] != metas_of(rest)[b] by {
            let a0: int = if a < i { a } else { a + 1 };
            let b0: int = if b < i { b } else { b + 1 };
            assert(metas_of(work)[a0] != metas_of(work)[b0]);
        }
        assert forall|m: BlockMeta| #[trigger] takes(e.state, m) <==> takes(state, m) && m
            != meta by {
            if takes(e.state, m) {
                let a = choose|a: int| 0 <= a < metas_of(rest).len() && metas_of(rest)[a] == m;
                let a0: int = if a < i { a } else { a + 1 };
                assert(metas_of(work)[a0] == m);
                assert(metas_of(work)[a0] != metas_of(work)[i]);
            }
            if takes(state, m) && m != meta {
                let a = choose|a: int| 0 <= a < metas_of(work).len() && metas_of(work)[a] == m;
                let a1: int = if a < i { a } else { a - 1 };
                assert(metas_of(rest)[a1] == m);
            }
        }
        assert forall|m: BlockMeta| #[trigger] waits_for(state, m) && m != meta implies waits_for(
            e.state,
            m,
        ) by {
            let w = BlockWork { block_meta: m, requested: true };
            let a = choose|a: int| 0 <= a < work.len() && work[a] == w;
            let a1: int = if a < i { a } else { a - 1 };
            assert(rest[a1] == w);
        }
    } else {
        assert forall|m: BlockMeta| #[trigger] takes(state, m) implies m != meta by {
            let a = choose|a: int| 0 <= a < metas_of(work).len() && metas_of(work)[a] == m;
            assert(work[a].block_meta == m);
        }
    }
}

/// Blocks that are taken for a connection are new to it and to all others.
pub proof fn lemma_fill(state: StateView, queue: Seq<PieceView>)
    requires
        sound(state, queue),
    ensures
        sound(
            effect(state, queue, Action::Fill).state,
            effect(state, queue, Action::Fill).queue,
        ),
        leaves_others(
            state,
            queue,
            effect(state, queue, Action::Fill).state,
            effect(state, queue, Action::Fill).queue,
        ),
        forall|m: BlockMeta| #[trigger]
            takes(effect(state, queue, Action::Fill).state, m) <==> takes(state, m) || queue_taken(
                queue,
                state.peer_pieces,
                PIPELINE_AMOUNT - state.block_queue.len(),
            ).contains(m),
        forall|m: BlockMeta| #[trigger]
            waits_for(state, m) ==> waits_for(effect(state, queue, Action::Fill).state, m),
{
    let e = effect(state, queue, Action::Fill);
    let work = state.block_queue;
    let n = PIPELINE_AMOUNT - work.len();
    let t = queue_taken(queue, state.peer_pieces, n);
    let all = work + fresh_work(t);
    law_taking(queue, state.peer_pieces, n);
    lemma_taking_same_blocks(queue, state.peer_pieces, n);
    lemma_same_blocks(queue, e.queue);
    assert(metas_of(all) =~= metas_of(work) + t);
    assert forall|m: BlockMeta| #[trigger] takes(e.state, m) <==> takes(state, m) || t.contains(
        m,
    ) by {
        lemma_contains_concat(metas_of(work), t, m);
    }
    assert forall|m: BlockMeta| #[trigger] takes(e.state, m) implies reserved(e.queue, m) by {
        lemma_taking_reserved(queue, state.peer_pieces, n, m);
    }
    assert forall|m: BlockMeta| #[trigger] reserved(queue, m) && !takes(state, m) implies reserved(
        e.queue,
        m,
    ) && !takes(e.state, m) by {
        lemma_taking_reserved(queue, state.peer_pieces, n, m);
    }
    assert forall|a: int, b: int|
        0 <= a < metas_of(all).len() && 0 <= b < metas_of(all).len() && a != b implies metas_of(
        all,
    )[a] != metas_of(all)[b] by {
        let k = work.len() as int;
        if a < k && b < k {
            assert(metas_of(work)[a] != metas_of(work)[b]);
        } else if a >= k && b >= k {
            assert(t[a - k] != t[b - k]);
        } else {
            let x = if a < k { a } else { b };
            let y = if a < k { b } else { a };
            let m = metas_of(work)[x];
            assert(takes(state, m));
            lemma_taking_reserved(queue, state.peer_pieces, n, m);
            assert(t.contains(t[y - k]));
        }
    }
    assert forall|m: BlockMeta| #[trigger] waits_for(state, m) implies waits_for(e.state, m) by {
        let w = BlockWork { block_meta: m, requested: true };
        let a = choose|a: int| 0 <= a < work.len() && work[a] == w;
        assert(all[a] == w);
    }
}

/// A turn changes which blocks have been requested, and no others.
pub proof fn lemma_turn(
    state: StateView,
    queue: Seq<PieceView>,
    keepalive_due: bool,
    completed: Option<u32>,
    coin: bool,
)
    ensures
        metas_of(
            effect(
                state,
                queue,
                Action::Turn(keepalive_due, completed, coin),
            ).state.block_queue,
        ) == metas_of(state.block_queue),
        forall|m: BlockMeta| #[trigger]
            waits_for(state, m) || (!state.am_choked && takes(state, m)) ==> waits_for(
                effect(state, queue, Action::Turn(keepalive_due, completed, coin)).state,
                m,
            ),
{
    let e = effect(state, queue, Action::Turn(keepalive_due, completed, coin));
    let work = state.block_queue;
    assert(metas_of(e.state.block_queue) =~= metas_of(work));
    assert forall|m: BlockMeta| #[trigger]
        waits_for(state, m) || (!state.am_choked && takes(state, m)) implies waits_for(
        e.state,
        m,
    ) by {
        let w = BlockWork { block_meta: m, requested: true };
        if !state.am_choked {
            if waits_for(state, m) {
                let a = choose|a: int| 0 <= a < work.len() && work[a] == w;
                assert(all_requested(work)[a] == w);
            } else {
                let a = choose|a: int| 0 <= a < metas_of(work).len() && metas_of(work)[a] == m;
                assert(all_requested(work)[a] == w);
            }
        }
    }
}

/// Whatever is done with a connection, its blocks stay distinct and out of the reach of others,
/// and those of others stay theirs.
pub proof fn law_action_keeps_blocks_apart(
    state: StateView,
    queue: Seq<PieceView>,
    action: Action,
)
    requires
        sound(state, queue),
    ensures
        sound(effect(state, queue, action).state, effect(state, queue, action).queue),
        leaves_others(
            state,
            queue,
            effect(state, queue, action).state,
            effect(state, queue, action).queue,
        ),
        effect(state, queue, action).state.peer_pieces.len() == state.peer_pieces.len(),
{
    lemma_given_back_nothing(queue);
    let e = effect(state, queue, action);
    match action {
        Action::Read(Content::Choke) => {
            lemma_choke(state, queue);
        },
        Action::Read(Content::Piece(meta, data)) => {
            lemma_piece(state, queue, meta, data);
        },
        Action::Fill => {
            lemma_fill(state, queue);
        },
        Action::Turn(keepalive_due, completed, coin) => {
            lemma_turn(state, queue, keepalive_due, completed, coin);
            assert forall|m: BlockMeta| #[trigger] takes(e.state, m) == takes(state, m) by {}
        },
        _ => {
            assert(e.queue == queue);
            assert(e.state.block_queue == state.block_queue);
            assert forall|m: BlockMeta| #[trigger] takes(e.state, m) == takes(state, m) by {}
        },
    }
}

} // verus!
