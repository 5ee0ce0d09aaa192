//! The laws of all connections of a client, after any steps.

use vstd::prelude::*;

use crate::peer_connection::{fresh_state, reaction, StateView, PIPELINE_AMOUNT};
use crate::peer_laws::{lemma_place_of_piece, place_of_piece};
use crate::request_laws::{
    apart_from, informed, lemma_few_outstanding, lemma_informed, lemma_unrepeated, unrepeated,
    within,
};
use crate::swarm::{
    all_reasoned, effect, few_outstanding, interest_told, is_block_of, next, no_repeat, pending,
    run, Action, Connection, Event, Step, Swarm,
};
use crate::swarm_laws::{
    law_action_keeps_blocks_apart, leaves_others, lemma_completing_reserved,
    lemma_given_back_reserved, lemma_given_back_same_blocks, lemma_same_blocks,
    lemma_taking_same_blocks, reserved, same_blocks, sound, takes, waits_for,
};
use crate::types::BlockMeta;
use crate::worker_queue::{
    lemma_without_piece, metas_of, ordered_pieces, queue_given_back, without_piece, PieceView,
};

verus! {

/// Whether the blocks that connections have taken are distinct, also those of different
/// connections, no more than the pipeline holds, and out of everybody else's reach.
pub open spec fn blocks_apart(swarm: Swarm) -> bool {
    &&& ordered_pieces(swarm.queue)
    &&& forall|i: int|
        0 <= i < swarm.peers.len() ==> sound((#[trigger] swarm.peers[i]).state, swarm.queue)
    &&& forall|i: int, j: int, m: BlockMeta|
        0 <= i < swarm.peers.len() && 0 <= j < swarm.peers.len() && i != j && #[trigger] takes(
            swarm.peers[i].state,
            m,
        ) ==> !(#[trigger] takes(swarm.peers[j].state, m))
}

/// The blocks that other connections than `i` have taken.
pub open spec fn others(swarm: Swarm, i: int) -> Set<BlockMeta> {
    Set::new(
        |m: BlockMeta|
            exists|j: int|
                0 <= j < swarm.peers.len() && j != i && takes(
                    (#[trigger] swarm.peers[j]).state,
                    m,
                ),
    )
}

/// Whether the log of a connection is as it should be, also after the connection has ended.
pub open spec fn log_in_order(c: Connection, blocks: Seq<PieceView>) -> bool {
    &&& no_repeat(c.log)
    &&& few_outstanding(c.log)
    &&& interest_told(c.log) <= 1
    &&& all_reasoned(c.log, c.state.peer_pieces.len(), blocks)
}

/// Whether a connection that has not ended answers for its log.
pub open spec fn answers_for_log(swarm: Swarm, i: int, blocks: Seq<PieceView>) -> bool {
    let c = swarm.peers[i];
    !c.closed ==> unrepeated(c.state, swarm.queue, c.log, others(swarm, i)) && informed(
        c.state,
        c.log,
        blocks,
    )
}

/// Whether a client is in order, having begun with the queue `blocks`.
pub open spec fn in_order(swarm: Swarm, blocks: Seq<PieceView>) -> bool {
    &&& blocks_apart(swarm)
    &&& within(swarm.queue, blocks)
    &&& forall|i: int|
        0 <= i < swarm.peers.len() ==> log_in_order(#[trigger] swarm.peers[i], blocks)
    &&& forall|i: int|
        #![trigger swarm.peers[i]]
        0 <= i < swarm.peers.len() ==> answers_for_log(swarm, i, blocks)
}

proof fn lemma_same_blocks_within(a: Seq<PieceView>, b: Seq<PieceView>, blocks: Seq<PieceView>)
    requires
        same_blocks(a, b),
        within(a, blocks),
    ensures
        within(b, blocks),
{
    assert forall|m: BlockMeta| #[trigger] is_block_of(b, m) implies is_block_of(blocks, m) by {
        let (i, k) = choose|i: int, k: int|
            0 <= i < b.len() && 0 <= k < b[i].blocks.len() && (
            #[trigger] b[i].blocks[k]).meta == m;
        assert(b[i].piece_index == a[i].piece_index);
        assert(a[i].blocks[k].meta == m);
        assert(is_block_of(a, m));
    }
}

proof fn lemma_action_within(
    state: StateView,
    queue: Seq<PieceView>,
    action: Action,
    blocks: Seq<PieceView>,
)
    requires
        ordered_pieces(queue),
        within(queue, blocks),
    ensures
        within(effect(state, queue, action).queue, blocks),
{
    let e = effect(state, queue, action);
    match action {
        Action::Read(m) => {
            if let Ok(r) = reaction(state, m) {
                lemma_given_back_same_blocks(queue, r.returned);
                lemma_same_blocks_within(queue, e.queue, blocks);
            }
        },
        Action::Fill => {
            let n = PIPELINE_AMOUNT - state.block_queue.len();
            lemma_taking_same_blocks(queue, state.peer_pieces, n);
            lemma_same_blocks_within(queue, e.queue, blocks);
        },
        _ => {},
    }
}

proof fn lemma_completing_within(
    queue: Seq<PieceView>,
    piece_index: u32,
    blocks: Seq<PieceView>,
)
    requires
        within(queue, blocks),
    ensures
        within(without_piece(queue, piece_index), blocks),
{
    let after = without_piece(queue, piece_index);
    let at = place_of_piece(queue, piece_index);
    lemma_place_of_piece(queue, piece_index);
    lemma_without_piece(queue, piece_index, at);
    assert forall|m: BlockMeta| #[trigger] is_block_of(after, m) implies is_block_of(
        blocks,
        m,
    ) by {
        let (i, k) = choose|i: int, k: int|
            0 <= i < after.len() && 0 <= k < after[i].blocks.len() && (
            #[trigger] after[i].blocks[k]).meta == m;
        let i0: int = if i < at { i } else { i + 1 };
        assert(after[i] == queue[i0]);
        assert(queue[i0].blocks[k].meta == m);
        assert(is_block_of(queue, m));
    }
}

/// What others have taken is reserved, and not taken by a connection.
proof fn lemma_apart_from(swarm: Swarm, i: int)
    requires
        blocks_apart(swarm),
        0 <= i < swarm.peers.len(),
    ensures
        apart_from(swarm.peers[i].state, swarm.queue, others(swarm, i)),
{
    assert forall|m: BlockMeta| #[trigger] others(swarm, i).contains(m) implies reserved(
        swarm.queue,
        m,
    ) && !takes(swarm.peers[i].state, m) by {
        let j = choose|j: int|
            0 <= j < swarm.peers.len() && j != i && takes((#[trigger] swarm.peers[j]).state, m);
        assert(sound(swarm.peers[j].state, swarm.queue));
        assert(takes(swarm.peers[j].state, m));
    }
}

/// What one connection does, in so far as it leaves the blocks of others to them, keeps the others
/// in order.
#[verifier::rlimit(40)]
proof fn lemma_change(
    swarm: Swarm,
    i: int,
    c: Connection,
    queue: Seq<PieceView>,
    blocks: Seq<PieceView>,
)
    requires
        in_order(swarm, blocks),
        0 <= i < swarm.peers.len(),
        sound(c.state, queue),
        leaves_others(swarm.peers[i].state, swarm.queue, c.state, queue),
        within(queue, blocks),
        log_in_order(c, blocks),
        !c.closed ==> unrepeated(c.state, queue, c.log, others(swarm, i)) && informed(
            c.state,
            c.log,
            blocks,
        ),
    ensures
        in_order(Swarm { queue, peers: swarm.peers.update(i, c) }, blocks),
{
    let after = Swarm { queue, peers: swarm.peers.update(i, c) };
    let s = swarm.peers[i].state;
    assert forall|k: int| 0 <= k < after.peers.len() implies sound(
        (#[trigger] after.peers[k]).state,
        queue,
    ) by {
        if k != i {
            let t = swarm.peers[k].state;
            assert(after.peers[k] == swarm.peers[k]);
            assert(sound(t, swarm.queue));
            assert forall|m: BlockMeta| #[trigger] takes(t, m) implies reserved(queue, m) by {
                assert(takes(swarm.peers[k].state, m));
                assert(!takes(swarm.peers[i].state, m));
                assert(reserved(swarm.queue, m));
            }
        }
    }
    assert forall|a: int, b: int, m: BlockMeta|
        0 <= a < after.peers.len() && 0 <= b < after.peers.len() && a != b && #[trigger] takes(
            after.peers[a].state,
            m,
        ) implies !(#[trigger] takes(after.peers[b].state, m)) by {
        if a == i || b == i {
            let k = if a == i { b } else { a };
            assert(after.peers[k] == swarm.peers[k]);
            if takes(swarm.peers[k].state, m) {
                assert(sound(swarm.peers[k].state, swarm.queue));
                assert(!takes(swarm.peers[i].state, m));
                assert(reserved(swarm.queue, m));
                assert(!takes(c.state, m));
            }
        } else {
            assert(takes(swarm.peers[a].state, m));
            assert(!takes(swarm.peers[b].state, m));
        }
    }
    assert forall|k: int| 0 <= k < after.peers.len() implies log_in_order(
        #[trigger] after.peers[k],
        blocks,
    ) by {
        if k != i {
            assert(after.peers[k] == swarm.peers[k]);
        }
    }
    assert forall|k: int|
        #![trigger after.peers[k]]
        0 <= k < after.peers.len() implies answers_for_log(after, k, blocks) by {
        if k == i {
            assert(others(after, i) =~= others(swarm, i)) by {
                assert forall|m: BlockMeta| others(after, i).contains(m) == others(
                    swarm,
                    i,
                ).contains(m) by {
                    if others(after, i).contains(m) {
                        let j = choose|j: int|
                            0 <= j < after.peers.len() && j != i && takes(
                                (#[trigger] after.peers[j]).state,
                                m,
                            );
                        assert(takes(swarm.peers[j].state, m));
                    }
                    if others(swarm, i).contains(m) {
                        let j = choose|j: int|
                            0 <= j < swarm.peers.len() && j != i && takes(
                                (#[trigger] swarm.peers[j]).state,
                                m,
                            );
                        assert(takes(after.peers[j].state, m));
                    }
                }
            }
        } else {
            let d = swarm.peers[k];
            assert(after.peers[k] == d);
            assert(answers_for_log(swarm, k, blocks));
            if !d.closed {
                assert forall|m: BlockMeta| #[trigger] pending(d.log, m) implies waits_for(
                    d.state,
                    m,
                ) || (reserved(queue, m) && !takes(d.state, m) && !others(after, k).contains(
                    m,
                )) by {
                    if !waits_for(d.state, m) {
                        assert(!others(swarm, k).contains(m));
                        assert(!takes(swarm.peers[i].state, m));
                        assert(reserved(swarm.queue, m));
                        assert(!takes(c.state, m));
                        if others(after, k).contains(m) {
                            let j = choose|j: int|
                                0 <= j < after.peers.len() && j != k && takes(
                                    (#[trigger] after.peers[j]).state,
                                    m,
                                );
                            assert(takes(swarm.peers[j].state, m));
                        }
                    }
                }
            }
        }
    }
}

proof fn lemma_act(swarm: Swarm, i: int, action: Action, blocks: Seq<PieceView>)
    requires
        in_order(swarm, blocks),
    ensures
        in_order(next(swarm, Step::Act(i, action)), blocks),
{
    if 0 <= i < swarm.peers.len() && !swarm.peers[i].closed {
        let c = swarm.peers[i];
        let e = effect(c.state, swarm.queue, action);
        assert(answers_for_log(swarm, i, blocks));
        assert(sound(c.state, swarm.queue));
        lemma_apart_from(swarm, i);
        law_action_keeps_blocks_apart(c.state, swarm.queue, action);
        lemma_unrepeated(c.state, swarm.queue, c.log, others(swarm, i), action);
        lemma_informed(c.state, swarm.queue, c.log, others(swarm, i), blocks, action);
        lemma_action_within(c.state, swarm.queue, action, blocks);
        let d = Connection { state: e.state, log: c.log + e.events, closed: false };
        lemma_few_outstanding(d.state, d.log);
        lemma_change(swarm, i, d, e.queue, blocks);
    }
}

proof fn lemma_close(swarm: Swarm, i: int, blocks: Seq<PieceView>)
    requires
        in_order(swarm, blocks),
    ensures
        in_order(next(swarm, Step::Close(i)), blocks),
{
    if 0 <= i < swarm.peers.len() && !swarm.peers[i].closed {
        let c = swarm.peers[i];
        let metas = metas_of(c.state.block_queue);
        let queue = queue_given_back(swarm.queue, metas);
        let d = Connection {
            state: StateView { block_queue: Seq::empty(), ..c.state },
            log: c.log,
            closed: true,
        };
        assert(sound(c.state, swarm.queue));
        assert(log_in_order(c, blocks));
        lemma_given_back_same_blocks(swarm.queue, metas);
        lemma_same_blocks(swarm.queue, queue);
        lemma_same_blocks_within(swarm.queue, queue, blocks);
        assert(metas_of(d.state.block_queue).len() == 0);
        assert forall|m: BlockMeta| !(#[trigger] takes(d.state, m)) by {}
        assert forall|m: BlockMeta| #[trigger]
            reserved(swarm.queue, m) && !takes(c.state, m) implies reserved(queue, m) && !takes(
            d.state,
            m,
        ) by {
            lemma_given_back_reserved(swarm.queue, metas, m);
        }
        lemma_change(swarm, i, d, queue, blocks);
    }
}

proof fn lemma_complete(swarm: Swarm, piece_index: u32, blocks: Seq<PieceView>)
    requires
        in_order(swarm, blocks),
    ensures
        in_order(next(swarm, Step::Complete(piece_index)), blocks),
{
    let after = next(swarm, Step::Complete(piece_index));
    lemma_completing_within(swarm.queue, piece_index, blocks);
    assert forall|m: BlockMeta| #[trigger] reserved(swarm.queue, m) implies reserved(
        after.queue,
        m,
    ) by {
        lemma_completing_reserved(swarm.queue, piece_index, m);
    }
    lemma_completing_reserved(swarm.queue, piece_index, arbitrary());
    assert forall|k: int| 0 <= k < after.peers.len() implies sound(
        (#[trigger] after.peers[k]).state,
        after.queue,
    ) by {
        assert(sound(swarm.peers[k].state, swarm.queue));
        assert forall|m: BlockMeta| #[trigger] takes(after.peers[k].state, m) implies reserved(
            after.queue,
            m,
        ) by {
            assert(takes(swarm.peers[k].state, m));
            assert(reserved(swarm.queue, m));
        }
    }
    assert forall|k: int|
        #![trigger after.peers[k]]
        0 <= k < after.peers.len() implies answers_for_log(after, k, blocks) by {
        let d = swarm.peers[k];
        assert(answers_for_log(swarm, k, blocks));
        assert(others(after, k) =~= others(swarm, k));
        if !d.closed {
            assert forall|m: BlockMeta| #[trigger] pending(d.log, m) implies waits_for(d.state, m)
                || (reserved(after.queue, m) && !takes(d.state, m) && !others(
                after,
                k,
            ).contains(m)) by {
                if !waits_for(d.state, m) {
                    assert(reserved(swarm.queue, m));
                }
            }
        }
    }
}

#[verifier::rlimit(40)]
proof fn lemma_connect(swarm: Swarm, num_pieces: nat, blocks: Seq<PieceView>)
    requires
        in_order(swarm, blocks),
    ensures
        in_order(next(swarm, Step::Connect(num_pieces)), blocks),
{
    let after = next(swarm, Step::Connect(num_pieces));
    let fresh = fresh_state(num_pieces);
    let last = swarm.peers.len() as int;
    assert(metas_of(fresh.block_queue).len() == 0);
    assert forall|m: BlockMeta| !(#[trigger] takes(fresh, m)) by {}
    assert forall|k: int| 0 <= k < after.peers.len() implies sound(
        (#[trigger] after.peers[k]).state,
        after.queue,
    ) by {
        if k < last {
            assert(after.peers[k] == swarm.peers[k]);
        }
    }
    assert forall|a: int, b: int, m: BlockMeta|
        0 <= a < after.peers.len() && 0 <= b < after.peers.len() && a != b && #[trigger] takes(
            after.peers[a].state,
            m,
        ) implies !(#[trigger] takes(after.peers[b].state, m)) by {
        if a < last && b < last {
            assert(takes(swarm.peers[a].state, m));
            assert(!takes(swarm.peers[b].state, m));
        }
    }
    let log = Seq::<Event>::empty();
    lemma_few_outstanding(fresh, log);
    assert(log_in_order(after.peers[last], blocks));
    assert forall|k: int| 0 <= k < after.peers.len() implies log_in_order(
        #[trigger] after.peers[k],
        blocks,
    ) by {
        if k < last {
            assert(after.peers[k] == swarm.peers[k]);
        }
    }
    assert forall|k: int|
        #![trigger after.peers[k]]
        0 <= k < after.peers.len() implies answers_for_log(after, k, blocks) by {
        if k < last {
            let d = swarm.peers[k];
            assert(after.peers[k] == d);
            assert(answers_for_log(swarm, k, blocks));
            assert forall|m: BlockMeta| others(after, k).contains(m) implies others(
                swarm,
                k,
            ).contains(m) by {
                let j = choose|j: int|
                    0 <= j < after.peers.len() && j != k && takes(
                        (#[trigger] after.peers[j]).state,
                        m,
                    );
                assert(takes(swarm.peers[j].state, m));
            }
        }
    }
}

/// After any steps a client is in order.
proof fn lemma_run(queue: Seq<PieceView>, steps: Seq<Step>)
    requires
        ordered_pieces(queue),
    ensures
        in_order(run(queue, steps), queue),
    decreases steps.len(),
{
    if steps.len() > 0 {
        let before = run(queue, steps.drop_last());
        lemma_run(queue, steps.drop_last());
        match steps.last() {
            Step::Connect(num_pieces) => {
                lemma_connect(before, num_pieces, queue);
            },
            Step::Act(i, action) => {
                lemma_act(before, i, action, queue);
            },
            Step::Close(i) => {
                lemma_close(before, i, queue);
            },
            Step::Complete(piece_index) => {
                lemma_complete(before, piece_index, queue);
            },
        }
    }
}

/// Whatever a client does, the blocks that its connections have taken are pairwise distinct, also
/// between connections, at most as many for each as the pipeline holds, and held in the queue as
/// long as their piece is there.
pub proof fn law_blocks_stay_apart(queue: Seq<PieceView>, steps: Seq<Step>)
    requires
        ordered_pieces(queue),
    ensures
        blocks_apart(run(queue, steps)),
{
    lemma_run(queue, steps);
}

/// Whatever a client does, no block is requested twice on a connection without a choke read in
/// between.
pub proof fn law_requests_are_not_repeated(queue: Seq<PieceView>, steps: Seq<Step>, i: int)
    requires
        ordered_pieces(queue),
        0 <= i < run(queue, steps).peers.len(),
    ensures
        no_repeat(run(queue, steps).peers[i].log),
{
    lemma_run(queue, steps);
    assert(log_in_order(run(queue, steps).peers[i], queue));
}

/// Whatever a client does, no more requests of a connection than the pipeline holds are neither
/// answered with the block nor dropped by a choke.
pub proof fn law_few_requests_are_outstanding(queue: Seq<PieceView>, steps: Seq<Step>, i: int)
    requires
        ordered_pieces(queue),
        0 <= i < run(queue, steps).peers.len(),
    ensures
        few_outstanding(run(queue, steps).peers[i].log),
{
    lemma_run(queue, steps);
    assert(log_in_order(run(queue, steps).peers[i], queue));
}

/// Whatever a client does, a request is written on a connection only when, of chokes and unchokes,
/// an unchoke was read last, the peer has been told that we want pieces, and it has announced the
/// piece of the block, which is one of the queue. That we want pieces is told once at most.
pub proof fn law_requests_have_reasons(queue: Seq<PieceView>, steps: Seq<Step>, i: int)
    requires
        ordered_pieces(queue),
        0 <= i < run(queue, steps).peers.len(),
    ensures
        all_reasoned(
            run(queue, steps).peers[i].log,
            run(queue, steps).peers[i].state.peer_pieces.len(),
            queue,
        ),
        interest_told(run(queue, steps).peers[i].log) <= 1,
{
    lemma_run(queue, steps);
    assert(log_in_order(run(queue, steps).peers[i], queue));
}

} // verus!
