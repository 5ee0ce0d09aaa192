//! Laws of what each message of a peer changes and what each turn of writing writes, by itself and
//! over the whole of a connection.

use vstd::prelude::*;

use crate::peer_connection::{
    block_view, fresh_state, needs_draw, only_requested, outputs_view, place_of, reaction,
    requests, to_request, turn_outputs, turn_state, Output, OutputView, PeerConnectionError,
    Reaction, StateView, BLOCK_SIZE, KEEPALIVE_NANOS, MAX_PEERS, PIPELINE_AMOUNT, PORT,
};
use crate::peer_laws::lemma_place_of;
use crate::swarm::{effect, interest_told, run, unchoked, Action, Event, Step};
use crate::types::{Block, BlockMeta, Content, Message};
use crate::worker_laws::{is_free, law_taking};
use crate::worker_queue::{ordered_pieces, queue_taken, BlockWork, PieceView};

verus! {

/// Whether a block has been requested, or has not been.
pub open spec fn asked_for(requested: bool) -> spec_fn(BlockWork) -> bool {
    |w: BlockWork| w.requested == requested
}

proof fn lemma_filter(work: Seq<BlockWork>, requested: bool)
    ensures
        only_requested(work, requested) == work.filter(asked_for(requested)),
    decreases work.len(),
{
    reveal(Seq::filter);
    if work.len() > 0 {
        lemma_filter(work.drop_last(), requested);
    }
}

/// A piece that a peer says it has counts as one that it has from then on, whatever the state of
/// the connection. Nothing else changes. A piece that the torrent does not have is refused.
pub proof fn law_have_is_remembered(state: StateView, piece_index: u32)
    ensures
        piece_index < state.peer_pieces.len() ==> (reaction(
            state,
            Content::Have(piece_index),
        ) matches Ok(r) && r.state.peer_pieces.len() == state.peer_pieces.len()
            && r.state.peer_pieces[piece_index as int] && (forall|q: int|
            0 <= q < state.peer_pieces.len() && q != piece_index ==> #[trigger]
            r.state.peer_pieces[q] == state.peer_pieces[q]) && r.state == (StateView {
            peer_pieces: r.state.peer_pieces,
            ..state
        }) && r.returned.len() == 0 && r.delivered is None),
        piece_index >= state.peer_pieces.len() ==> reaction(state, Content::Have(piece_index))
            == Err::<Reaction, PeerConnectionError>(PeerConnectionError::InvalidPieceIndex),
{
}

/// The bit field of a peer tells of each piece whether the peer has it, whatever was known before
/// and whatever the state of the connection. Nothing else changes. One with fewer bits than there
/// are pieces is refused.
pub proof fn law_bit_field_is_taken_over(state: StateView, bits: Seq<bool>, padding: Seq<bool>)
    ensures
        bits.len() >= state.peer_pieces.len() ==> (reaction(
            state,
            Content::BitField(bits, padding),
        ) matches Ok(r) && r.state.peer_pieces.len() == state.peer_pieces.len() && (forall|q: int|
            0 <= q < state.peer_pieces.len() ==> #[trigger] r.state.peer_pieces[q] == bits[q])
            && r.state == (StateView { peer_pieces: r.state.peer_pieces, ..state })
            && r.returned.len() == 0 && r.delivered is None),
        bits.len() < state.peer_pieces.len() ==> reaction(state, Content::BitField(bits, padding))
            == Err::<Reaction, PeerConnectionError>(PeerConnectionError::InvalidBitfield),
{
}

/// A choke is taken down, and drops the requests that are under way: their blocks are given back,
/// and the blocks that had not been requested are kept, both in their order. Nothing else changes.
pub proof fn law_choke_drops_requests(state: StateView)
    ensures
        reaction(state, Content::Choke) matches Ok(r) && r.state.am_choked && r.state.block_queue
            == state.block_queue.filter(asked_for(false)) && r.returned.len()
            == state.block_queue.filter(asked_for(true)).len() && (forall|k: int|
            0 <= k < r.returned.len() ==> #[trigger] r.returned[k] == state.block_queue.filter(
                asked_for(true),
            )[k].block_meta) && r.state == (StateView {
            am_choked: true,
            block_queue: r.state.block_queue,
            ..state
        }) && r.delivered is None,
{
    lemma_filter(state.block_queue, false);
    lemma_filter(state.block_queue, true);
}

/// The end of a choke, and whether the peer wants pieces, are taken down. Nothing else changes.
pub proof fn law_flags_are_taken_down(state: StateView)
    ensures
        reaction(state, Content::Unchoke) matches Ok(r) && r.state == (StateView {
            am_choked: false,
            ..state
        }) && r.returned.len() == 0 && r.delivered is None,
        reaction(state, Content::Interested) matches Ok(r) && r.state == (StateView {
            peer_interested: true,
            ..state
        }) && r.returned.len() == 0 && r.delivered is None,
        reaction(state, Content::NotInterested) matches Ok(r) && r.state == (StateView {
            peer_interested: false,
            ..state
        }) && r.returned.len() == 0 && r.delivered is None,
{
}

/// A message that keeps the connection alive, a request and the end of one change nothing.
pub proof fn law_other_messages_change_nothing(state: StateView, meta: BlockMeta)
    ensures
        reaction(state, Content::KeepAlive) matches Ok(r) && r.state == state && r.returned.len()
            == 0 && r.delivered is None,
        reaction(state, Content::Request(meta)) matches Ok(r) && r.state == state
            && r.returned.len() == 0 && r.delivered is None,
        reaction(state, Content::Cancel(meta)) matches Ok(r) && r.state == state
            && r.returned.len() == 0 && r.delivered is None,
{
}

/// Whether we have taken a block to download from a peer.
pub open spec fn waits_at(work: Seq<BlockWork>, k: int, meta: BlockMeta) -> bool {
    0 <= k < work.len() && work[k].block_meta == meta
}

/// A block is delivered with its bytes if and only if we have taken it, requested or not, and
/// whatever the state of the connection. It is then done with: the first item for it is gone, and
/// all others stay. A block that we have not taken is passed over.
pub proof fn law_awaited_blocks_are_delivered(state: StateView, meta: BlockMeta, data: Seq<u8>)
    ensures
        reaction(state, Content::Piece(meta, data)) matches Ok(r) && r.returned.len() == 0
            && r.state == (StateView { block_queue: r.state.block_queue, ..state }) && (if exists|
            k: int,
        | #[trigger]
            waits_at(state.block_queue, k, meta) {
            r.delivered == Some((meta, data)) && exists|k: int| #[trigger]
                waits_at(state.block_queue, k, meta) && r.state.block_queue
                    == state.block_queue.remove(k) && forall|j: int|
                    0 <= j < k ==> (#[trigger] state.block_queue[j]).block_meta != meta
        } else {
            r.delivered is None && r.state == state
        }),
{
    let work = state.block_queue;
    lemma_place_of(work, meta);
    let i = place_of(work, meta);
    if i < work.len() {
        assert(waits_at(work, i, meta));
    } else {
        assert forall|k: int| !(#[trigger] waits_at(work, k, meta)) by {}
    }
}

/// Whether a message is written by a turn.
pub open spec fn writes(outputs: Seq<OutputView>, m: Content) -> bool {
    outputs.contains(OutputView::Write(m))
}

/// The blocks that a turn has to request: those that have not been, unless the peer refuses.
pub open spec fn due(state: StateView) -> Seq<BlockWork> {
    if state.am_choked {
        Seq::empty()
    } else {
        state.block_queue.filter(asked_for(false))
    }
}

/// How many outputs a turn has in front of the requests.
pub open spec fn outputs_before_requests(outputs: Seq<OutputView>, completed: Option<u32>) -> int {
    (if writes(outputs, Content::KeepAlive) {
        2int
    } else {
        0
    }) + (if writes(outputs, Content::Interested) {
        1int
    } else {
        0
    }) + (if completed is Some && writes(outputs, Content::Have(completed->0)) {
        1int
    } else {
        0
    })
}

/// A turn keeps the connection alive if and only if that is due and nothing has been written, and
/// sends that off at once. It tells that we want pieces if and only if it has not been told and
/// there are blocks to download. It tells of a completed piece if and only if the peer does not
/// have it or the coin says so. It requests, unless the peer refuses, all blocks that have not
/// been requested, in their order, each once. It writes nothing else, and sends everything off.
#[verifier::rlimit(60)]
pub proof fn law_turn_writes_what_is_due(
    state: StateView,
    keepalive_due: bool,
    completed: Option<u32>,
    coin: bool,
)
    ensures
        ({
            let out = turn_outputs(state, keepalive_due, completed, coin);
            let h = outputs_before_requests(out, completed);
            let n = due(state).len();
            &&& writes(out, Content::KeepAlive) <==> keepalive_due && !state.sent_message
            &&& writes(out, Content::KeepAlive) ==> out[0] == OutputView::Write(Content::KeepAlive)
                && out[1] == OutputView::Flush
            &&& writes(out, Content::Interested) <==> !state.am_interested
                && state.block_queue.len() > 0
            &&& forall|p: u32| #[trigger]
                writes(out, Content::Have(p)) <==> completed == Some(p) && (coin || !(p
                    < state.peer_pieces.len() && state.peer_pieces[p as int]))
            &&& out.len() == h + n + 1
            &&& out.last() == OutputView::Flush
            &&& forall|k: int|
                0 <= k < n ==> #[trigger] out[h + k] == OutputView::Write(
                    Content::Request(due(state)[k].block_meta),
                )
            &&& forall|k: int|
                0 <= k < h ==> match #[trigger] out[k] {
                    OutputView::Flush => k == 1 && writes(out, Content::KeepAlive),
                    OutputView::Write(m) => m is KeepAlive || m is Interested || m is Have,
                }
        }),
{
    let out = turn_outputs(state, keepalive_due, completed, coin);
    lemma_filter(state.block_queue, false);
    let n = due(state).len() as int;
    assert(due(state) =~= to_request(state));
    assert(requests(to_request(state)).len() == n);
    let ka = keepalive_due && !state.sent_message;
    let it = !state.am_interested && state.block_queue.len() > 0;
    let hv = completed matches Some(p) && (coin || !(p < state.peer_pieces.len()
        && state.peer_pieces[p as int]));
    let a: int = if ka { 2 } else { 0 };
    let b: int = a + (if it { 1int } else { 0 });
    let h: int = b + (if hv { 1int } else { 0 });
    assert(out.len() == h + n + 1);
    assert(ka ==> out[0] == OutputView::Write(Content::KeepAlive) && out[1] == OutputView::Flush);
    assert(it ==> out[a] == OutputView::Write(Content::Interested));
    assert(hv ==> out[b] == OutputView::Write(Content::Have(completed->0)));
    assert forall|k: int| 0 <= k < n implies #[trigger] out[h + k] == OutputView::Write(
        Content::Request(due(state)[k].block_meta),
    ) by {
        assert(requests(to_request(state))[k] == OutputView::Write(
            Content::Request(to_request(state)[k].block_meta),
        ));
    }
    assert(out[h + n] == OutputView::Flush);
    assert forall|k: int| h <= k < h + n implies #[trigger] out[k] == OutputView::Write(
        Content::Request(due(state)[k - h].block_meta),
    ) by {
        assert(out[h + (k - h)] == out[k]);
    }
    assert(writes(out, Content::KeepAlive) <==> ka) by {
        if ka {
            assert(out[0] == OutputView::Write(Content::KeepAlive));
        }
    }
    assert(writes(out, Content::Interested) <==> it) by {
        if it {
            assert(out[a] == OutputView::Write(Content::Interested));
        }
    }
    assert forall|p: u32| #[trigger] writes(out, Content::Have(p)) <==> hv && completed
        == Some(p) by {
        if hv && completed == Some(p) {
            assert(out[b] == OutputView::Write(Content::Have(p)));
        }
    }
    assert(h == outputs_before_requests(out, completed));
}

/// A turn remembers what it has requested and that it has told that we want pieces. It counts as
/// having written something if it has written another message than one that keeps the connection
/// alive, and else if something had been written before. It changes nothing else.
pub proof fn law_turn_remembers_what_it_wrote(
    state: StateView,
    keepalive_due: bool,
    completed: Option<u32>,
    coin: bool,
)
    ensures
        ({
            let out = turn_outputs(state, keepalive_due, completed, coin);
            let after = turn_state(state, keepalive_due, completed, coin);
            &&& after.block_queue.len() == state.block_queue.len()
            &&& forall|k: int|
                0 <= k < state.block_queue.len() ==> (#[trigger] after.block_queue[k]).block_meta
                    == state.block_queue[k].block_meta && after.block_queue[k].requested == (
                state.block_queue[k].requested || !state.am_choked)
            &&& after.am_interested == (state.am_interested || writes(out, Content::Interested))
            &&& after.sent_message == ((exists|k: int|
                0 <= k < out.len() && (#[trigger] out[k] matches OutputView::Write(m) && !(
                m is KeepAlive))) || state.sent_message)
            &&& after == (StateView {
                block_queue: after.block_queue,
                am_interested: after.am_interested,
                sent_message: after.sent_message,
                ..state
            })
        }),
{
    let out = turn_outputs(state, keepalive_due, completed, coin);
    let after = turn_state(state, keepalive_due, completed, coin);
    law_turn_writes_what_is_due(state, keepalive_due, completed, coin);
    lemma_filter(state.block_queue, false);
    assert(due(state) =~= to_request(state));
    let h = outputs_before_requests(out, completed);
    if due(state).len() > 0 {
        assert(out[h + 0] == OutputView::Write(Content::Request(due(state)[0].block_meta)));
    }
    if writes(out, Content::Interested) {
        let k = choose|k: int|
            0 <= k < out.len() && out[k] == OutputView::Write(Content::Interested);
        assert(out[k] matches OutputView::Write(m) && !(m is KeepAlive));
    }
    if completed is Some && writes(out, Content::Have(completed->0)) {
        let k = choose|k: int|
            0 <= k < out.len() && out[k] == OutputView::Write(Content::Have(completed->0));
        assert(out[k] matches OutputView::Write(m) && !(m is KeepAlive));
    }
    if exists|k: int|
        0 <= k < out.len() && (#[trigger] out[k] matches OutputView::Write(m) && !(
        m is KeepAlive)) {
        let k = choose|k: int|
            0 <= k < out.len() && (#[trigger] out[k] matches OutputView::Write(m) && !(
            m is KeepAlive));
        if k < h {
            if let OutputView::Write(m) = out[k] {
                assert(writes(out, m));
            }
        }
    }
}

/// Whether a peer that has sent what stands in a log has piece `p` of `n`: what it said last of the
/// piece counts. A bit field says of every piece whether the peer has it, and a `Have` that it has
/// one.
pub open spec fn said_to_have(log: Seq<Event>, n: nat, p: int) -> bool
    decreases log.len(),
{
    if log.len() == 0 {
        false
    } else {
        match log.last() {
            Event::Read(Content::Have(index)) => index == p || said_to_have(log.drop_last(), n, p),
            Event::Read(Content::BitField(bits, _)) => if bits.len() >= n {
                bits[p]
            } else {
                said_to_have(log.drop_last(), n, p)
            },
            _ => said_to_have(log.drop_last(), n, p),
        }
    }
}

/// Whether of the messages that tell whether the peer wants pieces the last one says so.
pub open spec fn said_to_want(log: Seq<Event>) -> bool
    decreases log.len(),
{
    log.len() > 0 && match log.last() {
        Event::Read(Content::Interested) => true,
        Event::Read(Content::NotInterested) => false,
        _ => said_to_want(log.drop_last()),
    }
}

/// Whether the state of a connection is what its log says.
pub open spec fn remembers(state: StateView, log: Seq<Event>) -> bool {
    &&& forall|p: int|
        0 <= p < state.peer_pieces.len() ==> #[trigger] state.peer_pieces[p] == said_to_have(
            log,
            state.peer_pieces.len(),
            p,
        )
    &&& state.am_choked == !unchoked(log)
    &&& state.peer_interested == said_to_want(log)
    &&& state.am_interested == (interest_told(log) > 0)
}

/// What is written leaves what the peer has said.
proof fn lemma_remembers_outputs(log: Seq<Event>, events: Seq<Event>, n: nat)
    requires
        forall|k: int| 0 <= k < events.len() ==> (#[trigger] events[k]) is Done,
    ensures
        forall|p: int| #[trigger] said_to_have(log + events, n, p) == said_to_have(log, n, p),
        unchoked(log + events) == unchoked(log),
        said_to_want(log + events) == said_to_want(log),
        interest_told(log + events) > 0 <==> interest_told(log) > 0 || events.contains(
            Event::Done(OutputView::Write(Content::Interested)),
        ),
    decreases events.len(),
{
    if events.len() == 0 {
        assert(log + events =~= log);
    } else {
        let init = events.drop_last();
        assert forall|k: int| 0 <= k < init.len() implies (#[trigger] init[k]) is Done by {
            assert(init[k] == events[k]);
        }
        lemma_remembers_outputs(log, init, n);
        assert((log + events).drop_last() =~= log + init);
        assert((log + events).last() == events.last());
        assert(events.last() is Done);
        assert forall|p: int| #[trigger]
            said_to_have(log + events, n, p) == said_to_have(log, n, p) by {
            assert(said_to_have(log + init, n, p) == said_to_have(log, n, p));
        }
        let told = Event::Done(OutputView::Write(Content::Interested));
        assert(events.contains(told) <==> init.contains(told) || events.last() == told) by {
            if init.contains(told) {
                let k = choose|k: int| 0 <= k < init.len() && init[k] == told;
                assert(events[k] == told);
            }
            if events.contains(told) && events.last() != told {
                let k = choose|k: int| 0 <= k < events.len() && events[k] == told;
                assert(init[k] == told);
            }
        }
    }
}

proof fn lemma_remembers_action(
    state: StateView,
    queue: Seq<PieceView>,
    log: Seq<Event>,
    action: Action,
)
    requires
        remembers(state, log),
    ensures
        remembers(effect(state, queue, action).state, log + effect(state, queue, action).events),
        effect(state, queue, action).state.peer_pieces.len() == state.peer_pieces.len(),
{
    let e = effect(state, queue, action);
    let n = state.peer_pieces.len();
    match action {
        Action::Read(m) => {
            assert((log + e.events).drop_last() =~= log);
            assert((log + e.events).last() == Event::Read(m));
        },
        Action::Open(own_pieces, padding) => {
            lemma_remembers_outputs(log, e.events, n);
        },
        Action::Fill => {
            assert(log + e.events =~= log);
        },
        Action::Turn(keepalive_due, completed, coin) => {
            let out = turn_outputs(state, keepalive_due, completed, coin);
            law_turn_writes_what_is_due(state, keepalive_due, completed, coin);
            law_turn_remembers_what_it_wrote(state, keepalive_due, completed, coin);
            lemma_remembers_outputs(log, e.events, n);
            let told = Event::Done(OutputView::Write(Content::Interested));
            assert(e.events.contains(told) <==> writes(out, Content::Interested)) by {
                if writes(out, Content::Interested) {
                    let k = choose|k: int|
                        0 <= k < out.len() && out[k] == OutputView::Write(Content::Interested);
                    assert(e.events[k] == told);
                }
                if e.events.contains(told) {
                    let k = choose|k: int| 0 <= k < e.events.len() && e.events[k] == told;
                    assert(out[k] == OutputView::Write(Content::Interested));
                }
            }
        },
    }
}

/// Whatever a client does, each connection remembers what its peer has said: a piece counts as one
/// that the peer has exactly if the peer has said so, and what it has said last of choking us and
/// of wanting pieces counts. It also remembers whether the peer has been told that we want pieces.
pub proof fn law_connections_remember(queue: Seq<PieceView>, steps: Seq<Step>, i: int)
    requires
        0 <= i < run(queue, steps).peers.len(),
    ensures
        remembers(run(queue, steps).peers[i].state, run(queue, steps).peers[i].log),
    decreases steps.len(),
{
    if steps.len() > 0 {
        let before = run(queue, steps.drop_last());
        if i < before.peers.len() {
            law_connections_remember(queue, steps.drop_last(), i);
        }
        if let Step::Act(k, action) = steps.last() {
            if k == i && !before.peers[i].closed {
                let c = before.peers[i];
                lemma_remembers_action(c.state, before.queue, c.log, action);
            }
        }
    }
}

/// It is left to chance whether a turn tells of a completed piece exactly where the outcome makes a
/// difference, which is where the peer has the piece.
pub proof fn law_draw_is_made_where_it_matters(
    state: StateView,
    keepalive_due: bool,
    completed: Option<u32>,
)
    ensures
        needs_draw(state, completed) <==> (completed matches Some(p) && p < state.peer_pieces.len()
            && state.peer_pieces[p as int]),
        needs_draw(state, completed) <==> turn_outputs(state, keepalive_due, completed, true)
            != turn_outputs(state, keepalive_due, completed, false),
{
    let told = turn_outputs(state, keepalive_due, completed, true);
    let untold = turn_outputs(state, keepalive_due, completed, false);
    if needs_draw(state, completed) {
        assert(told.len() == untold.len() + 1);
    } else {
        assert(told == untold);
    }
}

/// Free blocks of pieces that a peer has are requested from it as soon as there is room for them:
/// if the pipeline of a peer that does not refuse has room left once it has been filled, the next
/// turn requests all of them.
pub proof fn law_free_blocks_are_requested(
    state: StateView,
    queue: Seq<PieceView>,
    keepalive_due: bool,
    completed: Option<u32>,
    coin: bool,
    m: BlockMeta,
)
    requires
        ordered_pieces(queue),
        !state.am_choked,
        effect(state, queue, Action::Fill).state.block_queue.len() < PIPELINE_AMOUNT,
        is_free(queue, state.peer_pieces, m),
    ensures
        writes(
            turn_outputs(
                effect(state, queue, Action::Fill).state,
                keepalive_due,
                completed,
                coin,
            ),
            Content::Request(m),
        ),
{
    let filled = effect(state, queue, Action::Fill).state;
    let n = PIPELINE_AMOUNT - state.block_queue.len();
    let metas = queue_taken(queue, state.peer_pieces, n);
    law_taking(queue, state.peer_pieces, n);
    assert(metas.len() != n);
    assert(metas.contains(m));
    let i = choose|i: int| 0 <= i < metas.len() && metas[i] == m;
    let k = state.block_queue.len() + i;
    assert(filled.block_queue[k] == (BlockWork { block_meta: m, requested: false }));
    let out = turn_outputs(filled, keepalive_due, completed, coin);
    law_turn_writes_what_is_due(filled, keepalive_due, completed, coin);
    filled.block_queue.lemma_filter_contains(asked_for(false), k);
    let d = due(filled);
    let j = choose|j: int| 0 <= j < d.len() && d[j] == filled.block_queue[k];
    let h = outputs_before_requests(out, completed);
    assert(out[h + j] == OutputView::Write(Content::Request(m)));
}

/// Outputs are seen one by one, each as the message that it writes.
pub proof fn law_outputs_are_seen_as_they_are(outputs: Seq<Output>, message: Message, block: Block)
    ensures
        outputs_view(outputs).len() == outputs.len(),
        forall|i: int|
            0 <= i < outputs.len() ==> #[trigger] outputs_view(outputs)[i] == outputs[i]@,
        Output::Write(message)@ == OutputView::Write(message@),
        Output::Flush@ == OutputView::Flush,
        block_view(Some(block)) == Some((block.meta, block.data@)),
        block_view(None) is None,
{
}

/// A connection begins with a peer that has no piece, refuses our requests and wants nothing, from
/// which no block has been taken, and to which nothing has been told.
pub proof fn law_connections_begin_with_nothing(num_pieces: nat, p: int)
    requires
        0 <= p < num_pieces,
    ensures
        ({
            let state = fresh_state(num_pieces);
            &&& state.peer_pieces.len() == num_pieces
            &&& !state.peer_pieces[p]
            &&& state.am_choked
            &&& !state.peer_interested
            &&& state.block_queue.len() == 0
            &&& state.need_send_bitfield
            &&& !state.am_interested
            &&& !state.sent_message
        }),
{
}

/// We listen on port 6881, request blocks of 16 KiB, five at a time, connect to twenty peers, and
/// keep connections alive after two minutes.
pub proof fn law_settings()
    ensures
        PORT == 6881,
        BLOCK_SIZE == 16 * 1024,
        PIPELINE_AMOUNT == 5,
        MAX_PEERS == 20,
        KEEPALIVE_NANOS == 120 * 1_000_000_000,
{
}

} // verus!
