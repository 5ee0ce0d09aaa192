//! The connections of a client over time: which steps there are, and what each does to the queue,
//! to the state of a connection and to the log of what was read and written on it.

use vstd::prelude::*;

use crate::peer_connection::{
    fresh_state, reaction, turn_outputs, turn_state, OutputView, StateView, PIPELINE_AMOUNT,
};
use crate::types::{BlockMeta, Content};
use crate::worker_queue::{
    fresh_work, metas_of, queue_after_taking, queue_given_back, queue_taken, without_piece,
    PieceView,
};

verus! {

/// Something that happened on a connection.
pub enum Event {
    /// A message of the peer was read.
    Read(Content),
    /// A message was written, or what had been written was sent off.
    Done(OutputView),
}

/// What is done with a connection.
pub enum Action {
    /// A message of the peer is taken in.
    Read(Content),
    /// The peer is told our pieces, which are sent with a padding.
    Open(Seq<bool>, Seq<bool>),
    /// Blocks are taken for the peer.
    Fill,
    /// A turn of writing: whether it is time to keep the connection alive, the piece that has been
    /// completed, and the coin.
    Turn(bool, Option<u32>, bool),
}

/// A connection, with the log of what was read and written on it.
pub struct Connection {
    pub state: StateView,
    pub log: Seq<Event>,
    pub closed: bool,
}

/// All connections that there have been, and the queue that they share.
pub struct Swarm {
    pub queue: Seq<PieceView>,
    pub peers: Seq<Connection>,
}

/// What a client does next.
pub enum Step {
    /// It connects to a further peer, for a torrent of so many pieces.
    Connect(nat),
    /// It acts on a connection.
    Act(int, Action),
    /// It ends a connection.
    Close(int),
    /// It has completed a piece.
    Complete(u32),
}

/// What an action does: to the connection, to the queue and to the log.
pub struct Effect {
    pub state: StateView,
    pub queue: Seq<PieceView>,
    pub events: Seq<Event>,
}

/// The events of some outputs.
pub open spec fn done(outputs: Seq<OutputView>) -> Seq<Event> {
    outputs.map_values(|output: OutputView| Event::Done(output))
}

/// What an action does. Each case is what the method of `PeerState` for it does: `on_message`,
/// `opening`, `fill_pipeline` and `write_turn_with`.
pub open spec fn effect(state: StateView, queue: Seq<PieceView>, action: Action) -> Effect {
    match action {
        Action::Read(m) => match reaction(state, m) {
            Err(_) => Effect { state, queue, events: seq![Event::Read(m)] },
            Ok(r) => Effect {
                state: r.state,
                queue: queue_given_back(queue, r.returned),
                events: seq![Event::Read(m)],
            },
        },
        Action::Open(own_pieces, padding) => Effect {
            state: StateView { need_send_bitfield: false, ..state },
            queue,
            events: if state.need_send_bitfield && own_pieces.contains(true) {
                seq![Event::Done(OutputView::Write(Content::BitField(own_pieces, padding)))]
            } else {
                Seq::empty()
            },
        },
        Action::Fill => {
            let n = PIPELINE_AMOUNT - state.block_queue.len();
            Effect {
                state: StateView {
                    block_queue: state.block_queue + fresh_work(
                        queue_taken(queue, state.peer_pieces, n),
                    ),
                    ..state
                },
                queue: queue_after_taking(queue, state.peer_pieces, n),
                events: Seq::empty(),
            }
        },
        Action::Turn(keepalive_due, completed, coin) => Effect {
            state: turn_state(state, keepalive_due, completed, coin),
            queue,
            events: done(turn_outputs(state, keepalive_due, completed, coin)),
        },
    }
}

/// What a step does. Nothing is done with a connection that has ended.
pub open spec fn next(swarm: Swarm, step: Step) -> Swarm {
    match step {
        Step::Connect(num_pieces) => Swarm {
            queue: swarm.queue,
            peers: swarm.peers.push(
                Connection { state: fresh_state(num_pieces), log: Seq::empty(), closed: false },
            ),
        },
        Step::Act(i, action) => if 0 <= i < swarm.peers.len() && !swarm.peers[i].closed {
            let e = effect(swarm.peers[i].state, swarm.queue, action);
            Swarm {
                queue: e.queue,
                peers: swarm.peers.update(
                    i,
                    Connection {
                        state: e.state,
                        log: swarm.peers[i].log + e.events,
                        closed: false,
                    },
                ),
            }
        } else {
            swarm
        },
        Step::Close(i) => if 0 <= i < swarm.peers.len() && !swarm.peers[i].closed {
            let c = swarm.peers[i];
            Swarm {
                queue: queue_given_back(swarm.queue, metas_of(c.state.block_queue)),
                peers: swarm.peers.update(
                    i,
                    Connection {
                        state: StateView { block_queue: Seq::empty(), ..c.state },
                        log: c.log,
                        closed: true,
                    },
                ),
            }
        } else {
            swarm
        },
        Step::Complete(piece_index) => Swarm {
            queue: without_piece(swarm.queue, piece_index),
            peers: swarm.peers,
        },
    }
}

/// What comes of a queue by some steps, beginning without connections.
pub open spec fn run(queue: Seq<PieceView>, steps: Seq<Step>) -> Swarm
    decreases steps.len(),
{
    if steps.len() == 0 {
        Swarm { queue, peers: Seq::empty() }
    } else {
        next(run(queue, steps.drop_last()), steps.last())
    }
}

/// Whether an event is the writing of a request for a block.
pub open spec fn is_request(e: Event, m: BlockMeta) -> bool {
    e == Event::Done(OutputView::Write(Content::Request(m)))
}

/// Whether an event is the reading of a choke.
pub open spec fn is_choke(e: Event) -> bool {
    e == Event::Read(Content::Choke)
}

/// Whether an event is the reading of a block.
pub open spec fn is_answer(e: Event, m: BlockMeta) -> bool {
    e matches Event::Read(Content::Piece(meta, _)) && meta == m
}

/// Whether a block has been requested and no choke was read since.
pub open spec fn pending(log: Seq<Event>, m: BlockMeta) -> bool
    decreases log.len(),
{
    log.len() > 0 && !is_choke(log.last()) && (is_request(log.last(), m) || pending(
        log.drop_last(),
        m,
    ))
}

/// Whether a block has been requested, and neither the block nor a choke was read since.
pub open spec fn outstanding(log: Seq<Event>, m: BlockMeta) -> bool
    decreases log.len(),
{
    log.len() > 0 && !is_choke(log.last()) && !is_answer(log.last(), m) && (is_request(
        log.last(),
        m,
    ) || outstanding(log.drop_last(), m))
}

/// Whether a choke was read between two events.
pub open spec fn choke_between(log: Seq<Event>, a: int, b: int) -> bool {
    exists|c: int| a < c < b && is_choke(#[trigger] log[c])
}

/// Whether no block is requested twice without a choke in between.
pub open spec fn no_repeat(log: Seq<Event>) -> bool {
    forall|a: int, b: int, m: BlockMeta|
        0 <= a < b < log.len() && #[trigger] is_request(log[a], m) && #[trigger] is_request(
            log[b],
            m,
        ) ==> choke_between(log, a, b)
}

/// Whether there are at most as many outstanding requests as the pipeline holds.
pub open spec fn few_outstanding(log: Seq<Event>) -> bool {
    forall|metas: Seq<BlockMeta>| #[trigger]
        metas.no_duplicates() && (forall|k: int|
            0 <= k < metas.len() ==> outstanding(log, #[trigger] metas[k])) ==> metas.len()
            <= PIPELINE_AMOUNT
}

/// Whether, of chokes and unchokes, an unchoke was read last.
pub open spec fn unchoked(log: Seq<Event>) -> bool
    decreases log.len(),
{
    log.len() > 0 && !is_choke(log.last()) && (log.last() == Event::Read(Content::Unchoke)
        || unchoked(log.drop_last()))
}

/// How often the peer has been told that we want pieces.
pub open spec fn interest_told(log: Seq<Event>) -> nat
    decreases log.len(),
{
    if log.len() == 0 {
        0
    } else {
        interest_told(log.drop_last()) + (if log.last() == Event::Done(
            OutputView::Write(Content::Interested),
        ) {
            1nat
        } else {
            0nat
        })
    }
}

/// Whether a message tells that the peer has a piece of a torrent of `num_pieces` pieces.
pub open spec fn announces(m: Content, num_pieces: nat, piece_index: u32) -> bool {
    piece_index < num_pieces && match m {
        Content::Have(index) => index == piece_index,
        Content::BitField(bits, _) => bits.len() >= num_pieces && bits[piece_index as int],
        _ => false,
    }
}

/// Whether the peer has announced a piece.
pub open spec fn announced(log: Seq<Event>, num_pieces: nat, piece_index: u32) -> bool
    decreases log.len(),
{
    log.len() > 0 && ((log.last() matches Event::Read(m) && announces(m, num_pieces, piece_index))
        || announced(log.drop_last(), num_pieces, piece_index))
}

/// Whether a block is one of a queue.
pub open spec fn is_block_of(queue: Seq<PieceView>, m: BlockMeta) -> bool {
    exists|i: int, k: int|
        0 <= i < queue.len() && 0 <= k < queue[i].blocks.len() && (
        #[trigger] queue[i].blocks[k]).meta == m
}

/// Whether there is reason to request a block after what has happened: an unchoke was read last,
/// the peer has been told once that we want pieces, it has announced the piece of the block, and
/// the block is one of the queue.
pub open spec fn has_reason(
    log: Seq<Event>,
    num_pieces: nat,
    queue: Seq<PieceView>,
    m: BlockMeta,
) -> bool {
    &&& unchoked(log)
    &&& interest_told(log) == 1
    &&& announced(log, num_pieces, m.piece_index)
    &&& is_block_of(queue, m)
}

/// Whether there was reason for each request when it was written.
pub open spec fn all_reasoned(log: Seq<Event>, num_pieces: nat, queue: Seq<PieceView>) -> bool {
    forall|b: int, m: BlockMeta|
        0 <= b < log.len() && #[trigger] is_request(log[b], m) ==> has_reason(
            log.take(b),
            num_pieces,
            queue,
            m,
        )
}

} // verus!
