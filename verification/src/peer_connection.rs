//! The connection with a peer: what its messages change, and what we write in return.

use vstd::prelude::*;

use crate::bits::{padding_of, BitField};
use crate::chance::Draw;
use crate::types::{Block, BlockMeta, Content, Message};
use crate::worker_queue::{
    fresh_work, get_available_blocks, has_piece, lemma_given_back_nothing, metas_of,
    queue_after_taking, queue_given_back, queue_taken, taken, BlockSlot, BlockWork, PieceView,
    WorkerQueue,
};

verus! {

/// The port that we listen on.
pub const PORT: u16 = 6881;

/// The length of the blocks that we request.
pub const BLOCK_SIZE: u32 = 16 * 1024;

/// The number of peers that we connect to.
pub const MAX_PEERS: usize = 20;

/// The number of blocks that we take for one peer.
pub const PIPELINE_AMOUNT: usize = 5;

/// The time after which an idle connection is kept alive, in nanoseconds.
pub const KEEPALIVE_NANOS: u128 = 120_000_000_000;

/// Whether it is time to keep a connection alive that was last kept alive so many nanoseconds ago.
pub fn keepalive_due(elapsed_nanos: u128) -> (r: bool)
    ensures
        r == (elapsed_nanos > 120_000_000_000),
{
    elapsed_nanos > KEEPALIVE_NANOS
}

/// Why a peer is refused.
#[derive(Debug, Clone, Copy, PartialEq, Eq)]
pub enum PeerConnectionError {
    /// The peer spoke of a piece that the torrent does not have.
    InvalidPieceIndex,
    /// The peer sent a bit field that is too short.
    InvalidBitfield,
}

/// What we know of a peer and what we have told it.
#[derive(Debug)]
pub struct PeerState {
    peer_pieces: BitField,
    am_choked: bool,
    peer_interested: bool,
    block_queue: Vec<BlockWork>,
    need_send_bitfield: bool,
    am_interested: bool,
    sent_message: bool,
}

/// What the state of a connection says.
pub struct StateView {
    /// The pieces that the peer has.
    pub peer_pieces: Seq<bool>,
    /// Whether the peer refuses our requests.
    pub am_choked: bool,
    /// Whether the peer wants pieces from us.
    pub peer_interested: bool,
    /// The blocks that we have taken to download from the peer.
    pub block_queue: Seq<BlockWork>,
    /// Whether the peer has not been told our pieces.
    pub need_send_bitfield: bool,
    /// Whether the peer has been told that we want pieces.
    pub am_interested: bool,
    /// Whether something has been written since the connection was last kept alive.
    pub sent_message: bool,
}

impl View for PeerState {
    type V = StateView;

    closed spec fn view(&self) -> StateView {
        StateView {
            peer_pieces: self.peer_pieces@,
            am_choked: self.am_choked,
            peer_interested: self.peer_interested,
            block_queue: self.block_queue@,
            need_send_bitfield: self.need_send_bitfield,
            am_interested: self.am_interested,
            sent_message: self.sent_message,
        }
    }
}

/// The state of a connection that begins, for a torrent of `num_pieces` pieces.
pub open spec fn fresh_state(num_pieces: nat) -> StateView {
    StateView {
        peer_pieces: Seq::new(num_pieces, |i: int| false),
        am_choked: true,
        peer_interested: false,
        block_queue: Seq::empty(),
        need_send_bitfield: true,
        am_interested: false,
        sent_message: false,
    }
}

/// The blocks among `work` whose having been requested is as `requested` says.
pub open spec fn only_requested(work: Seq<BlockWork>, requested: bool) -> Seq<BlockWork>
    decreases work.len(),
{
    if work.len() == 0 {
        Seq::empty()
    } else {
        let init = only_requested(work.drop_last(), requested);
        if work.last().requested == requested {
            init.push(work.last())
        } else {
            init
        }
    }
}

/// Where the first of `work` for a block is, or the length of `work`.
pub open spec fn place_of(work: Seq<BlockWork>, meta: BlockMeta) -> int
    decreases work.len(),
{
    if work.len() == 0 || work[0].block_meta == meta {
        0
    } else {
        1 + place_of(work.drop_first(), meta)
    }
}

/// What follows from a message.
pub struct Reaction {
    /// The state of the connection.
    pub state: StateView,
    /// The blocks that are given back to the queue.
    pub returned: Seq<BlockMeta>,
    /// The block that has been downloaded.
    pub delivered: Option<(BlockMeta, Seq<u8>)>,
}

/// A reaction that only changes the state.
pub open spec fn only_state(state: StateView) -> Reaction {
    Reaction { state, returned: Seq::empty(), delivered: None }
}

/// What a message of the peer changes. A choke drops the requests that are under way. A block
/// that we are waiting for is done with; one that we are not waiting for is passed over.
pub open spec fn reaction(state: StateView, m: Content) -> Result<Reaction, PeerConnectionError> {
    match m {
        Content::Choke => Ok(
            Reaction {
                state: StateView {
                    am_choked: true,
                    block_queue: only_requested(state.block_queue, false),
                    ..state
                },
                returned: metas_of(only_requested(state.block_queue, true)),
                delivered: None,
            },
        ),
        Content::Unchoke => Ok(only_state(StateView { am_choked: false, ..state })),
        Content::Interested => Ok(only_state(StateView { peer_interested: true, ..state })),
        Content::NotInterested => Ok(only_state(StateView { peer_interested: false, ..state })),
        Content::Have(piece_index) => if piece_index < state.peer_pieces.len() {
            Ok(
                only_state(
                    StateView {
                        peer_pieces: state.peer_pieces.update(piece_index as int, true),
                        ..state
                    },
                ),
            )
        } else {
            Err(PeerConnectionError::InvalidPieceIndex)
        },
        Content::BitField(bits, _) => if bits.len() >= state.peer_pieces.len() {
            Ok(
                only_state(
                    StateView {
                        peer_pieces: bits.take(state.peer_pieces.len() as int),
                        ..state
                    },
                ),
            )
        } else {
            Err(PeerConnectionError::InvalidBitfield)
        },
        Content::Piece(meta, data) => {
            let i = place_of(state.block_queue, meta);
            if i < state.block_queue.len() {
                Ok(
                    Reaction {
                        state: StateView { block_queue: state.block_queue.remove(i), ..state },
                        returned: Seq::empty(),
                        delivered: Some((meta, data)),
                    },
                )
            } else {
                Ok(only_state(state))
            }
        },
        Content::KeepAlive | Content::Request(_) | Content::Cancel(_) => Ok(only_state(state)),
    }
}

/// What a block holds.
pub open spec fn block_view(block: Option<Block>) -> Option<(BlockMeta, Seq<u8>)> {
    match block {
        Some(block) => Some((block.meta, block.data@)),
        None => None,
    }
}

impl PeerState {
    /// No more blocks are taken for the peer than the pipeline holds.
    pub open spec fn well_formed(self) -> bool {
        self@.block_queue.len() <= PIPELINE_AMOUNT
    }

    /// The state of a connection that begins, for a torrent of `num_pieces` pieces.
    pub fn new(num_pieces: usize) -> (state: PeerState)
        requires
            num_pieces <= usize::MAX / 8,
        ensures
            state.well_formed(),
            state@ == fresh_state(num_pieces as nat),
    {
        PeerState {
            peer_pieces: BitField::cleared(num_pieces),
            am_choked: true,
            peer_interested: false,
            block_queue: Vec::new(),
            need_send_bitfield: true,
            am_interested: false,
            sent_message: false,
        }
    }

    /// Drops the requests that are under way and gives their blocks back.
    fn drop_requested(&mut self, worker_queue: &mut WorkerQueue)
        requires
            old(worker_queue).well_formed(),
        ensures
            final(worker_queue).well_formed(),
            final(worker_queue)@ == queue_given_back(
                old(worker_queue)@,
                metas_of(only_requested(old(self)@.block_queue, true)),
            ),
            final(self)@ == (StateView {
                block_queue: only_requested(old(self)@.block_queue, false),
                ..old(self)@
            }),
            final(self)@.block_queue.len() <= old(self)@.block_queue.len(),
    {
        let ghost all = self.block_queue@;
        let ghost before = self@;
        let mut kept: Vec<BlockWork> = Vec::new();
        let mut dropped: Vec<BlockWork> = Vec::new();
        proof {
            assert(all.take(0) =~= Seq::<BlockWork>::empty());
        }
        for i in 0..self.block_queue.len()
            invariant
                self.block_queue@ == all,
                self@ == before,
                kept@ == only_requested(all.take(i as int), false),
                dropped@ == only_requested(all.take(i as int), true),
                kept@.len() <= i,
        {
            proof {
                assert(all.take(i + 1).drop_last() =~= all.take(i as int));
            }
            let work: BlockWork = self.block_queue[i];
            if work.requested {
                dropped.push(work);
            } else {
                kept.push(work);
            }
        }
        proof {
            assert(all.take(all.len() as int) =~= all);
        }
        worker_queue.release_all(&dropped);
        self.block_queue = kept;
    }

    /// Where the block is that we are waiting for.
    fn find(&self, meta: &BlockMeta) -> (i: usize)
        ensures
            i == place_of(self@.block_queue, *meta),
            i <= self@.block_queue.len(),
    {
        let ghost all = self.block_queue@;
        let mut i: usize = 0;
        proof {
            assert(all.skip(0) =~= all);
        }
        while i < self.block_queue.len() && self.block_queue[i].block_meta != *meta
            invariant
                all == self.block_queue@,
                i <= all.len(),
                place_of(all, *meta) == i + place_of(all.skip(i as int), *meta),
            decreases all.len() - i,
        {
            proof {
                assert(all.skip(i as int).drop_first() =~= all.skip(i + 1));
            }
            i = i + 1;
        }
        i
    }

    /// Takes a message of the peer in. A block that it completes is returned, to be stored.
    #[verifier::rlimit(40)]
    pub fn on_message(&mut self, worker_queue: &mut WorkerQueue, message: Message) -> (r: Result<
        Option<Block>,
        PeerConnectionError,
    >)
        requires
            old(self).well_formed(),
            old(worker_queue).well_formed(),
        ensures
            final(self).well_formed(),
            final(worker_queue).well_formed(),
            match reaction(old(self)@, message@) {
                Err(e) => r == Err::<Option<Block>, PeerConnectionError>(e) && final(self)@ == old(
                    self,
                )@ && final(worker_queue)@ == old(worker_queue)@,
                Ok(reaction) => r matches Ok(block) && block_view(block) == reaction.delivered
                    && final(self)@ == reaction.state && final(worker_queue)@ == queue_given_back(
                    old(worker_queue)@,
                    reaction.returned,
                ),
            },
    {
        proof {
            lemma_given_back_nothing(worker_queue@);
        }
        match message {
            Message::KeepAlive => Ok(None),
            Message::Choke => {
                self.am_choked = true;
                self.drop_requested(worker_queue);
                Ok(None)
            },
            Message::Unchoke => {
                self.am_choked = false;
                Ok(None)
            },
            Message::Interested => {
                self.peer_interested = true;
                Ok(None)
            },
            Message::NotInterested => {
                self.peer_interested = false;
                Ok(None)
            },
            Message::Have(piece_index) => {
                if self.peer_pieces.set(piece_index as usize, true) {
                    Ok(None)
                } else {
                    Err(PeerConnectionError::InvalidPieceIndex)
                }
            },
            Message::BitField(bitfield) => {
                let mut bitfield = bitfield;
                let len = self.peer_pieces.len();
                if bitfield.len() < len {
                    return Err(PeerConnectionError::InvalidBitfield);
                }
                let ghost bits = bitfield@;
                bitfield.cut(len);
                proof {
                    assert(bits.take(bits.len() as int) =~= bits);
                }
                self.peer_pieces.exchange(&mut bitfield);
                Ok(None)
            },
            Message::Request(_) => Ok(None),
            Message::Cancel(_) => Ok(None),
            Message::Piece(block) => {
                let i = self.find(&block.meta);
                if i < self.block_queue.len() {
                    self.block_queue.remove(i);
                    Ok(Some(block))
                } else {
                    Ok(None)
                }
            },
        }
    }
}

/// What is to be done on the connection.
#[derive(Debug, PartialEq, Eq)]
pub enum Output {
    /// A message is to be written.
    Write(Message),
    /// What has been written is to be sent off.
    Flush,
}

/// What a turn of writing gives: what is to be done on the connection, and the draw that was made.
#[derive(Debug, PartialEq, Eq)]
pub struct Turn {
    pub outputs: Vec<Output>,
    pub draw: Option<Draw>,
}

/// What an output says.
pub enum OutputView {
    Write(Content),
    Flush,
}

impl View for Output {
    type V = OutputView;

    open spec fn view(&self) -> OutputView {
        match self {
            Output::Write(message) => OutputView::Write(message@),
            Output::Flush => OutputView::Flush,
        }
    }
}

/// What outputs say, one by one.
pub open spec fn outputs_view(outputs: Seq<Output>) -> Seq<OutputView> {
    outputs.map_values(|output: Output| output@)
}

/// Whether a turn keeps the connection alive: the time has come, and nothing has been written.
pub open spec fn keeps_alive(state: StateView, keepalive_due: bool) -> bool {
    keepalive_due && !state.sent_message
}

/// Whether a turn tells the peer that we want pieces: once, as soon as there are blocks to
/// download.
pub open spec fn tells_interest(state: StateView) -> bool {
    !state.am_interested && state.block_queue.len() > 0
}

/// Whether a turn tells the peer of a piece that we have completed. If the peer has the piece
/// itself, that is left to the coin.
pub open spec fn tells_have(state: StateView, completed: Option<u32>, coin: bool) -> bool {
    match completed {
        Some(piece_index) => !has_piece(state.peer_pieces, piece_index) || coin,
        None => false,
    }
}

/// Whether a turn leaves it to chance whether it tells of a completed piece, since the peer has it
/// itself.
pub open spec fn needs_draw(state: StateView, completed: Option<u32>) -> bool {
    completed matches Some(piece_index) && has_piece(state.peer_pieces, piece_index)
}

/// The requests for the blocks of some work.
pub open spec fn requests(work: Seq<BlockWork>) -> Seq<OutputView> {
    work.map_values(|w: BlockWork| OutputView::Write(Content::Request(w.block_meta)))
}

/// The blocks that a turn requests: unless the peer refuses, those that have not been requested.
pub open spec fn to_request(state: StateView) -> Seq<BlockWork> {
    if state.am_choked {
        Seq::empty()
    } else {
        only_requested(state.block_queue, false)
    }
}

/// What a turn writes to keep the connection alive.
pub open spec fn keepalive_outputs(state: StateView, keepalive_due: bool) -> Seq<OutputView> {
    if keeps_alive(state, keepalive_due) {
        seq![OutputView::Write(Content::KeepAlive), OutputView::Flush]
    } else {
        Seq::empty()
    }
}

/// What a turn writes to tell that we want pieces.
pub open spec fn interest_outputs(state: StateView) -> Seq<OutputView> {
    if tells_interest(state) {
        seq![OutputView::Write(Content::Interested)]
    } else {
        Seq::empty()
    }
}

/// What a turn writes to tell of a piece that we have completed.
pub open spec fn have_outputs(
    state: StateView,
    completed: Option<u32>,
    coin: bool,
) -> Seq<OutputView> {
    if tells_have(state, completed, coin) {
        seq![OutputView::Write(Content::Have(completed->0))]
    } else {
        Seq::empty()
    }
}

/// What a turn writes.
pub open spec fn turn_outputs(
    state: StateView,
    keepalive_due: bool,
    completed: Option<u32>,
    coin: bool,
) -> Seq<OutputView> {
    keepalive_outputs(state, keepalive_due) + interest_outputs(state) + have_outputs(
        state,
        completed,
        coin,
    ) + requests(to_request(state)) + seq![OutputView::Flush]
}

/// Work of which every block has been requested.
pub open spec fn all_requested(work: Seq<BlockWork>) -> Seq<BlockWork> {
    work.map_values(|w: BlockWork| BlockWork { block_meta: w.block_meta, requested: true })
}

/// The state behind a turn.
pub open spec fn turn_state(
    state: StateView,
    keepalive_due: bool,
    completed: Option<u32>,
    coin: bool,
) -> StateView {
    StateView {
        block_queue: if state.am_choked {
            state.block_queue
        } else {
            all_requested(state.block_queue)
        },
        am_interested: state.am_interested || state.block_queue.len() > 0,
        sent_message: (state.sent_message && !keeps_alive(state, keepalive_due)) || tells_interest(
            state,
        ) || tells_have(state, completed, coin) || to_request(state).len() > 0,
        ..state
    }
}

/// Puts an output behind others.
fn put(outputs: &mut Vec<Output>, output: Output)
    ensures
        outputs_view(final(outputs)@) == outputs_view(old(outputs)@) + seq![output@],
{
    let ghost before = outputs@;
    outputs.push(output);
    proof {
        assert(outputs_view(outputs@) =~= outputs_view(before) + seq![output@]);
    }
}

impl PeerState {
    /// Before anything else is written, the peer is told our pieces if we have any.
    pub fn opening(&mut self, own_pieces: &BitField) -> (r: Option<Message>)
        requires
            old(self).well_formed(),
        ensures
            final(self).well_formed(),
            final(self)@ == (StateView { need_send_bitfield: false, ..old(self)@ }),
            match r {
                Some(message) => old(self)@.need_send_bitfield && own_pieces@.contains(true)
                    && message@ == Content::BitField(
                    own_pieces@,
                    Seq::new(padding_of(*own_pieces).len(), |i: int| false),
                ),
                None => !old(self)@.need_send_bitfield || !own_pieces@.contains(true),
            },
    {
        let tell: bool = self.need_send_bitfield && own_pieces.any_bit();
        self.need_send_bitfield = false;
        if tell {
            Some(Message::BitField(own_pieces.clone()))
        } else {
            None
        }
    }

    /// Whether the pipeline has room for blocks.
    pub fn has_room(&self) -> (r: bool)
        ensures
            r == (self@.block_queue.len() < PIPELINE_AMOUNT),
    {
        self.block_queue.len() < PIPELINE_AMOUNT
    }

    /// Takes blocks of pieces that the peer has until the pipeline is full.
    pub fn fill_pipeline(&mut self, worker_queue: &mut WorkerQueue)
        requires
            old(self).well_formed(),
            old(worker_queue).well_formed(),
        ensures
            final(self).well_formed(),
            final(worker_queue).well_formed(),
            final(worker_queue)@ == queue_after_taking(
                old(worker_queue)@,
                old(self)@.peer_pieces,
                PIPELINE_AMOUNT - old(self)@.block_queue.len(),
            ),
            final(self)@ == (StateView {
                block_queue: old(self)@.block_queue + fresh_work(
                    queue_taken(
                        old(worker_queue)@,
                        old(self)@.peer_pieces,
                        PIPELINE_AMOUNT - old(self)@.block_queue.len(),
                    ),
                ),
                ..old(self)@
            }),
    {
        proof {
            lemma_taken_bound(
                worker_queue@,
                self@.peer_pieces,
                PIPELINE_AMOUNT - self@.block_queue.len(),
            );
        }
        if self.has_room() {
            get_available_blocks(
                &mut self.block_queue,
                worker_queue,
                &self.peer_pieces,
                PIPELINE_AMOUNT,
            );
        } else {
            proof {
                assert(self.block_queue@ + fresh_work(Seq::empty()) =~= self.block_queue@);
            }
        }
    }

    /// Whether the peer has a piece.
    fn peer_has(&self, piece_index: u32) -> (r: bool)
        ensures
            r == has_piece(self@.peer_pieces, piece_index),
    {
        match self.peer_pieces.get(piece_index as usize) {
            Some(has) => has,
            None => false,
        }
    }

    /// Requests the blocks that have not been requested.
    fn request_blocks(&mut self, outputs: &mut Vec<Output>)
        ensures
            outputs_view(final(outputs)@) == outputs_view(old(outputs)@) + requests(
                only_requested(old(self)@.block_queue, false),
            ),
            final(self)@ == (StateView {
                block_queue: all_requested(old(self)@.block_queue),
                sent_message: old(self)@.sent_message || only_requested(
                    old(self)@.block_queue,
                    false,
                ).len() > 0,
                ..old(self)@
            }),
    {
        let ghost before = self@;
        let ghost work = self.block_queue@;
        let ghost said = outputs_view(outputs@);
        let n: usize = self.block_queue.len();
        proof {
            assert(work.take(0) =~= Seq::<BlockWork>::empty());
            assert(said + requests(Seq::empty()) =~= said);
        }
        for i in 0..n
            invariant
                n == work.len(),
                self.block_queue@.len() == work.len(),
                forall|j: int|
                    0 <= j < i ==> #[trigger] self.block_queue@[j] == all_requested(work)[j],
                forall|j: int| i <= j < work.len() ==> #[trigger] self.block_queue@[j] == work[j],
                outputs_view(outputs@) == said + requests(
                    only_requested(work.take(i as int), false),
                ),
                self@.peer_pieces == before.peer_pieces,
                self@.am_choked == before.am_choked,
                self@.peer_interested == before.peer_interested,
                self@.need_send_bitfield == before.need_send_bitfield,
                self@.am_interested == before.am_interested,
                self@.sent_message == (before.sent_message || only_requested(
                    work.take(i as int),
                    false,
                ).len() > 0),
        {
            let item: BlockWork = self.block_queue[i];
            let ghost asked = only_requested(work.take(i as int), false);
            proof {
                assert(work.take(i + 1).drop_last() =~= work.take(i as int));
            }
            if !item.requested {
                put(outputs, Output::Write(Message::Request(item.block_meta)));
                self.sent_message = true;
                self.block_queue.set(i, BlockWork { block_meta: item.block_meta, requested: true });
                proof {
                    let request = OutputView::Write(Content::Request(item.block_meta));
                    assert(requests(asked.push(item)) =~= requests(asked) + seq![request]);
                    assert(outputs_view(outputs@) =~= said + requests(asked.push(item)));
                }
            }
        }
        proof {
            assert(work.take(work.len() as int) =~= work);
            assert(self.block_queue@ =~= all_requested(work));
        }
    }

    /// One turn of writing, with the coin tossed already.
    #[verifier::rlimit(40)]
    pub fn write_turn_with(
        &mut self,
        keepalive_due: bool,
        completed: Option<u32>,
        coin: bool,
    ) -> (outputs: Vec<Output>)
        requires
            old(self).well_formed(),
        ensures
            final(self).well_formed(),
            outputs_view(outputs@) == turn_outputs(old(self)@, keepalive_due, completed, coin),
            final(self)@ == turn_state(old(self)@, keepalive_due, completed, coin),
    {
        let ghost before = self@;
        let ghost alive = keepalive_outputs(before, keepalive_due);
        let ghost interest = interest_outputs(before);
        let ghost have = have_outputs(before, completed, coin);
        let mut outputs: Vec<Output> = Vec::new();
        if keepalive_due && !self.sent_message {
            put(&mut outputs, Output::Write(Message::KeepAlive));
            put(&mut outputs, Output::Flush);
            self.sent_message = false;
        }
        assert(outputs_view(outputs@) =~= alive);
        if !self.am_interested && self.block_queue.len() > 0 {
            put(&mut outputs, Output::Write(Message::Interested));
            self.am_interested = true;
            self.sent_message = true;
        }
        assert(outputs_view(outputs@) =~= alive + interest);
        if let Some(piece_index) = completed {
            if !self.peer_has(piece_index) || coin {
                put(&mut outputs, Output::Write(Message::Have(piece_index)));
                self.sent_message = true;
            }
        }
        assert(outputs_view(outputs@) =~= alive + interest + have);
        if !self.am_choked {
            self.request_blocks(&mut outputs);
        }
        assert(outputs_view(outputs@) =~= alive + interest + have + requests(to_request(before)));
        put(&mut outputs, Output::Flush);
        outputs
    }

    /// One turn of writing. Of a completed piece that the peer has itself it is told in one of
    /// five cases: it hardly wants to hear of it, but the swarm learns which pieces are rare. The
    /// draw is returned where there was one.
    pub fn write_turn(&mut self, keepalive_due: bool, completed: Option<u32>) -> (turn: Turn)
        requires
            old(self).well_formed(),
        ensures
            final(self).well_formed(),
            turn.draw is Some <==> needs_draw(old(self)@, completed),
            turn.draw matches Some(draw) ==> draw.odds() == (1u32, 5u32),
            ({
                let coin = turn.draw matches Some(draw) && draw.outcome();
                &&& outputs_view(turn.outputs@) == turn_outputs(
                    old(self)@,
                    keepalive_due,
                    completed,
                    coin,
                )
                &&& final(self)@ == turn_state(old(self)@, keepalive_due, completed, coin)
            }),
    {
        let draw: Option<Draw> = match completed {
            Some(piece_index) => if self.peer_has(piece_index) {
                Some(Draw::toss(1, 5))
            } else {
                None
            },
            None => None,
        };
        let coin: bool = match &draw {
            Some(draw) => draw.came_true(),
            None => false,
        };
        let outputs = self.write_turn_with(keepalive_due, completed, coin);
        Turn { outputs, draw }
    }

    /// Ends the connection: the blocks that had been taken for the peer are given back.
    pub fn close(self, worker_queue: &mut WorkerQueue)
        requires
            old(worker_queue).well_formed(),
        ensures
            final(worker_queue).well_formed(),
            final(worker_queue)@ == queue_given_back(
                old(worker_queue)@,
                metas_of(self@.block_queue),
            ),
    {
        worker_queue.release_all(&self.block_queue);
    }
}

/// No more blocks are taken than asked for.
proof fn lemma_taken_bound(pieces: Seq<PieceView>, peer_pieces: Seq<bool>, n: int)
    requires
        n >= 0,
    ensures
        queue_taken(pieces, peer_pieces, n).len() <= n,
    decreases pieces.len(),
{
    if pieces.len() > 0 && n != 0 {
        lemma_block_taken_bound(pieces[0].blocks, n);
        lemma_taken_bound(pieces.drop_first(), peer_pieces, n);
        lemma_taken_bound(
            pieces.drop_first(),
            peer_pieces,
            n - taken(pieces[0].blocks, n).len(),
        );
    }
}

proof fn lemma_block_taken_bound(blocks: Seq<BlockSlot>, n: int)
    requires
        n >= 0,
    ensures
        taken(blocks, n).len() <= n,
    decreases blocks.len(),
{
    if blocks.len() > 0 && n != 0 {
        lemma_block_taken_bound(blocks.drop_first(), n);
        lemma_block_taken_bound(blocks.drop_first(), n - 1);
    }
}

} // verus!
