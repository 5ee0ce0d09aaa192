//! Laws of the requests that are written on connections over time.

use vstd::prelude::*;

use crate::peer_connection::{
    have_outputs, interest_outputs, keepalive_outputs, keeps_alive, requests, tells_have,
    tells_interest, to_request, turn_outputs, OutputView, StateView, PIPELINE_AMOUNT,
};
use crate::swarm::{
    all_reasoned, announced, announces, choke_between, done, effect, few_outstanding, has_reason,
    interest_told, is_answer, is_block_of, is_choke, is_request, no_repeat, outstanding, pending,
    unchoked, Action, Event,
};
use crate::swarm_laws::{
    law_action_keeps_blocks_apart, lemma_choke, lemma_fill, lemma_metas, lemma_one_item,
    lemma_only_requested, lemma_only_requested_distinct, lemma_piece, lemma_turn, reserved, sound,
    takes, waits_for,
};
use crate::types::{BlockMeta, Content};
use crate::worker_laws::{is_free, law_taking};
use crate::worker_queue::{
    has_piece, lemma_given_back_nothing, metas_of, queue_taken, BlockSlot, BlockWork, PieceView,
};

verus! {

/// What a log says after a further event.
proof fn lemma_push(log: Seq<Event>, e: Event)
    ensures
        forall|m: BlockMeta| #[trigger]
            pending(log.push(e), m) == (!is_choke(e) && (is_request(e, m) || pending(log, m))),
        forall|m: BlockMeta| #[trigger]
            outstanding(log.push(e), m) == (!is_choke(e) && !is_answer(e, m) && (is_request(e, m)
                || outstanding(log, m))),
        unchoked(log.push(e)) == (!is_choke(e) && (e == Event::Read(Content::Unchoke) || unchoked(
            log,
        ))),
        interest_told(log.push(e)) == interest_told(log) + (if e == Event::Done(
            OutputView::Write(Content::Interested),
        ) {
            1nat
        } else {
            0nat
        }),
        forall|n: nat, p: u32| #[trigger]
            announced(log.push(e), n, p) == ((e matches Event::Read(m) && announces(m, n, p))
                || announced(log, n, p)),
{
    assert(log.push(e).drop_last() =~= log);
    assert(log.push(e).last() == e);
}

/// Behind a request that is no longer pending a choke was read.
proof fn lemma_choke_behind(log: Seq<Event>, a: int, m: BlockMeta)
    requires
        0 <= a < log.len(),
        is_request(log[a], m),
        !pending(log, m),
    ensures
        choke_between(log, a, log.len() as int),
    decreases log.len(),
{
    let n = log.len() - 1;
    if is_choke(log[n]) {
        assert(a < n);
    } else {
        assert(a < n);
        let init = log.drop_last();
        assert(init[a] == log[a]);
        lemma_choke_behind(init, a, m);
        let c = choose|c: int| a < c < init.len() && is_choke(#[trigger] init[c]);
        assert(is_choke(log[c]));
    }
}

/// A request for a block that is not pending repeats none.
proof fn lemma_no_repeat_push(log: Seq<Event>, e: Event)
    requires
        no_repeat(log),
        forall|m: BlockMeta| #[trigger] is_request(e, m) ==> !pending(log, m),
    ensures
        no_repeat(log.push(e)),
{
    let longer = log.push(e);
    assert forall|a: int, b: int, m: BlockMeta|
        0 <= a < b < longer.len() && #[trigger] is_request(longer[a], m) && #[trigger] is_request(
            longer[b],
            m,
        ) implies choke_between(longer, a, b) by {
        assert(longer[a] == log[a]);
        if b < log.len() {
            assert(longer[b] == log[b]);
            assert(is_request(log[a], m) && is_request(log[b], m));
            assert(choke_between(log, a, b));
            let c = choose|c: int| a < c < b && is_choke(#[trigger] log[c]);
            assert(is_choke(longer[c]));
        } else {
            assert(is_request(e, m));
            lemma_choke_behind(log, a, m);
            let c = choose|c: int| a < c < log.len() && is_choke(#[trigger] log[c]);
            assert(is_choke(longer[c]));
        }
    }
}

/// A request for which there is reason keeps all requests reasoned.
proof fn lemma_reasoned_push(log: Seq<Event>, e: Event, n: nat, queue: Seq<PieceView>)
    requires
        all_reasoned(log, n, queue),
        forall|m: BlockMeta| #[trigger] is_request(e, m) ==> has_reason(log, n, queue, m),
    ensures
        all_reasoned(log.push(e), n, queue),
{
    let longer = log.push(e);
    assert forall|b: int, m: BlockMeta|
        0 <= b < longer.len() && #[trigger] is_request(longer[b], m) implies has_reason(
        longer.take(b),
        n,
        queue,
        m,
    ) by {
        assert(longer.take(b) =~= log.take(b));
        if b < log.len() {
            assert(longer[b] == log[b]);
            assert(is_request(log[b], m));
        } else {
            assert(log.take(b) =~= log);
            assert(is_request(e, m));
        }
    }
}

/// Whether events are outputs, none of which is a request.
spec fn quiet(events: Seq<Event>) -> bool {
    forall|k: int|
        0 <= k < events.len() ==> (#[trigger] events[k] matches Event::Done(o) && !(
        o matches OutputView::Write(Content::Request(_))))
}

/// What a log says after outputs that are no requests.
proof fn lemma_append_quiet(log: Seq<Event>, events: Seq<Event>, n: nat, queue: Seq<PieceView>)
    requires
        quiet(events),
    ensures
        forall|m: BlockMeta| #[trigger] pending(log + events, m) == pending(log, m),
        forall|m: BlockMeta| #[trigger] outstanding(log + events, m) == outstanding(log, m),
        unchoked(log + events) == unchoked(log),
        interest_told(log + events) == interest_told(log) + interest_told(events),
        forall|k: nat, p: u32| #[trigger] announced(log + events, k, p) == announced(log, k, p),
        no_repeat(log) ==> no_repeat(log + events),
        all_reasoned(log, n, queue) ==> all_reasoned(log + events, n, queue),
    decreases events.len(),
{
    if events.len() == 0 {
        assert(log + events =~= log);
    } else {
        let init = events.drop_last();
        let e = events.last();
        assert(quiet(init)) by {
            assert forall|k: int| 0 <= k < init.len() implies (
            #[trigger] init[k] matches Event::Done(o) && !(
            o matches OutputView::Write(Content::Request(_)))) by {
                assert(init[k] == events[k]);
            }
        }
        lemma_append_quiet(log, init, n, queue);
        let shorter = log + init;
        assert(log + events =~= shorter.push(e));
        assert(events =~= init.push(e));
        assert(events[events.len() - 1] == e);
        lemma_push(shorter, e);
        lemma_push(init, e);
        if no_repeat(log) {
            lemma_no_repeat_push(shorter, e);
        }
        if all_reasoned(log, n, queue) {
            lemma_reasoned_push(shorter, e, n, queue);
        }
    }
}

/// What a log says after requests for distinct blocks, none of which is pending.
#[verifier::rlimit(40)]
proof fn lemma_append_requests(
    log: Seq<Event>,
    work: Seq<BlockWork>,
    n: nat,
    queue: Seq<PieceView>,
)
    requires
        metas_of(work).no_duplicates(),
        no_repeat(log),
        forall|k: int| 0 <= k < work.len() ==> !pending(log, (#[trigger] work[k]).block_meta),
    ensures
        forall|m: BlockMeta| #[trigger]
            pending(log + done(requests(work)), m) == (pending(log, m) || metas_of(
                work,
            ).contains(m)),
        forall|m: BlockMeta| #[trigger]
            outstanding(log + done(requests(work)), m) ==> (outstanding(log, m) || metas_of(
                work,
            ).contains(m)),
        unchoked(log + done(requests(work))) == unchoked(log),
        interest_told(log + done(requests(work))) == interest_told(log),
        forall|k: nat, p: u32| #[trigger]
            announced(log + done(requests(work)), k, p) == announced(log, k, p),
        no_repeat(log + done(requests(work))),
        all_reasoned(log, n, queue) && (forall|k: int|
            0 <= k < work.len() ==> has_reason(log, n, queue, (#[trigger] work[k]).block_meta))
            ==> all_reasoned(log + done(requests(work)), n, queue),
    decreases work.len(),
{
    let events = done(requests(work));
    if work.len() == 0 {
        assert(log + events =~= log);
        assert forall|m: BlockMeta| !(#[trigger] metas_of(work).contains(m)) by {}
    } else {
        let init = work.drop_last();
        let w = work.last();
        let m0 = w.block_meta;
        let e = Event::Done(OutputView::Write(Content::Request(m0)));
        assert(metas_of(init) =~= metas_of(work).drop_last());
        assert forall|i: int, j: int|
            0 <= i < metas_of(init).len() && 0 <= j < metas_of(init).len() && i
                != j implies metas_of(init)[i] != metas_of(init)[j] by {
            assert(metas_of(work)[i] != metas_of(work)[j]);
        }
        assert forall|k: int| 0 <= k < init.len() implies !pending(
            log,
            (#[trigger] init[k]).block_meta,
        ) by {
            assert(init[k] == work[k]);
        }
        lemma_append_requests(log, init, n, queue);
        let shorter = log + done(requests(init));
        assert(log + events =~= shorter.push(e));
        assert(work[work.len() - 1] == w);
        assert(!metas_of(init).contains(m0)) by {
            if metas_of(init).contains(m0) {
                let k = choose|k: int| 0 <= k < metas_of(init).len() && metas_of(init)[k] == m0;
                assert(metas_of(work)[k] == metas_of(work)[work.len() - 1]);
            }
        }
        assert forall|m: BlockMeta| #[trigger] metas_of(work).contains(m) <==> metas_of(
            init,
        ).contains(m) || m == m0 by {
            if metas_of(init).contains(m) {
                let k = choose|k: int| 0 <= k < metas_of(init).len() && metas_of(init)[k] == m;
                assert(metas_of(work)[k] == m);
            }
            if m == m0 {
                assert(metas_of(work)[work.len() - 1] == m);
            }
            if metas_of(work).contains(m) && m != m0 {
                let k = choose|k: int| 0 <= k < metas_of(work).len() && metas_of(work)[k] == m;
                assert(metas_of(init)[k] == m);
            }
        }
        lemma_push(shorter, e);
        assert forall|m: BlockMeta| #[trigger] is_request(e, m) implies !pending(shorter, m) by {
            assert(m == m0);
            assert(!pending(log, work[work.len() - 1].block_meta));
        }
        lemma_no_repeat_push(shorter, e);
        if all_reasoned(log, n, queue) && (forall|k: int|
            0 <= k < work.len() ==> has_reason(log, n, queue, (#[trigger] work[k]).block_meta)) {
            assert forall|k: int| 0 <= k < init.len() implies has_reason(
                log,
                n,
                queue,
                (#[trigger] init[k]).block_meta,
            ) by {
                assert(init[k] == work[k]);
            }
            assert(has_reason(log, n, queue, work[work.len() - 1].block_meta));
            assert forall|m: BlockMeta| #[trigger] is_request(e, m) implies has_reason(
                shorter,
                n,
                queue,
                m,
            ) by {
                assert(m == m0);
            }
            lemma_reasoned_push(shorter, e, n, queue);
        }
    }
}

/// Whether the log of a connection repeats no request, and its state answers for what is pending:
/// a block that is pending is waited for, or has been delivered and is out of everybody's reach.
/// `others` are the blocks that other connections have taken.
pub open spec fn unrepeated(
    state: StateView,
    queue: Seq<PieceView>,
    log: Seq<Event>,
    others: Set<BlockMeta>,
) -> bool {
    &&& no_repeat(log)
    &&& forall|m: BlockMeta| #[trigger] outstanding(log, m) ==> waits_for(state, m)
    &&& forall|m: BlockMeta| #[trigger]
        pending(log, m) ==> waits_for(state, m) || (reserved(queue, m) && !takes(state, m)
            && !others.contains(m))
}

/// Whether other connections have taken blocks that this one has not, and that are reserved.
pub open spec fn apart_from(
    state: StateView,
    queue: Seq<PieceView>,
    others: Set<BlockMeta>,
) -> bool {
    forall|m: BlockMeta| #[trigger] others.contains(m) ==> reserved(queue, m) && !takes(state, m)
}

/// Who waits for a block has taken it.
proof fn lemma_waits_takes(state: StateView, m: BlockMeta)
    requires
        waits_for(state, m),
    ensures
        takes(state, m),
{
    lemma_metas(state.block_queue, m);
}

proof fn lemma_unrepeated_read(
    state: StateView,
    queue: Seq<PieceView>,
    log: Seq<Event>,
    others: Set<BlockMeta>,
    content: Content,
)
    requires
        sound(state, queue),
        apart_from(state, queue, others),
        unrepeated(state, queue, log, others),
    ensures
        ({
            let e = effect(state, queue, Action::Read(content));
            unrepeated(e.state, e.queue, log + e.events, others)
        }),
{
    let e = effect(state, queue, Action::Read(content));
    let event = Event::Read(content);
    assert(log + e.events =~= log.push(event));
    lemma_push(log, event);
    lemma_no_repeat_push(log, event);
    lemma_given_back_nothing(queue);
    match content {
        Content::Choke => {},
        Content::Piece(meta, data) => {
            lemma_piece(state, queue, meta, data);
            assert forall|m: BlockMeta| #[trigger] pending(log.push(event), m) implies waits_for(
                e.state,
                m,
            ) || (reserved(e.queue, m) && !takes(e.state, m) && !others.contains(m)) by {
                assert(pending(log, m));
                if waits_for(state, m) {
                    lemma_waits_takes(state, m);
                    assert(!takes(e.state, m) || m != meta);
                } else {
                    assert(!takes(e.state, m)) by {
                        assert(takes(e.state, m) ==> takes(state, m));
                    }
                }
            }
            assert forall|m: BlockMeta| #[trigger]
                outstanding(log.push(event), m) implies waits_for(e.state, m) by {
                assert(outstanding(log, m));
                assert(waits_for(state, m) && m != meta);
            }
        },
        _ => {
            assert(e.queue == queue);
            assert(e.state.block_queue == state.block_queue);
            assert forall|m: BlockMeta| #[trigger] pending(log.push(event), m) implies waits_for(
                e.state,
                m,
            ) || (reserved(e.queue, m) && !takes(e.state, m) && !others.contains(m)) by {
                assert(pending(log, m));
            }
            assert forall|m: BlockMeta| #[trigger]
                outstanding(log.push(event), m) implies waits_for(e.state, m) by {
                assert(outstanding(log, m));
                assert(waits_for(state, m));
            }
        },
    }
}

proof fn lemma_unrepeated_fill(
    state: StateView,
    queue: Seq<PieceView>,
    log: Seq<Event>,
    others: Set<BlockMeta>,
)
    requires
        sound(state, queue),
        apart_from(state, queue, others),
        unrepeated(state, queue, log, others),
    ensures
        ({
            let e = effect(state, queue, Action::Fill);
            unrepeated(e.state, e.queue, log + e.events, others)
        }),
{
    let e = effect(state, queue, Action::Fill);
    assert(log + e.events =~= log);
    lemma_fill(state, queue);
    assert forall|m: BlockMeta| #[trigger] pending(log, m) implies waits_for(e.state, m) || (
    reserved(e.queue, m) && !takes(e.state, m) && !others.contains(m)) by {
        if !waits_for(state, m) {
            assert(reserved(queue, m) && !takes(state, m));
        }
    }
    assert forall|m: BlockMeta| #[trigger] outstanding(log, m) implies waits_for(e.state, m) by {
        assert(waits_for(state, m));
    }
}

/// The outputs of a turn in front of its requests.
spec fn first_outputs(
    state: StateView,
    keepalive_due: bool,
    completed: Option<u32>,
    coin: bool,
) -> Seq<Event> {
    done(
        keepalive_outputs(state, keepalive_due) + interest_outputs(state) + have_outputs(
            state,
            completed,
            coin,
        ),
    )
}

proof fn lemma_first_outputs(
    state: StateView,
    keepalive_due: bool,
    completed: Option<u32>,
    coin: bool,
)
    ensures
        quiet(first_outputs(state, keepalive_due, completed, coin)),
        interest_told(first_outputs(state, keepalive_due, completed, coin)) == (
        if tells_interest(state) {
            1nat
        } else {
            0nat
        }),
        done(turn_outputs(state, keepalive_due, completed, coin)) == first_outputs(
            state,
            keepalive_due,
            completed,
            coin,
        ) + done(requests(to_request(state))) + seq![Event::Done(OutputView::Flush)],
{
    let a = done(keepalive_outputs(state, keepalive_due));
    let b = done(interest_outputs(state));
    let c = done(have_outputs(state, completed, coin));
    let first = first_outputs(state, keepalive_due, completed, coin);
    assert(quiet(a) && quiet(b) && quiet(c));
    assert(first =~= a + b + c);
    lemma_append_quiet(a, b, 0, Seq::empty());
    lemma_append_quiet(a + b, c, 0, Seq::empty());
    assert(interest_told(a) == 0) by {
        reveal_with_fuel(interest_told, 3);
        if keeps_alive(state, keepalive_due) {
            assert(a.last() == Event::Done(OutputView::Flush));
            assert(a.drop_last().last() == Event::Done(OutputView::Write(Content::KeepAlive)));
        }
    }
    assert(interest_told(b) == (if tells_interest(state) {
        1nat
    } else {
        0nat
    })) by {
        reveal_with_fuel(interest_told, 2);
        if tells_interest(state) {
            assert(b.last() == Event::Done(OutputView::Write(Content::Interested)));
        }
    }
    assert(interest_told(c) == 0) by {
        reveal_with_fuel(interest_told, 2);
        if tells_have(state, completed, coin) {
            assert(c.last() == Event::Done(OutputView::Write(Content::Have(completed->0))));
        }
    }
    assert(done(turn_outputs(state, keepalive_due, completed, coin)) =~= first + done(
        requests(to_request(state)),
    ) + seq![Event::Done(OutputView::Flush)]);
}

/// The blocks that a turn requests have been taken and not been requested; they are distinct.
proof fn lemma_to_request(state: StateView, queue: Seq<PieceView>)
    requires
        sound(state, queue),
    ensures
        metas_of(to_request(state)).no_duplicates(),
        forall|k: int|
            0 <= k < to_request(state).len() ==> !state.am_choked && takes(
                state,
                (#[trigger] to_request(state)[k]).block_meta,
            ) && !waits_for(state, to_request(state)[k].block_meta),
{
    let work = to_request(state);
    lemma_only_requested_distinct(state.block_queue, false);
    assert forall|k: int| 0 <= k < work.len() implies !state.am_choked && takes(
        state,
        (#[trigger] work[k]).block_meta,
    ) && !waits_for(state, work[k].block_meta) by {
        let w = work[k];
        assert(work.contains(w));
        lemma_only_requested(state.block_queue, false, w);
        lemma_metas(state.block_queue, w.block_meta);
        if waits_for(state, w.block_meta) {
            lemma_one_item(
                state.block_queue,
                w,
                BlockWork { block_meta: w.block_meta, requested: true },
            );
        }
    }
    if state.am_choked {
        assert(metas_of(work).len() == 0);
    }
}

proof fn lemma_unrepeated_turn(
    state: StateView,
    queue: Seq<PieceView>,
    log: Seq<Event>,
    others: Set<BlockMeta>,
    keepalive_due: bool,
    completed: Option<u32>,
    coin: bool,
)
    requires
        sound(state, queue),
        apart_from(state, queue, others),
        unrepeated(state, queue, log, others),
    ensures
        ({
            let e = effect(state, queue, Action::Turn(keepalive_due, completed, coin));
            unrepeated(e.state, e.queue, log + e.events, others)
        }),
{
    let e = effect(state, queue, Action::Turn(keepalive_due, completed, coin));
    let first = first_outputs(state, keepalive_due, completed, coin);
    let work = to_request(state);
    let flush = seq![Event::Done(OutputView::Flush)];
    lemma_first_outputs(state, keepalive_due, completed, coin);
    lemma_turn(state, queue, keepalive_due, completed, coin);
    lemma_to_request(state, queue);
    let log1 = log + first;
    lemma_append_quiet(log, first, 0, Seq::empty());
    assert forall|k: int| 0 <= k < work.len() implies !pending(
        log1,
        (#[trigger] work[k]).block_meta,
    ) by {
        assert(takes(state, work[k].block_meta));
    }
    lemma_append_requests(log1, work, 0, Seq::empty());
    let log2 = log1 + done(requests(work));
    assert(quiet(flush));
    lemma_append_quiet(log2, flush, 0, Seq::empty());
    assert(log + e.events =~= log2 + flush);
    assert forall|m: BlockMeta| metas_of(work).contains(m) implies waits_for(e.state, m) by {
        let k = choose|k: int| 0 <= k < metas_of(work).len() && metas_of(work)[k] == m;
        assert(takes(state, work[k].block_meta));
        assert(!state.am_choked && takes(state, m));
        assert(waits_for(state, m) || (!state.am_choked && takes(state, m)));
    }
    assert forall|m: BlockMeta| #[trigger] pending(log2 + flush, m) implies waits_for(e.state, m)
        || (reserved(e.queue, m) && !takes(e.state, m) && !others.contains(m)) by {
        assert(pending(log2, m));
        if !metas_of(work).contains(m) {
            assert(pending(log1, m) && pending(log, m));
        }
    }
    assert forall|m: BlockMeta| #[trigger] outstanding(log2 + flush, m) implies waits_for(
        e.state,
        m,
    ) by {
        assert(outstanding(log2, m));
        if !metas_of(work).contains(m) {
            assert(outstanding(log1, m) && outstanding(log, m));
            assert(waits_for(state, m));
        }
    }
}

/// Whatever is done with a connection, no request is repeated on it without a choke in between.
pub proof fn lemma_unrepeated(
    state: StateView,
    queue: Seq<PieceView>,
    log: Seq<Event>,
    others: Set<BlockMeta>,
    action: Action,
)
    requires
        sound(state, queue),
        apart_from(state, queue, others),
        unrepeated(state, queue, log, others),
    ensures
        ({
            let e = effect(state, queue, action);
            unrepeated(e.state, e.queue, log + e.events, others)
        }),
{
    let e = effect(state, queue, action);
    match action {
        Action::Read(content) => {
            lemma_unrepeated_read(state, queue, log, others, content);
        },
        Action::Open(own_pieces, padding) => {
            assert(quiet(e.events));
            lemma_append_quiet(log, e.events, 0, Seq::empty());
            assert forall|m: BlockMeta| #[trigger]
                outstanding(log + e.events, m) implies waits_for(e.state, m) by {
                assert(outstanding(log, m));
                assert(waits_for(state, m));
            }
            assert forall|m: BlockMeta| #[trigger] pending(log + e.events, m) implies waits_for(
                e.state,
                m,
            ) || (reserved(e.queue, m) && !takes(e.state, m) && !others.contains(m)) by {
                assert(pending(log, m));
            }
        },
        Action::Fill => {
            lemma_unrepeated_fill(state, queue, log, others);
        },
        Action::Turn(keepalive_due, completed, coin) => {
            lemma_unrepeated_turn(state, queue, log, others, keepalive_due, completed, coin);
        },
    }
}

/// Whether the state of a connection is what its log says, and each request on it had its reason.
/// `blocks` is the queue that the client began with.
pub open spec fn informed(state: StateView, log: Seq<Event>, blocks: Seq<PieceView>) -> bool {
    let n = state.peer_pieces.len();
    &&& !state.am_choked ==> unchoked(log)
    &&& interest_told(log) == (if state.am_interested {
        1nat
    } else {
        0nat
    })
    &&& forall|p: u32| #[trigger] has_piece(state.peer_pieces, p) ==> announced(log, n, p)
    &&& forall|m: BlockMeta| #[trigger]
        takes(state, m) ==> announced(log, n, m.piece_index) && is_block_of(blocks, m)
    &&& all_reasoned(log, n, blocks)
}

/// Whether a queue has no other blocks than another.
pub open spec fn within(queue: Seq<PieceView>, blocks: Seq<PieceView>) -> bool {
    forall|m: BlockMeta| #[trigger] is_block_of(queue, m) ==> is_block_of(blocks, m)
}

proof fn lemma_informed_read(
    state: StateView,
    queue: Seq<PieceView>,
    log: Seq<Event>,
    blocks: Seq<PieceView>,
    content: Content,
)
    requires
        sound(state, queue),
        informed(state, log, blocks),
    ensures
        ({
            let e = effect(state, queue, Action::Read(content));
            informed(e.state, log + e.events, blocks)
        }),
{
    let e = effect(state, queue, Action::Read(content));
    let event = Event::Read(content);
    let n = state.peer_pieces.len();
    law_action_keeps_blocks_apart(state, queue, Action::Read(content));
    assert(log + e.events =~= log.push(event));
    lemma_push(log, event);
    lemma_reasoned_push(log, event, n, blocks);
    assert forall|m: BlockMeta| #[trigger] takes(e.state, m) implies takes(state, m) by {
        match content {
            Content::Choke => {
                lemma_choke(state, queue);
            },
            Content::Piece(meta, data) => {
                lemma_piece(state, queue, meta, data);
            },
            _ => {},
        }
    }
    assert forall|m: BlockMeta| #[trigger] takes(e.state, m) implies announced(
        log.push(event),
        n,
        m.piece_index,
    ) && is_block_of(blocks, m) by {
        assert(takes(state, m));
        assert(announced(log, n, m.piece_index));
    }
    assert forall|p: u32| #[trigger] has_piece(e.state.peer_pieces, p) implies announced(
        log.push(event),
        n,
        p,
    ) by {
        if has_piece(state.peer_pieces, p) {
            assert(announced(log, n, p));
        } else {
            assert(announces(content, n, p));
        }
    }
}

proof fn lemma_informed_fill(
    state: StateView,
    queue: Seq<PieceView>,
    log: Seq<Event>,
    blocks: Seq<PieceView>,
)
    requires
        sound(state, queue),
        within(queue, blocks),
        informed(state, log, blocks),
    ensures
        ({
            let e = effect(state, queue, Action::Fill);
            informed(e.state, log + e.events, blocks)
        }),
{
    let e = effect(state, queue, Action::Fill);
    let n = state.peer_pieces.len();
    let amount = PIPELINE_AMOUNT - state.block_queue.len();
    assert(log + e.events =~= log);
    lemma_fill(state, queue);
    law_taking(queue, state.peer_pieces, amount);
    assert forall|m: BlockMeta| #[trigger] takes(e.state, m) implies announced(
        log,
        n,
        m.piece_index,
    ) && is_block_of(blocks, m) by {
        if !takes(state, m) {
            assert(queue_taken(queue, state.peer_pieces, amount).contains(m));
            assert(is_free(queue, state.peer_pieces, m));
            let free = BlockSlot { meta: m, locked: false };
            let i = choose|i: int|
                0 <= i < queue.len() && has_piece(state.peer_pieces, queue[i].piece_index) && (
                #[trigger] queue[i]).blocks.contains(free);
            let k = choose|k: int| 0 <= k < queue[i].blocks.len() && queue[i].blocks[k] == free;
            assert(queue[i].blocks[k].meta.piece_index == queue[i].piece_index);
            assert(queue[i].blocks[k].meta == m);
            assert(is_block_of(queue, m));
            assert(has_piece(state.peer_pieces, m.piece_index));
        }
    }
}

#[verifier::rlimit(40)]
proof fn lemma_informed_turn(
    state: StateView,
    queue: Seq<PieceView>,
    log: Seq<Event>,
    others: Set<BlockMeta>,
    blocks: Seq<PieceView>,
    keepalive_due: bool,
    completed: Option<u32>,
    coin: bool,
)
    requires
        sound(state, queue),
        unrepeated(state, queue, log, others),
        informed(state, log, blocks),
    ensures
        ({
            let e = effect(state, queue, Action::Turn(keepalive_due, completed, coin));
            informed(e.state, log + e.events, blocks)
        }),
{
    let e = effect(state, queue, Action::Turn(keepalive_due, completed, coin));
    let n = state.peer_pieces.len();
    let first = first_outputs(state, keepalive_due, completed, coin);
    let work = to_request(state);
    let flush = seq![Event::Done(OutputView::Flush)];
    lemma_first_outputs(state, keepalive_due, completed, coin);
    lemma_turn(state, queue, keepalive_due, completed, coin);
    lemma_to_request(state, queue);
    let log1 = log + first;
    lemma_append_quiet(log, first, n, blocks);
    assert forall|k: int| 0 <= k < work.len() implies !pending(
        log1,
        (#[trigger] work[k]).block_meta,
    ) && has_reason(log1, n, blocks, work[k].block_meta) by {
        let m = work[k].block_meta;
        assert(takes(state, m));
        assert(announced(log, n, m.piece_index));
        assert(announced(log1, n, m.piece_index));
        assert(state.block_queue.len() > 0);
    }
    lemma_append_requests(log1, work, n, blocks);
    let log2 = log1 + done(requests(work));
    assert(quiet(flush));
    lemma_append_quiet(log2, flush, n, blocks);
    assert(interest_told(flush) == 0) by {
        reveal_with_fuel(interest_told, 2);
        assert(flush.last() == Event::Done(OutputView::Flush));
    }
    assert(log + e.events =~= log2 + flush);
    assert forall|m: BlockMeta| #[trigger] takes(e.state, m) implies announced(
        log2 + flush,
        n,
        m.piece_index,
    ) && is_block_of(blocks, m) by {
        assert(takes(state, m));
        assert(announced(log, n, m.piece_index));
        assert(announced(log1, n, m.piece_index));
        assert(announced(log2, n, m.piece_index));
    }
    assert forall|p: u32| #[trigger] has_piece(e.state.peer_pieces, p) implies announced(
        log2 + flush,
        n,
        p,
    ) by {
        assert(announced(log, n, p));
        assert(announced(log1, n, p));
        assert(announced(log2, n, p));
    }
}

/// Whatever is done with a connection, its state is what its log says, and each request has its
/// reason.
pub proof fn lemma_informed(
    state: StateView,
    queue: Seq<PieceView>,
    log: Seq<Event>,
    others: Set<BlockMeta>,
    blocks: Seq<PieceView>,
    action: Action,
)
    requires
        sound(state, queue),
        unrepeated(state, queue, log, others),
        within(queue, blocks),
        informed(state, log, blocks),
    ensures
        ({
            let e = effect(state, queue, action);
            informed(e.state, log + e.events, blocks)
        }),
{
    let e = effect(state, queue, action);
    let n = state.peer_pieces.len();
    match action {
        Action::Read(content) => {
            lemma_informed_read(state, queue, log, blocks, content);
        },
        Action::Open(own_pieces, padding) => {
            assert(quiet(e.events));
            lemma_append_quiet(log, e.events, n, blocks);
            assert(interest_told(e.events) == 0) by {
                reveal_with_fuel(interest_told, 2);
            }
            assert forall|m: BlockMeta| #[trigger] takes(e.state, m) implies announced(
                log + e.events,
                n,
                m.piece_index,
            ) && is_block_of(blocks, m) by {
                assert(takes(state, m));
                assert(announced(log, n, m.piece_index));
            }
            assert forall|p: u32| #[trigger] has_piece(e.state.peer_pieces, p) implies announced(
                log + e.events,
                n,
                p,
            ) by {
                assert(announced(log, n, p));
            }
        },
        Action::Fill => {
            lemma_informed_fill(state, queue, log, blocks);
        },
        Action::Turn(keepalive_due, completed, coin) => {
            lemma_informed_turn(
                state,
                queue,
                log,
                others,
                blocks,
                keepalive_due,
                completed,
                coin,
            );
        },
    }
}

/// No more requests are outstanding than blocks are taken.
pub proof fn lemma_few_outstanding(state: StateView, log: Seq<Event>)
    requires
        state.block_queue.len() <= PIPELINE_AMOUNT,
        forall|m: BlockMeta| #[trigger] outstanding(log, m) ==> waits_for(state, m),
    ensures
        few_outstanding(log),
{
    let taken = metas_of(state.block_queue);
    assert forall|metas: Seq<BlockMeta>| #[trigger]
        metas.no_duplicates() && (forall|k: int|
            0 <= k < metas.len() ==> outstanding(log, #[trigger] metas[k])) implies metas.len()
        <= PIPELINE_AMOUNT by {
        assert forall|m: BlockMeta| metas.to_set().contains(m) implies taken.to_set().contains(
            m,
        ) by {
            let k = choose|k: int| 0 <= k < metas.len() && metas[k] == m;
            assert(outstanding(log, metas[k]));
            lemma_waits_takes(state, m);
        }
        assert(metas.to_set().subset_of(taken.to_set()));
        metas.unique_seq_to_set();
        taken.lemma_cardinality_of_set();
        vstd::seq_lib::seq_to_set_is_finite(taken);
        vstd::set_lib::lemma_len_subset(metas.to_set(), taken.to_set());
    }
}

} // verus!
