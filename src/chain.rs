use vstd::prelude::*;
use crate::codec::decode_payload_spec;
use crate::error::ConversationError;
use crate::follow::{follow_begin, follow_run, follow_step, FollowView};
use crate::rewind::{
    absorb_items, absorb_spec, begin_spec, limbs_of, rewind_result, RewindView, SENTINEL,
};

verus! {

/// An event recorded on the ledger for one conversation, at position `block`,
/// with the payload the ledger holds for it.
pub struct ChainEvent {
    pub block: u64,
    pub message: Seq<char>,
    pub prev: u64,
    pub payload: Seq<u8>,
}

/// The payload that the ledger holds for an event.
pub open spec fn event_payload(e: ChainEvent) -> Seq<u8> {
    e.payload
}

/// The event's payload decodes to its message and its previous pointer.
pub open spec fn carries(e: ChainEvent) -> bool {
    decode_payload_spec(e.payload) == Some((e.message, limbs_of(e.prev)))
}

/// A conversation's events, newest first, each at a position other than the
/// sentinel, pointing at the one before it, the oldest at the sentinel, and
/// each with a payload that decodes to it.
pub open spec fn chain_linked(chain: Seq<ChainEvent>) -> bool {
    &&& forall|i: int|
        0 <= i < chain.len() ==> #[trigger] chain[i].block != SENTINEL && carries(chain[i])
    &&& forall|i: int| 0 <= i < chain.len() - 1 ==> #[trigger] chain[i].prev == chain[i + 1].block
    &&& chain.len() > 0 ==> chain[chain.len() - 1].prev == SENTINEL
}

/// The conversation's head pointer: its newest event's position.
pub open spec fn chain_head(chain: Seq<ChainEvent>) -> u64 {
    if chain.len() == 0 {
        SENTINEL
    } else {
        chain[0].block
    }
}

/// The messages of a chain, in the chain's order.
pub open spec fn chain_messages(chain: Seq<ChainEvent>) -> Seq<Seq<char>> {
    chain.map_values(|e: ChainEvent| e.message)
}

/// The ledger answers a query at each event's position with that event alone.
pub open spec fn ledger_holds(ledger: Map<u64, Seq<Seq<u8>>>, chain: Seq<ChainEvent>) -> bool {
    forall|i: int|
        0 <= i < chain.len() ==> ledger.contains_key(#[trigger] chain[i].block)
            && ledger[chain[i].block] == seq![event_payload(chain[i])]
}

/// The payloads the ledger holds at a position.
pub open spec fn ledger_batch(ledger: Map<u64, Seq<Seq<u8>>>, p: u64) -> Seq<Seq<u8>> {
    if ledger.contains_key(p) {
        ledger[p]
    } else {
        Seq::empty()
    }
}

/// A rewind driven by a ledger: each query at the cursor is answered with the
/// payloads the ledger holds there, for at most `fuel` queries.
pub open spec fn replay(v: RewindView, ledger: Map<u64, Seq<Seq<u8>>>, fuel: nat) -> Result<
    RewindView,
    ConversationError,
>
    decreases fuel,
{
    if fuel == 0 || !v.wants_more() {
        Ok(v)
    } else {
        match absorb_spec(v, Some(ledger_batch(ledger, v.cursor[0]))) {
            Ok(w) => replay(w, ledger, (fuel - 1) as nat),
            Err(e) => Err(e),
        }
    }
}

/// The result of a whole rewind of at most `limit` messages from `head`.
pub open spec fn rewind_spec(
    limit: u32,
    head: u64,
    ledger: Map<u64, Seq<Seq<u8>>>,
    fuel: nat,
) -> Result<(Seq<Seq<char>>, Seq<u64>), ConversationError> {
    match replay(begin_spec(limit, head), ledger, fuel) {
        Ok(v) => Ok(rewind_result(v)),
        Err(e) => Err(e),
    }
}

proof fn lemma_replay_chain(
    v: RewindView,
    ledger: Map<u64, Seq<Seq<u8>>>,
    chain: Seq<ChainEvent>,
    j: int,
    fuel: nat,
)
    requires
        chain_linked(chain),
        ledger_holds(ledger, chain),
        0 <= j <= chain.len(),
        v.cursor == limbs_of(
            if j < chain.len() {
                chain[j].block
            } else {
                SENTINEL
            },
        ),
        fuel >= chain.len() - j,
    ensures
        ({
            let t: int = if v.remaining < chain.len() - j {
                v.remaining as int
            } else {
                chain.len() - j
            };
            replay(v, ledger, fuel) == Ok::<RewindView, ConversationError>(
                RewindView {
                    remaining: (v.remaining - t) as nat,
                    cursor: if t == 0 {
                        v.cursor
                    } else {
                        limbs_of(chain[j + t - 1].prev)
                    },
                    collected: v.collected + chain_messages(chain).subrange(j, j + t),
                },
            )
        }),
    decreases chain.len() - j,
{
    let msgs = chain_messages(chain);
    if !v.wants_more() {
        assert(v.collected + msgs.subrange(j, j) =~= v.collected);
    } else {
        assert(j < chain.len());
        let e = chain[j];
        assert(chain[j].block != SENTINEL);
        assert(ledger_batch(ledger, v.cursor[0]) == seq![event_payload(e)]);
        assert(carries(e));
        let w = RewindView {
            remaining: (v.remaining - 1) as nat,
            cursor: limbs_of(e.prev),
            collected: v.collected.push(e.message),
        };
        assert(seq![event_payload(e)].drop_first() =~= Seq::<Seq<u8>>::empty());
        assert(absorb_items(v, seq![event_payload(e)]) == absorb_items(w, Seq::empty()));
        if j + 1 < chain.len() {
            assert(chain[j].prev == chain[j + 1].block);
        }
        lemma_replay_chain(w, ledger, chain, j + 1, (fuel - 1) as nat);
        let t: int = if v.remaining < chain.len() - j {
            v.remaining as int
        } else {
            chain.len() - j
        };
        assert(w.collected + msgs.subrange(j + 1, j + t) =~= v.collected + msgs.subrange(j, j + t));
    }
}

/// A rewind with a limit of zero asks nothing and returns no message, with
/// the head as its cursor.
pub proof fn lemma_rewind_zero_limit(head: u64, ledger: Map<u64, Seq<Seq<u8>>>, fuel: nat)
    ensures
        !begin_spec(0, head).wants_more(),
        rewind_spec(0, head, ledger, fuel) == Ok::<(Seq<Seq<char>>, Seq<u64>), ConversationError>(
            (Seq::empty(), limbs_of(head)),
        ),
{
    assert(Seq::<Seq<char>>::empty().reverse() =~= Seq::<Seq<char>>::empty());
}

/// On a conversation with fewer events than the limit, a rewind returns all
/// its messages oldest first, with the sentinel as its cursor.
pub proof fn lemma_rewind_short_chain(
    limit: u32,
    chain: Seq<ChainEvent>,
    ledger: Map<u64, Seq<Seq<u8>>>,
    fuel: nat,
)
    requires
        chain_linked(chain),
        ledger_holds(ledger, chain),
        chain.len() < limit,
        fuel >= chain.len(),
    ensures
        rewind_spec(limit, chain_head(chain), ledger, fuel) == Ok::<
            (Seq<Seq<char>>, Seq<u64>),
            ConversationError,
        >((chain_messages(chain).reverse(), limbs_of(SENTINEL))),
{
    lemma_replay_chain(begin_spec(limit, chain_head(chain)), ledger, chain, 0, fuel);
    assert(Seq::<Seq<char>>::empty() + chain_messages(chain).subrange(0, chain.len() as int)
        =~= chain_messages(chain));
}

/// On a conversation with at least `limit` events, a rewind returns exactly
/// the `limit` newest messages oldest first, with the position of the newest
/// unread event (or the sentinel) as its cursor.
pub proof fn lemma_rewind_long_chain(
    limit: u32,
    chain: Seq<ChainEvent>,
    ledger: Map<u64, Seq<Seq<u8>>>,
    fuel: nat,
)
    requires
        chain_linked(chain),
        ledger_holds(ledger, chain),
        chain.len() >= limit,
        fuel >= chain.len(),
    ensures
        rewind_spec(limit, chain_head(chain), ledger, fuel) == Ok::<
            (Seq<Seq<char>>, Seq<u64>),
            ConversationError,
        >(
            (
                chain_messages(chain).take(limit as int).reverse(),
                limbs_of(
                    if limit == 0 {
                        chain_head(chain)
                    } else if limit < chain.len() {
                        chain[limit as int].block
                    } else {
                        SENTINEL
                    },
                ),
            ),
        ),
{
    lemma_replay_chain(begin_spec(limit, chain_head(chain)), ledger, chain, 0, fuel);
    assert(Seq::<Seq<char>>::empty() + chain_messages(chain).subrange(0, limit as int)
        =~= chain_messages(chain).take(limit as int));
    if 0 < limit < chain.len() {
        assert(chain[limit - 1].prev == chain[limit as int].block);
    }
}

proof fn lemma_follow_chain(v: FollowView, events: Seq<ChainEvent>)
    requires
        !v.failed,
        forall|i: int| 0 <= i < events.len() ==> carries(#[trigger] events[i]),
    ensures
        follow_run(v, events.map_values(|e: ChainEvent| event_payload(e))) == (FollowView {
            delivered: v.delivered + chain_messages(events),
            ..v
        }),
    decreases events.len(),
{
    let ps = events.map_values(|e: ChainEvent| event_payload(e));
    if events.len() == 0 {
        assert(v.delivered + chain_messages(events) =~= v.delivered);
    } else {
        let e = events[0];
        assert(carries(e));
        let w = follow_step(v, ps[0]);
        assert(w == FollowView { delivered: v.delivered.push(e.message), ..v });
        let rest = events.drop_first();
        assert(ps.drop_first() =~= rest.map_values(|e: ChainEvent| event_payload(e)));
        assert forall|i: int| 0 <= i < rest.len() implies carries(#[trigger] rest[i]) by {
            assert(rest[i] == events[i + 1]);
        }
        lemma_follow_chain(w, rest);
        assert(w.delivered + chain_messages(rest) =~= v.delivered + chain_messages(events));
    }
}

proof fn lemma_chain_suffix_linked(fresh: Seq<ChainEvent>, chain: Seq<ChainEvent>)
    requires
        chain_linked(fresh + chain),
    ensures
        chain_linked(chain),
        forall|i: int| 0 <= i < fresh.len() ==> carries(#[trigger] fresh[i]),
{
    let full = fresh + chain;
    let k = fresh.len() as int;
    assert forall|i: int| 0 <= i < chain.len() implies #[trigger] chain[i].block != SENTINEL
        && carries(chain[i]) by {
        assert(full[k + i] == chain[i]);
        assert(full[k + i].block != SENTINEL);
    }
    assert forall|i: int| 0 <= i < chain.len() - 1 implies #[trigger] chain[i].prev == chain[i
        + 1].block by {
        assert(full[k + i] == chain[i]);
        assert(full[k + i + 1] == chain[i + 1]);
    }
    if chain.len() > 0 {
        assert(full[full.len() - 1] == chain[chain.len() - 1]);
    }
    assert forall|i: int| 0 <= i < fresh.len() implies carries(#[trigger] fresh[i]) by {
        assert(full[i] == fresh[i]);
        assert(full[i].block != SENTINEL);
    }
}

/// Rewinding the newest `limit` messages of a conversation and then following
/// it while `fresh` events are appended (given oldest first) yields the newest
/// messages of the whole conversation in append order, with neither gap nor
/// duplicate. The follow is modelled as receiving exactly the events appended
/// after the rewind, in append order; the subscription's start pointer plays
/// no part in the model, so the hand-off holds whatever `start` is.
#[verifier::rlimit(40)]
pub proof fn lemma_rewind_then_follow(
    limit: u32,
    chain: Seq<ChainEvent>,
    fresh: Seq<ChainEvent>,
    ledger: Map<u64, Seq<Seq<u8>>>,
    fuel: nat,
    start: Seq<u64>,
)
    requires
        chain_linked(fresh.reverse() + chain),
        ledger_holds(ledger, chain),
        fuel >= chain.len(),
    ensures
        ({
            let m: int = if limit < chain.len() {
                limit as int
            } else {
                chain.len() as int
            };
            let r = rewind_spec(limit, chain_head(chain), ledger, fuel);
            let f = follow_run(
                follow_begin(start),
                fresh.map_values(|e: ChainEvent| event_payload(e)),
            );
            &&& r is Ok
            &&& !f.failed
            &&& r->Ok_0.0 + f.delivered == chain_messages(fresh.reverse() + chain).take(
                m + fresh.len(),
            ).reverse()
        }),
{
    let m: int = if limit < chain.len() {
        limit as int
    } else {
        chain.len() as int
    };
    let k = fresh.len() as int;
    lemma_chain_suffix_linked(fresh.reverse(), chain);
    assert forall|i: int| 0 <= i < fresh.len() implies carries(#[trigger] fresh[i]) by {
        assert(fresh.reverse()[k - 1 - i] == fresh[i]);
    }
    lemma_follow_chain(follow_begin(start), fresh);
    lemma_replay_chain(begin_spec(limit, chain_head(chain)), ledger, chain, 0, fuel);
    let msgs = chain_messages(chain);
    let all = chain_messages(fresh.reverse() + chain);
    let lhs = (Seq::<Seq<char>>::empty() + msgs.subrange(0, m)).reverse() + (Seq::<
        Seq<char>,
    >::empty() + chain_messages(fresh));
    assert forall|i: int| 0 <= i < m + k implies #[trigger] lhs[i] == all.take(m + k).reverse()[i] by {
        if i < m {
            assert(lhs[i] == msgs[m - 1 - i]);
            assert(all[k + (m - 1 - i)] == msgs[m - 1 - i]);
        } else {
            assert(lhs[i] == fresh[i - m].message);
            assert(all[m + k - 1 - i] == fresh.reverse()[m + k - 1 - i].message);
            assert(fresh.reverse()[m + k - 1 - i] == fresh[i - m]);
        }
    }
    assert(lhs =~= all.take(m + k).reverse());
}

/// A malformed payload within the budget fails the rewind's step with
/// `Decode`: no event after it is taken.
pub proof fn lemma_rewind_stops_on_malformed(v: RewindView, items: Seq<Seq<u8>>, i: int)
    requires
        0 <= i < items.len(),
        i < v.remaining,
        decode_payload_spec(items[i]) is None,
        forall|j: int| 0 <= j < i ==> decode_payload_spec(#[trigger] items[j]) is Some,
    ensures
        absorb_items(v, items) == Err::<RewindView, ConversationError>(ConversationError::Decode),
        absorb_spec(v, Some(items)) == Err::<RewindView, ConversationError>(
            ConversationError::Decode,
        ),
    decreases i,
{
    if i > 0 {
        let ev = decode_payload_spec(items[0])->Some_0;
        let w = RewindView {
            remaining: (v.remaining - 1) as nat,
            cursor: ev.1,
            collected: v.collected.push(ev.0),
        };
        let rest = items.drop_first();
        assert forall|j: int| 0 <= j < i - 1 implies decode_payload_spec(#[trigger] rest[j]) is Some by {
            assert(rest[j] == items[j + 1]);
        }
        assert(rest[i - 1] == items[i]);
        lemma_rewind_stops_on_malformed(w, rest, i - 1);
    }
}

proof fn lemma_follow_stopped(v: FollowView, payloads: Seq<Seq<u8>>)
    requires
        v.failed,
    ensures
        follow_run(v, payloads) == v,
    decreases payloads.len(),
{
    if payloads.len() > 0 {
        lemma_follow_stopped(v, payloads.drop_first());
    }
}

/// A follow delivers the messages of the payloads before the first malformed
/// one, then stops: nothing after it is delivered.
pub proof fn lemma_follow_stops_on_malformed(v: FollowView, payloads: Seq<Seq<u8>>, i: int)
    requires
        !v.failed,
        0 <= i < payloads.len(),
        decode_payload_spec(payloads[i]) is None,
        forall|j: int| 0 <= j < i ==> decode_payload_spec(#[trigger] payloads[j]) is Some,
    ensures
        follow_run(v, payloads) == (FollowView {
            delivered: v.delivered + payloads.take(i).map_values(
                |p: Seq<u8>| decode_payload_spec(p)->Some_0.0,
            ),
            failed: true,
            ..v
        }),
    decreases i,
{
    let rest = payloads.drop_first();
    if i == 0 {
        lemma_follow_stopped(follow_step(v, payloads[0]), rest);
        assert(v.delivered + payloads.take(0).map_values(
            |p: Seq<u8>| decode_payload_spec(p)->Some_0.0,
        ) =~= v.delivered);
    } else {
        let w = follow_step(v, payloads[0]);
        assert forall|j: int| 0 <= j < i - 1 implies decode_payload_spec(#[trigger] rest[j]) is Some by {
            assert(rest[j] == payloads[j + 1]);
        }
        assert(rest[i - 1] == payloads[i]);
        lemma_follow_stops_on_malformed(w, rest, i - 1);
        assert(w.delivered + rest.take(i - 1).map_values(
            |p: Seq<u8>| decode_payload_spec(p)->Some_0.0,
        ) =~= v.delivered + payloads.take(i).map_values(
            |p: Seq<u8>| decode_payload_spec(p)->Some_0.0,
        ));
    }
}

} // verus!
