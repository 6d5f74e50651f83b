use vstd::prelude::*;
use crate::codec::{abi_decode_payload_sent, decode_payload_spec};
use crate::error::ConversationError;

verus! {

/// The sentinel pointer: no earlier event exists.
pub const SENTINEL: u64 = 0;

/// A position as the four 64-bit limbs of a 256-bit pointer.
pub open spec fn limbs_of(x: u64) -> Seq<u64> {
    seq![x, 0, 0, 0]
}

/// The pointer's high limbs are zero: it names a 64-bit position.
pub open spec fn fits_u64(p: Seq<u64>) -> bool {
    p[1] == 0 && p[2] == 0 && p[3] == 0
}

/// The pointer is the sentinel.
pub open spec fn is_sentinel(p: Seq<u64>) -> bool {
    p[0] == SENTINEL && fits_u64(p)
}

/// The state of a rewind as a mathematical value.
pub struct RewindView {
    /// How many more messages may be collected.
    pub remaining: nat,
    /// The position still to be explored, as four limbs.
    pub cursor: Seq<u64>,
    /// The messages collected so far, newest first.
    pub collected: Seq<Seq<char>>,
}

impl RewindView {
    /// The rewind needs the events recorded at `cursor`.
    pub open spec fn wants_more(self) -> bool {
        self.remaining > 0 && !is_sentinel(self.cursor)
    }
}

/// The state in which a rewind of at most `limit` messages starts from the
/// conversation's head pointer.
pub open spec fn begin_spec(limit: u32, head: u64) -> RewindView {
    RewindView { remaining: limit as nat, cursor: limbs_of(head), collected: Seq::empty() }
}

/// Takes the events of one position in order: each is decoded, its message
/// collected and its previous pointer followed, until the budget is spent.
pub open spec fn absorb_items(v: RewindView, items: Seq<Seq<u8>>) -> Result<
    RewindView,
    ConversationError,
>
    decreases items.len(),
{
    if items.len() == 0 || v.remaining == 0 {
        Ok(v)
    } else {
        match decode_payload_spec(items[0]) {
            None => Err(ConversationError::Decode),
            Some(ev) => absorb_items(
                RewindView {
                    remaining: (v.remaining - 1) as nat,
                    cursor: ev.1,
                    collected: v.collected.push(ev.0),
                },
                items.drop_first(),
            ),
        }
    }
}

/// One step of a rewind on the answer to the query at the cursor: `None`
/// where the query failed. A position that holds no event breaks the chain,
/// and so does a pointer still to be followed that lies beyond the 64-bit
/// range of positions.
pub open spec fn absorb_spec(v: RewindView, batch: Option<Seq<Seq<u8>>>) -> Result<
    RewindView,
    ConversationError,
> {
    match batch {
        None => Err(ConversationError::ChainQuery),
        Some(items) => if items.len() == 0 {
            Err(ConversationError::ChainQuery)
        } else {
            match absorb_items(v, items) {
                Ok(w) => if w.wants_more() && !fits_u64(w.cursor) {
                    Err(ConversationError::ChainQuery)
                } else {
                    Ok(w)
                },
                Err(e) => Err(e),
            }
        },
    }
}

/// What a finished rewind returns: its messages oldest first, and its cursor.
pub open spec fn rewind_result(v: RewindView) -> (Seq<Seq<char>>, Seq<u64>) {
    (v.collected.reverse(), v.cursor)
}

/// The outcome of a rewind: the messages, oldest first, and the cursor from
/// which a follow resumes (four limbs, least significant first).
pub struct MessageRewind {
    pub message: Vec<String>,
    pub last_change: [u64; 4],
}

/// A bounded backward walk along a conversation's chain of events. The caller
/// asks `next_query` for the position to look up, hands the events found there
/// to `absorb`, and calls `finish` once no query is left.
pub struct Rewinder {
    remaining: u32,
    cursor: [u64; 4],
    collected: Vec<String>,
}

impl View for Rewinder {
    type V = RewindView;

    closed spec fn view(&self) -> RewindView {
        RewindView {
            remaining: self.remaining as nat,
            cursor: self.cursor@,
            collected: self.collected@.map_values(|s: String| s@),
        }
    }
}

impl Rewinder {
    /// Starts a rewind of at most `limit` messages from the head pointer.
    pub fn new(limit: u32, head: u64) -> (r: Rewinder)
        ensures
            r@ == begin_spec(limit, head),
    {
        let r = Rewinder { remaining: limit, cursor: [head, 0, 0, 0], collected: Vec::new() };
        assert(r@.collected =~= Seq::<Seq<char>>::empty());
        assert(r@.cursor =~= limbs_of(head));
        r
    }

    /// Starts a rewind from the answer to the head-pointer lookup, given as the
    /// four 64-bit limbs of the 256-bit pointer, least significant first;
    /// `None` where the lookup failed. A failed lookup fails with
    /// `ChainQuery`; so does a head beyond the 64-bit range of positions, unless
    /// the limit is zero and no position is ever visited.
    pub fn start(limit: u32, head: Option<[u64; 4]>) -> (r: Result<Rewinder, ConversationError>)
        ensures
            match head {
                Some(h) => if limit == 0 || fits_u64(h@) {
                    r is Ok && r->Ok_0@ == (RewindView {
                        remaining: limit as nat,
                        cursor: h@,
                        collected: Seq::empty(),
                    })
                } else {
                    r is Err && r->Err_0 == ConversationError::ChainQuery
                },
                None => r is Err && r->Err_0 == ConversationError::ChainQuery,
            },
    {
        match head {
            Some(h) => if limit == 0 || (h[1] == 0 && h[2] == 0 && h[3] == 0) {
                let r = Rewinder { remaining: limit, cursor: h, collected: Vec::new() };
                assert(r@.collected =~= Seq::<Seq<char>>::empty());
                Ok(r)
            } else {
                Err(ConversationError::ChainQuery)
            },
            None => Err(ConversationError::ChainQuery),
        }
    }

    /// The position whose events are needed next, or `None` when the rewind
    /// is complete.
    pub fn next_query(&self) -> (r: Option<u64>)
        ensures
            r == (if self@.wants_more() {
                Some(self@.cursor[0])
            } else {
                None
            }),
    {
        if self.remaining > 0 && !(self.cursor[0] == SENTINEL && self.cursor[1] == 0
            && self.cursor[2] == 0 && self.cursor[3] == 0) {
            Some(self.cursor[0])
        } else {
            None
        }
    }

    /// Takes the payloads of the events found at the cursor, in the order the
    /// query returned them; `None` where the query failed.
    pub fn absorb(&mut self, batch: Option<&Vec<Vec<u8>>>) -> (r: Result<(), ConversationError>)
        ensures
            match absorb_spec(
                old(self)@,
                match batch {
                    Some(b) => Some(b.deep_view()),
                    None => None,
                },
            ) {
                Ok(v) => r is Ok && final(self)@ == v,
                Err(e) => r == Err::<(), ConversationError>(e),
            },
    {
        let items = match batch {
            None => {
                return Err(ConversationError::ChainQuery);
            },
            Some(b) => b,
        };
        if items.len() == 0 {
            return Err(ConversationError::ChainQuery);
        }
        let ghost all = items.deep_view();
        let ghost goal = absorb_items(self@, all);
        assert(batch == Some(items));
        let mut i: usize = 0;
        assert(all.skip(0) =~= all);
        while i < items.len() && self.remaining > 0
            invariant
                i <= items.len(),
                all == items.deep_view(),
                batch == Some(items),
                goal == absorb_items(old(self)@, all),
                absorb_items(self@, all.skip(i as int)) == goal,
            decreases items.len() - i,
        {
            assert(all.skip(i as int)[0] == items[i as int]@);
            assert(all.skip(i as int).drop_first() =~= all.skip(i as int + 1));
            let ev = abi_decode_payload_sent(&items[i]);
            match ev {
                Err(e) => {
                    return Err(e);
                },
                Ok(ev) => {
                    let ghost before = self@;
                    self.collected.push(ev.message);
                    self.cursor = ev.prev_pointer;
                    assert(self.cursor@ == decode_payload_spec(all.skip(i as int)[0])->Some_0.1);
                    self.remaining = self.remaining - 1;
                    assert(self@.collected =~= before.collected.push(ev.message@));
                },
            }
            i = i + 1;
        }
        assert(all.skip(i as int).len() == 0 || self@.remaining == 0);
        if self.remaining > 0 && !(self.cursor[0] == SENTINEL && self.cursor[1] == 0
            && self.cursor[2] == 0 && self.cursor[3] == 0) && !(self.cursor[1] == 0
            && self.cursor[2] == 0 && self.cursor[3] == 0) {
            return Err(ConversationError::ChainQuery);
        }
        Ok(())
    }

    /// Ends the rewind: the collected messages oldest first, and the cursor.
    pub fn finish(self) -> (r: MessageRewind)
        ensures
            (r.message@.map_values(|s: String| s@), r.last_change@) == rewind_result(self@),
    {
        let ghost orig = self@.collected;
        let mut rest = self.collected;
        let mut out: Vec<String> = Vec::new();
        while rest.len() > 0
            invariant
                rest@.len() + out@.len() == orig.len(),
                rest@.map_values(|s: String| s@) == orig.subrange(0, rest@.len() as int),
                forall|j: int|
                    0 <= j < out@.len() ==> #[trigger] out@[j]@ == orig[orig.len() - 1 - j],
            decreases rest.len(),
        {
            let ghost prev = rest@;
            let m = rest.pop().unwrap();
            assert(m == prev[rest@.len() as int]);
            assert(prev.map_values(|s: String| s@)[rest@.len() as int] == m@);
            out.push(m);
            assert(rest@.map_values(|s: String| s@) =~= orig.subrange(0, rest@.len() as int));
        }
        assert(out@.map_values(|s: String| s@) =~= orig.reverse());
        MessageRewind { message: out, last_change: self.cursor }
    }
}

} // verus!
