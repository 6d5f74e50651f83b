use vstd::prelude::*;
use crate::codec::{abi_decode_payload_sent, decode_payload_spec};
use crate::error::ConversationError;
use crate::rewind::fits_u64;

verus! {

/// The state of a follow as a mathematical value.
pub struct FollowView {
    /// The pointer from which the subscription starts, inclusive, as four
    /// limbs.
    pub start: Seq<u64>,
    /// The messages handed to the consumer so far, in arrival order.
    pub delivered: Seq<Seq<char>>,
    /// A payload failed to decode; the follow is over.
    pub failed: bool,
}

/// The state in which a follow starts.
pub open spec fn follow_begin(start: Seq<u64>) -> FollowView {
    FollowView { start, delivered: Seq::empty(), failed: false }
}

/// One event arriving on the subscription: its message is delivered, or the
/// follow stops at the first payload that does not decode. The event's
/// previous pointer plays no part.
pub open spec fn follow_step(v: FollowView, payload: Seq<u8>) -> FollowView {
    if v.failed {
        v
    } else {
        match decode_payload_spec(payload) {
            Some(ev) => FollowView { delivered: v.delivered.push(ev.0), ..v },
            None => FollowView { failed: true, ..v },
        }
    }
}

/// Events arriving in the given order.
pub open spec fn follow_run(v: FollowView, payloads: Seq<Seq<u8>>) -> FollowView
    decreases payloads.len(),
{
    if payloads.len() == 0 {
        v
    } else {
        follow_run(follow_step(v, payloads[0]), payloads.drop_first())
    }
}

/// Follows a conversation from a start pointer: each event that the
/// subscription emits is decoded and its message handed to the consumer, in
/// the order of arrival, until a payload fails to decode.
pub struct Follower {
    start: [u64; 4],
    failed: bool,
    delivered: Ghost<Seq<Seq<char>>>,
}

impl View for Follower {
    type V = FollowView;

    closed spec fn view(&self) -> FollowView {
        FollowView { start: self.start@, delivered: self.delivered@, failed: self.failed }
    }
}

impl Follower {
    /// Starts a follow at `start` (four limbs, least significant first),
    /// inclusive.
    pub fn new(start: [u64; 4]) -> (r: Follower)
        ensures
            r@ == follow_begin(start@),
    {
        Follower { start, failed: false, delivered: Ghost(Seq::empty()) }
    }

    /// The pointer from which the subscription must start.
    pub fn start(&self) -> (r: [u64; 4])
        ensures
            r@ == self@.start,
    {
        self.start
    }

    /// The start as a 64-bit position, or `None` where it lies beyond that
    /// range and no subscription can be opened there.
    pub fn subscription_start(&self) -> (r: Option<u64>)
        ensures
            r == (if fits_u64(self@.start) {
                Some(self@.start[0])
            } else {
                None
            }),
    {
        if self.start[1] == 0 && self.start[2] == 0 && self.start[3] == 0 {
            Some(self.start[0])
        } else {
            None
        }
    }

    /// The follow has stopped on a malformed payload.
    pub fn has_failed(&self) -> (r: bool)
        ensures
            r == self@.failed,
    {
        self.failed
    }

    /// Takes the payload of the next event: the message to hand to the
    /// consumer, or `Decode` where the payload is malformed or the follow has
    /// already stopped.
    pub fn on_event(&mut self, payload: &Vec<u8>) -> (r: Result<String, ConversationError>)
        ensures
            final(self)@ == follow_step(old(self)@, payload@),
            r is Ok <==> !final(self)@.failed,
            r is Ok ==> final(self)@.delivered == old(self)@.delivered.push(r->Ok_0@),
            r is Err ==> r->Err_0 == ConversationError::Decode,
    {
        if self.failed {
            return Err(ConversationError::Decode);
        }
        match abi_decode_payload_sent(payload) {
            Ok(ev) => {
                self.delivered = Ghost(self.delivered@.push(ev.message@));
                Ok(ev.message)
            },
            Err(e) => {
                self.failed = true;
                Err(e)
            },
        }
    }
}

} // verus!
