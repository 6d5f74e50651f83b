use std::collections::HashMap;

use conversation::codec::encode_payload;
use conversation::error::ConversationError;
use conversation::follow::Follower;
use conversation::rewind::{MessageRewind, Rewinder};

/// Events of one conversation by position: (position, message, previous).
fn ledger(events: &[(u64, &str, u64)]) -> HashMap<u64, Vec<Vec<u8>>> {
    let mut map: HashMap<u64, Vec<Vec<u8>>> = HashMap::new();
    for (at, msg, prev) in events {
        map.entry(*at).or_default().push(encode_payload(msg, [*prev, 0, 0, 0]));
    }
    map
}

fn run(
    ledger: &HashMap<u64, Vec<Vec<u8>>>,
    head: u64,
    limit: u32,
) -> Result<(MessageRewind, Vec<u64>), ConversationError> {
    let mut r = Rewinder::new(limit, head);
    let mut queried = Vec::new();
    while let Some(p) = r.next_query() {
        queried.push(p);
        let empty = Vec::new();
        r.absorb(Some(ledger.get(&p).unwrap_or(&empty)))?;
    }
    Ok((r.finish(), queried))
}

fn demo() -> HashMap<u64, Vec<Vec<u8>>> {
    ledger(&[(10, "c", 5), (5, "b", 2), (2, "a", 0)])
}

#[test]
fn demo_rewind_two() {
    let (r, queried) = run(&demo(), 10, 2).unwrap();
    assert_eq!(r.message, vec!["b".to_string(), "c".to_string()]);
    assert_eq!(r.last_change, [2, 0, 0, 0]);
    assert_eq!(queried, vec![10, 5]);
}

#[test]
fn rewind_zero_limit_queries_nothing() {
    let (r, queried) = run(&demo(), 10, 0).unwrap();
    assert!(r.message.is_empty());
    assert_eq!(r.last_change, [10, 0, 0, 0]);
    assert!(queried.is_empty());
}

#[test]
fn rewind_of_empty_conversation() {
    let (r, queried) = run(&demo(), 0, 5).unwrap();
    assert!(r.message.is_empty());
    assert_eq!(r.last_change, [0, 0, 0, 0]);
    assert!(queried.is_empty());
}

#[test]
fn rewind_more_than_available() {
    let (r, _) = run(&demo(), 10, 5).unwrap();
    assert_eq!(r.message, vec!["a".to_string(), "b".to_string(), "c".to_string()]);
    assert_eq!(r.last_change, [0, 0, 0, 0]);
}

#[test]
fn rewind_exactly_available() {
    let (r, _) = run(&demo(), 10, 3).unwrap();
    assert_eq!(r.message, vec!["a".to_string(), "b".to_string(), "c".to_string()]);
    assert_eq!(r.last_change, [0, 0, 0, 0]);
}

#[test]
fn rewind_one() {
    let (r, _) = run(&demo(), 10, 1).unwrap();
    assert_eq!(r.message, vec!["c".to_string()]);
    assert_eq!(r.last_change, [5, 0, 0, 0]);
}

#[test]
fn rewind_stops_mid_batch() {
    let l = ledger(&[(9, "y", 4), (9, "x", 4), (4, "w", 0)]);
    let (r, _) = run(&l, 9, 1).unwrap();
    assert_eq!(r.message, vec!["y".to_string()]);
    assert_eq!(r.last_change, [4, 0, 0, 0]);
    let (r, _) = run(&l, 9, 3).unwrap();
    assert_eq!(r.message, vec!["w".to_string(), "x".to_string(), "y".to_string()]);
    assert_eq!(r.last_change, [0, 0, 0, 0]);
}

#[test]
fn rewind_fails_on_malformed_payload() {
    let mut l = demo();
    l.insert(5, vec![vec![1, 2, 3]]);
    assert_eq!(run(&l, 10, 3).err(), Some(ConversationError::Decode));
}

#[test]
fn rewind_fails_on_missing_event() {
    let l = ledger(&[(10, "c", 5)]);
    assert_eq!(run(&l, 10, 3).err(), Some(ConversationError::ChainQuery));
}

#[test]
fn rewind_fails_on_failed_query() {
    let mut r = Rewinder::new(3, 10);
    assert_eq!(r.next_query(), Some(10));
    assert_eq!(r.absorb(None), Err(ConversationError::ChainQuery));
}

#[test]
fn rewind_then_follow_has_no_gap_or_duplicate() {
    let (r, _) = run(&demo(), 10, 2).unwrap();
    let mut f = Follower::new(r.last_change);
    assert_eq!(f.subscription_start(), Some(2));
    let mut all = r.message.clone();
    for (msg, prev) in [("d", 10u64), ("e", 12)] {
        all.push(f.on_event(&encode_payload(msg, [prev, 0, 0, 0])).unwrap());
    }
    assert_eq!(all, vec!["b", "c", "d", "e"]);
}

#[test]
fn rewind_start_from_head_lookup() {
    let r = Rewinder::start(4, Some([10, 0, 0, 0])).unwrap();
    assert_eq!(r.next_query(), Some(10));
    assert_eq!(Rewinder::start(4, None).err(), Some(ConversationError::ChainQuery));
    assert_eq!(Rewinder::start(4, Some([10, 1, 0, 0])).err(), Some(ConversationError::ChainQuery));
    let r = Rewinder::start(4, Some([0, 0, 0, 0])).unwrap();
    assert_eq!(r.next_query(), None);
}

#[test]
fn rewind_fails_when_pointer_to_follow_exceeds_u64() {
    let mut l = demo();
    l.insert(5, vec![encode_payload("b", [2, 0, 1, 0])]);
    assert_eq!(run(&l, 10, 3).err(), Some(ConversationError::ChainQuery));
}

#[test]
fn rewind_returns_wide_cursor_when_budget_is_spent() {
    let mut l = demo();
    l.insert(5, vec![encode_payload("b", [2, 0, 1, 0])]);
    let (r, _) = run(&l, 10, 2).unwrap();
    assert_eq!(r.message, vec!["b".to_string(), "c".to_string()]);
    assert_eq!(r.last_change, [2, 0, 1, 0]);
}

#[test]
fn rewind_fails_on_three_field_payload() {
    let mut l = demo();
    let mut p = vec![0u8; 128];
    p[31] = 96;
    l.insert(5, vec![p]);
    assert_eq!(run(&l, 10, 3).err(), Some(ConversationError::Decode));
}

#[test]
fn rewind_zero_limit_with_wide_head() {
    let r = Rewinder::start(0, Some([1, 0, 0, 9])).unwrap();
    assert_eq!(r.next_query(), None);
    let out = r.finish();
    assert!(out.message.is_empty());
    assert_eq!(out.last_change, [1, 0, 0, 9]);
}
