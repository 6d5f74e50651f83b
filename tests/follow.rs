use conversation::codec::encode_payload;
use conversation::error::ConversationError;
use conversation::follow::Follower;

#[test]
fn follow_delivers_in_arrival_order() {
    let mut f = Follower::new([7, 0, 0, 0]);
    assert_eq!(f.start(), [7, 0, 0, 0]);
    assert_eq!(f.subscription_start(), Some(7));
    let mut seen = Vec::new();
    for (msg, prev) in [("one", [0u64, 0, 0, 0]), ("two", [7, 0, 0, 0]), ("three", [8, 0, 5, 0])] {
        seen.push(f.on_event(&encode_payload(msg, prev)).unwrap());
    }
    assert_eq!(seen, vec!["one", "two", "three"]);
    assert!(!f.has_failed());
}

#[test]
fn follow_stops_on_malformed_payload() {
    let mut f = Follower::new([1, 0, 0, 0]);
    assert_eq!(f.on_event(&encode_payload("ok", [0, 0, 0, 0])).unwrap(), "ok");
    assert_eq!(f.on_event(&vec![0u8; 10]), Err(ConversationError::Decode));
    assert!(f.has_failed());
    assert_eq!(f.on_event(&encode_payload("late", [1, 0, 0, 0])), Err(ConversationError::Decode));
}

#[test]
fn follow_start_beyond_u64_has_no_subscription() {
    let f = Follower::new([1, 0, 0, 2]);
    assert_eq!(f.subscription_start(), None);
}

#[test]
fn follow_stops_on_three_field_payload() {
    let mut f = Follower::new([1, 0, 0, 0]);
    let mut p = vec![0u8; 128];
    p[31] = 96;
    assert_eq!(f.on_event(&p), Err(ConversationError::Decode));
    assert_eq!(f.on_event(&encode_payload("after", [0, 0, 0, 0])), Err(ConversationError::Decode));
}
