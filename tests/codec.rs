use conversation::codec::{abi_decode_payload_sent, encode_payload};
use conversation::error::ConversationError;

#[test]
fn encode_payload_layout() {
    let p = encode_payload("hi", [5, 0, 0, 0]);
    assert_eq!(p.len(), 128);
    let mut expected = vec![0u8; 128];
    expected[31] = 64;
    expected[63] = 5;
    expected[95] = 2;
    expected[96] = b'h';
    expected[97] = b'i';
    assert_eq!(p, expected);
}

#[test]
fn encode_empty_message_has_no_padding() {
    let p = encode_payload("", [0, 0, 0, 0]);
    assert_eq!(p.len(), 96);
    assert_eq!(p[31], 64);
}

#[test]
fn encode_payload_matches_abi_encoding() {
    let msg = "a message that is longer than one word, with é and ü";
    let limbs = [0x1234_5678_9abc, 0, 0xdead_beef, 7];
    let p = encode_payload(msg, limbs);
    let reference = ethabi::encode(&[
        ethabi::Token::String(msg.to_string()),
        ethabi::Token::Uint(ethabi::ethereum_types::U256(limbs)),
    ]);
    assert_eq!(p, reference);
}

#[test]
fn payload_round_trip() {
    for (msg, ptr) in [
        ("", [0u64, 0, 0, 0]),
        ("c", [10, 0, 0, 0]),
        ("hello world", [u64::MAX, 0, 0, 0]),
        ("é€😀", [7, 1, 2, 3]),
        ("top", [0, 0, 0, u64::MAX]),
    ] {
        let p = encode_payload(msg, ptr);
        let ev = abi_decode_payload_sent(&p).unwrap();
        assert_eq!(ev.message, msg);
        assert_eq!(ev.prev_pointer, ptr);
    }
}

#[test]
fn decode_rejects_empty_and_short_payloads() {
    assert!(matches!(abi_decode_payload_sent(&vec![]), Err(ConversationError::Decode)));
    let mut p = encode_payload("hello", [3, 0, 0, 0]);
    p.truncate(60);
    assert!(matches!(abi_decode_payload_sent(&p), Err(ConversationError::Decode)));
}

#[test]
fn decode_rejects_bad_offset() {
    let mut p = encode_payload("hello", [3, 0, 0, 0]);
    p[31] = 200;
    assert!(matches!(abi_decode_payload_sent(&p), Err(ConversationError::Decode)));
}

#[test]
fn decode_accepts_pointer_beyond_u64() {
    let mut p = encode_payload("hello", [3, 0, 0, 0]);
    p[55] = 1;
    p[32] = 0x80;
    let ev = abi_decode_payload_sent(&p).unwrap();
    assert_eq!(ev.message, "hello");
    assert_eq!(ev.prev_pointer, [3, 1, 0, 0x8000_0000_0000_0000]);
}

#[test]
fn decode_of_abi_encoding_beyond_u64() {
    let p = ethabi::encode(&[
        ethabi::Token::String(String::new()),
        ethabi::Token::Uint(ethabi::ethereum_types::U256([0, 1, 0, 0])),
    ]);
    let ev = abi_decode_payload_sent(&p).unwrap();
    assert_eq!(ev.message, "");
    assert_eq!(ev.prev_pointer, [0, 1, 0, 0]);
}

#[test]
fn decode_reads_big_endian_pointer() {
    let mut p = encode_payload("x", [0, 0, 0, 0]);
    p[56] = 0x01;
    p[63] = 0x02;
    let ev = abi_decode_payload_sent(&p).unwrap();
    assert_eq!(ev.prev_pointer, [0x0100_0000_0000_0002, 0, 0, 0]);
}

#[test]
fn error_descriptions() {
    assert_eq!(ConversationError::Decode.describe(), "event payload decode error");
    assert_eq!(ConversationError::ChainQuery.describe(), "chain query error");
}

#[test]
fn decode_rejects_three_field_payload() {
    let mut p = vec![0u8; 128];
    p[31] = 96;
    assert!(matches!(abi_decode_payload_sent(&p), Err(ConversationError::Decode)));
    let reference = ethabi::encode(&[
        ethabi::Token::String(String::new()),
        ethabi::Token::Uint(ethabi::ethereum_types::U256([0, 0, 0, 0])),
        ethabi::Token::Uint(ethabi::ethereum_types::U256([0, 0, 0, 0])),
    ]);
    assert_eq!(p, reference);
}

#[test]
fn decode_rejects_trailing_bytes() {
    let mut p = encode_payload("hello", [3, 0, 0, 0]);
    p.extend_from_slice(&[0u8; 32]);
    assert!(matches!(abi_decode_payload_sent(&p), Err(ConversationError::Decode)));
}

#[test]
fn decode_rejects_nonzero_padding() {
    let mut p = encode_payload("hello", [3, 0, 0, 0]);
    p[127] = 1;
    assert!(matches!(abi_decode_payload_sent(&p), Err(ConversationError::Decode)));
}

#[test]
fn decode_rejects_invalid_utf8_text() {
    let mut p = encode_payload("ab", [3, 0, 0, 0]);
    p[96] = 0xff;
    assert!(matches!(abi_decode_payload_sent(&p), Err(ConversationError::Decode)));
}
