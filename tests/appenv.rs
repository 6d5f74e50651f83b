use conversation::lipsum_text::lipsum_message;
use conversation::appenv::{environment_from, parse_u32, rpc_url_shown, scram, EnvError, EnvVariable};

#[test]
fn test_scram() {
    assert_eq!(scram("12345678901".to_string()), "**********");
    assert_eq!(scram("1234567890".to_string()), "**********");
    assert_eq!(scram("123456789".to_string()), "*********");
    assert_eq!(scram("12345678".to_string()), "********");
    assert_eq!(scram("1234567".to_string()), "*******");
    assert_eq!(scram("123456".to_string()), "******");
    assert_eq!(scram("12345".to_string()), "*****");
    assert_eq!(scram("1234".to_string()), "****");
    assert_eq!(scram("123".to_string()), "***");
    assert_eq!(scram("12".to_string()), "**");
    assert_eq!(scram("1".to_string()), "*");
    assert_eq!(scram("".to_string()), "");
}

#[test]
fn scram_counts_bytes() {
    assert_eq!(scram("é".to_string()), "**");
}

fn full(
    count: Option<&str>,
    size: Option<&str>,
) -> Result<conversation::appenv::Environment, EnvError> {
    environment_from(
        Some("https://example.com".to_string()),
        Some("my_public_key".to_string()),
        Some("my_private_key".to_string()),
        Some("the_conversation_id".to_string()),
        count.map(|s| s.to_string()),
        size.map(|s| s.to_string()),
    )
}

#[test]
fn environment_from_all_values() {
    let env = full(Some("101"), Some("100")).unwrap();
    assert_eq!(env.rpc_url, "https://example.com");
    assert_eq!(env.public_key, "my_public_key");
    assert_eq!(env.private_key, "my_private_key");
    assert_eq!(env.conversation_id, "the_conversation_id");
    assert_eq!(env.message_size, 100);
    assert_eq!(env.message_count, 101);
}

#[test]
fn environment_from_missing_rpc_url() {
    let r = environment_from(
        None,
        Some("my_public_key".to_string()),
        Some("my_private_key".to_string()),
        Some("the_conversation_id".to_string()),
        Some("101".to_string()),
        Some("100".to_string()),
    );
    assert_eq!(r.err(), Some(EnvError::Missing(EnvVariable::RpcUrl)));
}

#[test]
fn environment_from_missing_private_key() {
    let r = environment_from(
        Some("https://example.com".to_string()),
        Some("my_public_key".to_string()),
        None,
        Some("the_conversation_id".to_string()),
        Some("101".to_string()),
        Some("100".to_string()),
    );
    assert_eq!(r.err(), Some(EnvError::Missing(EnvVariable::PrivateKey)));
}

#[test]
fn environment_from_missing_public_key() {
    let r = environment_from(
        Some("https://example.com".to_string()),
        None,
        Some("my_private_key".to_string()),
        Some("the_conversation_id".to_string()),
        Some("101".to_string()),
        Some("100".to_string()),
    );
    assert_eq!(r.err(), Some(EnvError::Missing(EnvVariable::PublicKey)));
}

#[test]
fn environment_from_missing_conversation_id() {
    let r = environment_from(
        Some("https://example.com".to_string()),
        Some("my_public_key".to_string()),
        Some("my_private_key".to_string()),
        None,
        Some("101".to_string()),
        Some("100".to_string()),
    );
    assert_eq!(r.err(), Some(EnvError::Missing(EnvVariable::ConversationId)));
}

#[test]
fn environment_from_missing_counts() {
    assert_eq!(full(None, Some("100")).err(), Some(EnvError::Missing(EnvVariable::MessageCount)));
    assert_eq!(full(Some("100"), None).err(), Some(EnvError::Missing(EnvVariable::MessageSize)));
}

#[test]
fn environment_from_not_a_number() {
    assert_eq!(
        full(Some("not_a_number"), Some("100")).err(),
        Some(EnvError::NotANumber(EnvVariable::MessageCount))
    );
    assert_eq!(
        full(Some("100"), Some("not_a_number")).err(),
        Some(EnvError::NotANumber(EnvVariable::MessageSize))
    );
}

#[test]
fn parse_u32_cases() {
    assert_eq!(parse_u32("0"), Some(0));
    assert_eq!(parse_u32("101"), Some(101));
    assert_eq!(parse_u32("+7"), Some(7));
    assert_eq!(parse_u32("4294967295"), Some(4294967295));
    assert_eq!(parse_u32("4294967296"), None);
    assert_eq!(parse_u32(""), None);
    assert_eq!(parse_u32("+"), None);
    assert_eq!(parse_u32("-1"), None);
    assert_eq!(parse_u32("12a"), None);
    for s in ["0", "101", "+7", "4294967295", "4294967296", "", "+", "-1", "12a", "007"] {
        assert_eq!(parse_u32(s), s.parse::<u32>().ok(), "{s}");
    }
}

#[test]
fn variable_names() {
    assert_eq!(EnvVariable::RpcUrl.name(), "RPC_URL");
    assert_eq!(EnvVariable::MessageSize.name(), "MESSAGE_SIZE");
    assert_eq!(EnvVariable::MessageCount.name(), "MESSAGE_COUNT");
}

#[test]
fn lipsum_message_reaches_size() {
    assert_eq!(lipsum_message(0), "");
    for size in [1usize, 10, 100, 1000] {
        let m = lipsum_message(size);
        assert!(m.len() >= size, "{size}");
    }
    assert_eq!(lipsum_message(100), lipsum_message(100));
}

#[test]
fn rpc_url_shown_cuts_before_key_path() {
    assert_eq!(rpc_url_shown("wss://eth.example.io/v2/SECRET-REDACTED"), "wss://eth.example.io/");
    assert_eq!(rpc_url_shown("https://example.com"), "https://example.com");
    assert_eq!(rpc_url_shown("v2abc"), "");
    assert_eq!(rpc_url_shown("é/v"), "é/v");
    assert_eq!(rpc_url_shown(""), "");
    for s in ["a/v2/b/v2", "v", "xv2", "ü v2 ü"] {
        assert_eq!(rpc_url_shown(s), s.split("v2").next().unwrap(), "{s}");
    }
}
