//! Conversation logs kept as backward-linked event chains on a ledger:
//! identifier derivation, payload codec, bounded rewind and live follow.

pub mod error;
pub mod identifier;
pub mod codec;
pub mod rewind;
pub mod follow;
pub mod chain;
pub mod appenv;
pub mod lipsum_text;
