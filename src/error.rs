use vstd::prelude::*;

verus! {

/// Why a conversation operation failed.
#[derive(Clone, Copy, Debug, PartialEq, Eq, Structural)]
pub enum ConversationError {
    /// The ledger endpoint could not be reached.
    Connection,
    /// The key material is malformed.
    Wallet,
    /// A point query or a subscription failed, or the chain of pointers is broken.
    ChainQuery,
    /// An event payload does not match the expected layout.
    Decode,
    /// A write was not submitted or not confirmed.
    Transaction,
}

impl ConversationError {
    /// A short human-readable description.
    pub fn describe(&self) -> (r: String)
        ensures
            r@ == (match self {
                ConversationError::Connection => "connection error"@,
                ConversationError::Wallet => "wallet error"@,
                ConversationError::ChainQuery => "chain query error"@,
                ConversationError::Decode => "event payload decode error"@,
                ConversationError::Transaction => "transaction error"@,
            }),
    {
        match self {
            ConversationError::Connection => String::from_str("connection error"),
            ConversationError::Wallet => String::from_str("wallet error"),
            ConversationError::ChainQuery => String::from_str("chain query error"),
            ConversationError::Decode => String::from_str("event payload decode error"),
            ConversationError::Transaction => String::from_str("transaction error"),
        }
    }
}

} // verus!
