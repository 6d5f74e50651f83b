use vstd::prelude::*;
use vstd::string::StringSliceAdditionalSpecFns;
use vstd::utf8::encode_utf8;
use crate::error::ConversationError;
use sha3::Digest;

verus! {

/// The SHA3-256 digest of a byte sequence.
pub uninterp spec fn sha3_256_of(data: Seq<u8>) -> Seq<u8>;

/// The identifier of the conversation with the given name: the SHA3-256
/// digest of the name's UTF-8 bytes.
pub open spec fn conversation_id_of(name: Seq<char>) -> Seq<u8> {
    sha3_256_of(encode_utf8(name))
}

/// Relies on `sha3::Sha3_256` through `Digest::digest`: the digest is a
/// function of the input bytes alone, 32 bytes long.
#[verifier::external_body]
fn sha3_256(data: &[u8]) -> (r: [u8; 32])
    ensures
        r@ == sha3_256_of(data@),
{
    sha3::Sha3_256::digest(data).into()
}

/// Derives the 32-byte identifier of a conversation from its name.
pub fn to_conversation_id(conversation: &String) -> (r: Result<[u8; 32], ConversationError>)
    ensures
        r is Ok,
        r->Ok_0@ == conversation_id_of(conversation@),
{
    let bytes = conversation.as_str().as_bytes();
    proof {
        assert(bytes@ == encode_utf8(conversation@));
    }
    Ok(sha3_256(bytes))
}

/// Identical names always give identical identifiers.
pub proof fn lemma_conversation_id_deterministic(a: Seq<char>, b: Seq<char>)
    requires
        a == b,
    ensures
        conversation_id_of(a) == conversation_id_of(b),
{
}

} // verus!
