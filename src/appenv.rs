use vstd::prelude::*;
use vstd::string::{StringExecFns, StringSliceAdditionalSpecFns};
use vstd::utf8::{
    encode_utf8, encode_utf8_valid_utf8, is_char_boundary_iff_is_leading_byte,
    is_char_boundary_start_end_of_seq,
};

verus! {

/// The process configuration.
pub struct Environment {
    pub rpc_url: String,
    pub public_key: String,
    pub private_key: String,
    pub conversation_id: String,
    pub message_count: u32,
    pub message_size: u32,
}

/// A configuration variable.
#[derive(Clone, Copy, Debug, PartialEq, Eq, Structural)]
pub enum EnvVariable {
    RpcUrl,
    PublicKey,
    PrivateKey,
    ConversationId,
    MessageCount,
    MessageSize,
}

impl EnvVariable {
    /// The variable's name in the process environment.
    pub fn name(&self) -> (r: &'static str)
        ensures
            r@ == (match self {
                EnvVariable::RpcUrl => "RPC_URL"@,
                EnvVariable::PublicKey => "PUBLIC_KEY"@,
                EnvVariable::PrivateKey => "PRIVATE_KEY"@,
                EnvVariable::ConversationId => "CONVERSATION_ID"@,
                EnvVariable::MessageCount => "MESSAGE_COUNT"@,
                EnvVariable::MessageSize => "MESSAGE_SIZE"@,
            }),
    {
        match self {
            EnvVariable::RpcUrl => "RPC_URL",
            EnvVariable::PublicKey => "PUBLIC_KEY",
            EnvVariable::PrivateKey => "PRIVATE_KEY",
            EnvVariable::ConversationId => "CONVERSATION_ID",
            EnvVariable::MessageCount => "MESSAGE_COUNT",
            EnvVariable::MessageSize => "MESSAGE_SIZE",
        }
    }
}

/// Why the configuration is unusable.
#[derive(Clone, Copy, Debug, PartialEq, Eq, Structural)]
pub enum EnvError {
    /// The variable is not set.
    Missing(EnvVariable),
    /// The variable does not hold an unsigned 32-bit decimal number.
    NotANumber(EnvVariable),
}

/// The value of a run of ASCII decimal digits.
pub open spec fn digits_value(d: Seq<u8>) -> nat
    decreases d.len(),
{
    if d.len() == 0 {
        0
    } else {
        (digits_value(d.drop_last()) * 10 + (d.last() - 48)) as nat
    }
}

/// Every byte is an ASCII decimal digit.
pub open spec fn all_digits(d: Seq<u8>) -> bool {
    forall|i: int| 0 <= i < d.len() ==> 48 <= #[trigger] d[i] <= 57
}

/// The digits of a decimal number, after an optional leading `+`.
pub open spec fn unsigned_digits(b: Seq<u8>) -> Seq<u8> {
    if b.len() > 0 && b[0] == 43 {
        b.drop_first()
    } else {
        b
    }
}

/// The `u32` that the text `b` writes in decimal, if any.
pub open spec fn parse_u32_spec(b: Seq<u8>) -> Option<u32> {
    let d = unsigned_digits(b);
    if d.len() > 0 && all_digits(d) && digits_value(d) <= u32::MAX {
        Some(digits_value(d) as u32)
    } else {
        None
    }
}

proof fn lemma_digits_value_grows(d: Seq<u8>, j: int, k: int)
    requires
        0 <= j <= k <= d.len(),
        all_digits(d),
    ensures
        digits_value(d.subrange(0, j)) <= digits_value(d.subrange(0, k)),
    decreases k - j,
{
    if j < k {
        lemma_digits_value_grows(d, j, k - 1);
        assert(d.subrange(0, k).drop_last() =~= d.subrange(0, k - 1));
        assert(d[k - 1] >= 48);
    }
}

/// Reads an unsigned 32-bit decimal number: an optional `+`, then one or more
/// ASCII digits, with no other character.
pub fn parse_u32(s: &str) -> (r: Option<u32>)
    ensures
        r == parse_u32_spec(s.spec_bytes()),
{
    let b = s.as_bytes();
    let ghost d = unsigned_digits(b@);
    let start: usize = if b.len() > 0 && b[0] == 43 { 1 } else { 0 };
    assert(d =~= b@.subrange(start as int, b@.len() as int));
    if start >= b.len() {
        return None;
    }
    let mut acc: u64 = 0;
    let mut i: usize = start;
    while i < b.len()
        invariant
            start <= i <= b@.len(),
            b@ == s.spec_bytes(),
            d == unsigned_digits(b@),
            d == b@.subrange(start as int, b@.len() as int),
            all_digits(d.subrange(0, i - start)),
            acc == digits_value(d.subrange(0, i - start)),
            acc <= u32::MAX,
        decreases b.len() - i,
    {
        let c = b[i];
        if c < 48 || c > 57 {
            assert(d[i - start] == c);
            return None;
        }
        let next = acc * 10 + (c - 48) as u64;
        assert(d.subrange(0, i + 1 - start).drop_last() =~= d.subrange(0, i - start));
        assert(d.subrange(0, i + 1 - start).last() == c);
        assert(all_digits(d.subrange(0, i + 1 - start))) by {
            assert forall|k: int| 0 <= k < i + 1 - start implies 48 <= #[trigger] d.subrange(
                0,
                i + 1 - start,
            )[k] <= 57 by {
                if k < i - start {
                    assert(d.subrange(0, i + 1 - start)[k] == d.subrange(0, i - start)[k]);
                }
            }
        }
        if next > 0xffff_ffff {
            proof {
                if all_digits(d) {
                    lemma_digits_value_grows(d, i + 1 - start, d.len() as int);
                    assert(d.subrange(0, d.len() as int) =~= d);
                }
            }
            return None;
        }
        acc = next;
        i = i + 1;
    }
    assert(d.subrange(0, d.len() as int) =~= d);
    Some(acc as u32)
}

/// The text `value` shows when printed in secret: one `*` per byte, at most ten.
pub open spec fn scrambled(value: Seq<char>) -> Seq<char> {
    let n = encode_utf8(value).len();
    Seq::new(if n < 10 { n } else { 10 }, |i: int| '*')
}

/// Masks a secret for display, keeping only a hint of its length.
pub fn scram(value: String) -> (r: String)
    ensures
        r@ == scrambled(value@),
{
    let n = value.as_str().as_bytes().len();
    let m: usize = if n < 10 { n } else { 10 };
    let mut scrambled_text = String::new();
    let mut i: usize = 0;
    while i < m
        invariant
            i <= m,
            m == (if n < 10 { n } else { 10 }),
            n == encode_utf8(value@).len(),
            scrambled_text@ == Seq::new(i as nat, |k: int| '*'),
        decreases m - i,
    {
        proof {
            reveal_strlit("*");
        }
        scrambled_text.append("*");
        i = i + 1;
        assert(scrambled_text@ =~= Seq::new(i as nat, |k: int| '*'));
    }
    assert(scrambled_text@ =~= scrambled(value@));
    scrambled_text
}

/// The bytes `v2` (the start of an endpoint's key path) begin at `i`.
pub open spec fn v2_at(b: Seq<u8>, i: int) -> bool {
    0 <= i && i + 1 < b.len() && b[i] == 118 && b[i + 1] == 50
}

/// The part of an endpoint URL that may be logged: everything before the
/// first `v2`, where the key path that may hold a secret begins.
pub fn rpc_url_shown(url: &str) -> (r: String)
    ensures
        encode_utf8(r@) == url.spec_bytes().subrange(0, encode_utf8(r@).len() as int),
        forall|i: int| 0 <= i < encode_utf8(r@).len() ==> !v2_at(url.spec_bytes(), i),
        encode_utf8(r@).len() < url.spec_bytes().len() ==> v2_at(
            url.spec_bytes(),
            encode_utf8(r@).len() as int,
        ),
{
    let b = url.as_bytes();
    let mut i: usize = 0;
    while i < b.len() && i + 1 < b.len() && !(b[i] == 118 && b[i + 1] == 50)
        invariant
            i <= b@.len(),
            b@ == url.spec_bytes(),
            forall|j: int| 0 <= j < i ==> !v2_at(b@, j),
        decreases b.len() - i,
    {
        i = i + 1;
    }
    let k: usize = if i < b.len() && i + 1 < b.len() { i } else { b.len() };
    proof {
        encode_utf8_valid_utf8(url@);
        is_char_boundary_start_end_of_seq(b@);
        if k < b@.len() {
            is_char_boundary_iff_is_leading_byte(b@, k as int);
        }
    }
    let (head, _) = url.split_at(k);
    let shown = String::from_str(head);
    proof {
        assert(encode_utf8(shown@) == head.spec_bytes());
    }
    shown
}

/// Builds the configuration from the raw values of its variables (`None`
/// where one is not set). The first variable in declaration order that is
/// missing, or that should hold a number and does not, is reported.
pub fn environment_from(
    rpc_url: Option<String>,
    public_key: Option<String>,
    private_key: Option<String>,
    conversation_id: Option<String>,
    message_count: Option<String>,
    message_size: Option<String>,
) -> (r: Result<Environment, EnvError>)
    ensures
        rpc_url is None ==> r == Err::<Environment, EnvError>(EnvError::Missing(EnvVariable::RpcUrl)),
        rpc_url is Some && public_key is None ==> r == Err::<Environment, EnvError>(
            EnvError::Missing(EnvVariable::PublicKey),
        ),
        rpc_url is Some && public_key is Some && private_key is None ==> r == Err::<
            Environment,
            EnvError,
        >(EnvError::Missing(EnvVariable::PrivateKey)),
        rpc_url is Some && public_key is Some && private_key is Some && conversation_id is None
            ==> r == Err::<Environment, EnvError>(EnvError::Missing(EnvVariable::ConversationId)),
        rpc_url is Some && public_key is Some && private_key is Some && conversation_id is Some
            && message_count is None ==> r == Err::<Environment, EnvError>(
            EnvError::Missing(EnvVariable::MessageCount),
        ),
        rpc_url is Some && public_key is Some && private_key is Some && conversation_id is Some
            && message_count is Some && parse_u32_spec(encode_utf8(message_count->Some_0@))
            is None ==> r == Err::<Environment, EnvError>(
            EnvError::NotANumber(EnvVariable::MessageCount),
        ),
        rpc_url is Some && public_key is Some && private_key is Some && conversation_id is Some
            && message_count is Some && parse_u32_spec(encode_utf8(message_count->Some_0@))
            is Some && message_size is None ==> r == Err::<Environment, EnvError>(
            EnvError::Missing(EnvVariable::MessageSize),
        ),
        rpc_url is Some && public_key is Some && private_key is Some && conversation_id is Some
            && message_count is Some && parse_u32_spec(encode_utf8(message_count->Some_0@))
            is Some && message_size is Some && parse_u32_spec(
            encode_utf8(message_size->Some_0@),
        ) is None ==> r == Err::<Environment, EnvError>(
            EnvError::NotANumber(EnvVariable::MessageSize),
        ),
        rpc_url is Some && public_key is Some && private_key is Some && conversation_id is Some
            && message_count is Some && message_size is Some && parse_u32_spec(
            encode_utf8(message_count->Some_0@),
        ) is Some && parse_u32_spec(encode_utf8(message_size->Some_0@)) is Some ==> r is Ok,
        r is Ok ==> ({
            let e = r->Ok_0;
            &&& rpc_url == Some(e.rpc_url)
            &&& public_key == Some(e.public_key)
            &&& private_key == Some(e.private_key)
            &&& conversation_id == Some(e.conversation_id)
            &&& parse_u32_spec(encode_utf8(message_count->Some_0@)) == Some(e.message_count)
            &&& parse_u32_spec(encode_utf8(message_size->Some_0@)) == Some(e.message_size)
        }),
{
    let rpc_url = match rpc_url {
        Some(v) => v,
        None => {
            return Err(EnvError::Missing(EnvVariable::RpcUrl));
        },
    };
    let public_key = match public_key {
        Some(v) => v,
        None => {
            return Err(EnvError::Missing(EnvVariable::PublicKey));
        },
    };
    let private_key = match private_key {
        Some(v) => v,
        None => {
            return Err(EnvError::Missing(EnvVariable::PrivateKey));
        },
    };
    let conversation_id = match conversation_id {
        Some(v) => v,
        None => {
            return Err(EnvError::Missing(EnvVariable::ConversationId));
        },
    };
    let message_count = match message_count {
        Some(v) => match parse_u32(v.as_str()) {
            Some(n) => n,
            None => {
                return Err(EnvError::NotANumber(EnvVariable::MessageCount));
            },
        },
        None => {
            return Err(EnvError::Missing(EnvVariable::MessageCount));
        },
    };
    let message_size = match message_size {
        Some(v) => match parse_u32(v.as_str()) {
            Some(n) => n,
            None => {
                return Err(EnvError::NotANumber(EnvVariable::MessageSize));
            },
        },
        None => {
            return Err(EnvError::Missing(EnvVariable::MessageSize));
        },
    };
    Ok(
        Environment {
            rpc_url,
            public_key,
            private_key,
            conversation_id,
            message_count,
            message_size,
        },
    )
}

} // verus!
