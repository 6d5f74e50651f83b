use vstd::prelude::*;
use vstd::arithmetic::div_mod::{lemma_mod_breakdown, lemma_small_mod};
use vstd::string::StringSliceAdditionalSpecFns;
use vstd::utf8::{decode_utf8, encode_utf8, valid_utf8};
use vstd::utf8::{decode_utf8_encode_utf8, encode_utf8_decode_utf8, encode_utf8_valid_utf8};
use crate::error::ConversationError;

verus! {

#[verifier::external_type_specification]
#[verifier::external_body]
pub struct ExAbiError(ethabi::Error);

/// `256` to the power `n`.
pub open spec fn pow256(n: nat) -> nat
    decreases n,
{
    if n == 0 {
        1
    } else {
        256 * pow256((n - 1) as nat)
    }
}

/// The unsigned value of a byte sequence read most significant byte first.
pub open spec fn be_value(b: Seq<u8>) -> nat
    decreases b.len(),
{
    if b.len() == 0 {
        0
    } else {
        (be_value(b.drop_last()) * 256 + b.last()) as nat
    }
}

/// The `n` low-order bytes of `x`, most significant first.
pub open spec fn be_bytes(x: nat, n: nat) -> Seq<u8>
    decreases n,
{
    if n == 0 {
        Seq::empty()
    } else {
        be_bytes(x / 256, (n - 1) as nat).push((x % 256) as u8)
    }
}

/// One 32-byte ABI word holding `x`.
pub open spec fn word_of(x: nat) -> Seq<u8> {
    be_bytes(x, 32)
}

/// A 32-byte word starts at `at` and its first 28 bytes are zero, so that its
/// value fits in 32 bits.
pub open spec fn small_word_at(data: Seq<u8>, at: int) -> bool {
    &&& 0 <= at
    &&& at + 32 <= data.len()
    &&& forall|i: int| at <= i < at + 28 ==> data[i] == 0
}

/// The value of the small word at `at`, read from its last four bytes.
pub open spec fn small_word_value(data: Seq<u8>, at: int) -> nat {
    be_value(data.subrange(at + 28, at + 32))
}

/// Where the message's length word stands: the value of the first word.
pub open spec fn message_offset(data: Seq<u8>) -> nat {
    small_word_value(data, 0)
}

/// The message's length in bytes.
pub open spec fn message_len(data: Seq<u8>) -> nat {
    small_word_value(data, message_offset(data) as int)
}

/// Where the message's bytes start.
pub open spec fn message_start(data: Seq<u8>) -> int {
    message_offset(data) as int + 32
}

/// The message's bytes.
pub open spec fn message_bytes(data: Seq<u8>) -> Seq<u8> {
    data.subrange(message_start(data), message_start(data) + message_len(data))
}

/// The layout that an ABI decoder of `(string, uint256)` reads: an offset word,
/// a length word at that offset, the bytes after it, and the integer word.
pub open spec fn abi_layout_ok(data: Seq<u8>) -> bool {
    &&& small_word_at(data, 0)
    &&& small_word_at(data, message_offset(data) as int)
    &&& message_start(data) + message_len(data) <= data.len()
    &&& 64 <= data.len()
}

/// Limb `k` (least significant first) of the integer word, which is the
/// second word of the payload.
pub open spec fn uint_limb(data: Seq<u8>, k: int) -> nat {
    be_value(data.subrange(56 - 8 * k, 64 - 8 * k))
}

/// The integer word as four 64-bit limbs, least significant first.
pub open spec fn pointer_limbs(data: Seq<u8>) -> Seq<u64> {
    Seq::new(4, |k: int| uint_limb(data, k) as u64)
}

/// The payload is exactly the ABI encoding of one `(string, uint256)` pair:
/// the layout an ABI decoder reads, with the message right after the two head
/// words, zero padding up to a 32-byte boundary and nothing after it, and
/// message bytes that are valid UTF-8 text.
pub open spec fn exact_layout(data: Seq<u8>) -> bool {
    &&& abi_layout_ok(data)
    &&& message_offset(data) == 64
    &&& data.len() == 96 + message_len(data) + pad_len(message_len(data))
    &&& forall|i: int| 96 + message_len(data) <= i < data.len() ==> data[i] == 0
    &&& valid_utf8(message_bytes(data))
}

/// What a payload decodes to: its message and its previous pointer (as four
/// 64-bit limbs, least significant first), or `None` where the payload is not
/// exactly an encoding of `(string, uint256)`.
pub open spec fn decode_payload_spec(data: Seq<u8>) -> Option<(Seq<char>, Seq<u64>)> {
    if exact_layout(data) {
        Some((decode_utf8(message_bytes(data)), pointer_limbs(data)))
    } else {
        None
    }
}

/// Number of zero bytes that pad `n` bytes to a multiple of 32.
pub open spec fn pad_len(n: nat) -> nat {
    if n % 32 == 0 {
        0
    } else {
        (32 - n % 32) as nat
    }
}

/// The 32-byte word of a 256-bit integer given as four limbs, least
/// significant first.
pub open spec fn pointer_word(prev: Seq<u64>) -> Seq<u8> {
    be_bytes(prev[3] as nat, 8) + be_bytes(prev[2] as nat, 8) + be_bytes(prev[1] as nat, 8)
        + be_bytes(prev[0] as nat, 8)
}

/// The payload of an event carrying `message` and `prev`: the ABI encoding of
/// `(string, uint256)`.
pub open spec fn payload_encoding(message: Seq<char>, prev: Seq<u64>) -> Seq<u8> {
    let b = encode_utf8(message);
    word_of(64) + pointer_word(prev) + word_of(b.len()) + b + Seq::new(
        pad_len(b.len()),
        |i: int| 0u8,
    )
}

/// Relies on `ethabi::decode` with the parameter types `[String, Uint(256)]`:
/// it succeeds exactly when the offset word, the length word and the bytes
/// it names, and the integer word are all within `data` (the two size words
/// with 28 leading zero bytes); the text is decoded from UTF-8, exactly where
/// the bytes are valid (`String::from_utf8_lossy`), and the integer is read
/// big-endian into four little-endian-ordered limbs (`U256::from_big_endian`).
#[verifier::external_body]
fn ethabi_decode_string_uint(data: &[u8]) -> (r: Result<(String, [u64; 4]), ethabi::Error>)
    ensures
        r is Ok <==> abi_layout_ok(data@),
        r is Ok && valid_utf8(message_bytes(data@)) ==> r->Ok_0.0@ == decode_utf8(
            message_bytes(data@),
        ),
        r is Ok ==> forall|k: int| 0 <= k < 4 ==> r->Ok_0.1@[k] as nat == uint_limb(data@, k),
{
    let types = [ethabi::ParamType::String, ethabi::ParamType::Uint(256)];
    let mut tokens = ethabi::decode(&types, data)?.into_iter();
    match (tokens.next(), tokens.next()) {
        (Some(ethabi::Token::String(s)), Some(ethabi::Token::Uint(u))) => Ok((s, u.0)),
        _ => Err(ethabi::Error::InvalidData),
    }
}

/// A decoded event payload. The previous pointer is an unsigned 256-bit
/// integer held as four limbs, least significant first.
pub struct EventPayload {
    pub message: String,
    pub prev_pointer: [u64; 4],
}

/// The big-endian value of the four bytes at `at`.
fn be4(data: &[u8], at: usize) -> (r: u64)
    requires
        at + 4 <= data@.len(),
    ensures
        r == be_value(data@.subrange(at as int, at + 4)),
        r < 0x1_0000_0000,
{
    let ghost s = data@.subrange(at as int, at + 4);
    reveal_with_fuel(be_value, 5);
    assert(s.drop_last().drop_last().drop_last().drop_last() =~= Seq::<u8>::empty());
    assert(s.drop_last().drop_last().drop_last().last() == data@[at as int]);
    assert(s.drop_last().drop_last().last() == data@[at + 1]);
    assert(s.drop_last().last() == data@[at + 2]);
    assert(s.last() == data@[at + 3]);
    let (b0, b1, b2, b3) = (data[at] as u64, data[at + 1] as u64, data[at + 2] as u64, data[
        at + 3
    ] as u64);
    assert(((b0 * 256 + b1) * 256 + b2) * 256 + b3 < 0x1_0000_0000) by (nonlinear_arith)
        requires
            b0 < 256,
            b1 < 256,
            b2 < 256,
            b3 < 256,
    ;
    ((b0 * 256 + b1) * 256 + b2) * 256 + b3
}

/// `a` stands in `b` at `start`.
fn stands_at(a: &[u8], b: &[u8], start: usize) -> (r: bool)
    requires
        start + a@.len() <= b@.len(),
    ensures
        r == (b@.subrange(start as int, start + a@.len()) == a@),
{
    let n = b.len();
    let mut i: usize = 0;
    while i < a.len()
        invariant
            i <= a@.len(),
            n == b@.len(),
            start + a@.len() <= b@.len(),
            forall|j: int| 0 <= j < i ==> b@[start + j] == a@[j],
        decreases a.len() - i,
    {
        assert(start + i < b@.len());
        if b[start + i] != a[i] {
            assert(b@.subrange(start as int, start + a@.len())[i as int] != a@[i as int]);
            return false;
        }
        i = i + 1;
    }
    assert(b@.subrange(start as int, start + a@.len()) =~= a@);
    true
}

/// Every byte of `b` from `from` on is zero.
fn zeros_from(b: &[u8], from: usize) -> (r: bool)
    requires
        from <= b@.len(),
    ensures
        r == (forall|i: int| from <= i < b@.len() ==> b@[i] == 0),
{
    let mut i: usize = from;
    while i < b.len()
        invariant
            from <= i <= b@.len(),
            forall|j: int| from <= j < i ==> b@[j] == 0,
        decreases b.len() - i,
    {
        if b[i] != 0 {
            return false;
        }
        i = i + 1;
    }
    true
}

/// Decodes the payload of a `PayloadSent` event into its message and the
/// pointer to the previous event. A payload that is not exactly the encoding
/// of one `(string, uint256)` pair with UTF-8 text fails with `Decode`.
pub fn abi_decode_payload_sent(data: &Vec<u8>) -> (r: Result<EventPayload, ConversationError>)
    ensures
        match decode_payload_spec(data@) {
            Some(ev) => r is Ok && r->Ok_0.message@ == ev.0 && r->Ok_0.prev_pointer@ == ev.1,
            None => r is Err && r->Err_0 == ConversationError::Decode,
        },
        r is Ok ==> data@ == payload_encoding(r->Ok_0.message@, r->Ok_0.prev_pointer@),
        forall|m: Seq<char>, p: Seq<u64>|
            p.len() == 4 && encode_utf8(m).len() < 0x1_0000_0000 && data@ == #[trigger] payload_encoding(
                m,
                p,
            ) ==> r is Ok && r->Ok_0.message@ == m && r->Ok_0.prev_pointer@ == p,
{
    proof {
        if decode_payload_spec(data@) is Some {
            lemma_decoded_is_encoding(data@);
        }
        assert forall|m: Seq<char>, p: Seq<u64>|
            p.len() == 4 && encode_utf8(m).len() < 0x1_0000_0000 && data@ == #[trigger] payload_encoding(
                m,
                p,
            ) implies decode_payload_spec(data@) == Some((m, p)) by {
            lemma_payload_round_trip(m, p);
        }
    }
    match ethabi_decode_string_uint(data.as_slice()) {
        Err(_) => Err(ConversationError::Decode),
        Ok((message, limbs)) => {
            assert(limbs@ =~= pointer_limbs(data@));
            let d = data.as_slice();
            let offset = be4(d, 28);
            if offset != 64 {
                return Err(ConversationError::Decode);
            }
            let dl = d.len();
            let len = be4(d, 92) as usize;
            assert(message_offset(data@) == 64);
            assert(message_len(data@) == len);
            let start: usize = 96;
            assert(start + len <= dl);
            let end = start + len;
            let pad: usize = if len % 32 == 0 { 0 } else { 32 - len % 32 };
            if dl - end != pad || !zeros_from(d, end) {
                return Err(ConversationError::Decode);
            }
            let ghost b = message_bytes(data@);
            let text = message.as_str().as_bytes();
            proof {
                encode_utf8_valid_utf8(message@);
                if valid_utf8(b) {
                    decode_utf8_encode_utf8(b);
                }
            }
            if text.len() != len || !stands_at(text, d, start) {
                return Err(ConversationError::Decode);
            }
            assert(valid_utf8(b));
            Ok(EventPayload { message, prev_pointer: limbs })
        },
    }
}

fn push_be(out: &mut Vec<u8>, x: u64, n: usize)
    ensures
        final(out)@ == old(out)@ + be_bytes(x as nat, n as nat),
    decreases n,
{
    if n == 0 {
        assert(old(out)@ + be_bytes(x as nat, 0) =~= old(out)@);
    } else {
        push_be(out, x / 256, n - 1);
        out.push((x % 256) as u8);
        assert(final(out)@ =~= old(out)@ + be_bytes(x as nat, n as nat));
    }
}

/// Encodes an event payload carrying `message` and `prev_pointer` (four
/// limbs, least significant first).
pub fn encode_payload(message: &str, prev_pointer: [u64; 4]) -> (r: Vec<u8>)
    ensures
        r@ == payload_encoding(message@, prev_pointer@),
{
    let bytes = message.as_bytes();
    let n = bytes.len();
    let mut out: Vec<u8> = Vec::new();
    push_be(&mut out, 64, 32);
    push_be(&mut out, prev_pointer[3], 8);
    push_be(&mut out, prev_pointer[2], 8);
    push_be(&mut out, prev_pointer[1], 8);
    push_be(&mut out, prev_pointer[0], 8);
    push_be(&mut out, n as u64, 32);
    let ghost head = out@;
    let mut i: usize = 0;
    while i < n
        invariant
            i <= n,
            n == bytes@.len(),
            out@ == head + bytes@.subrange(0, i as int),
        decreases n - i,
    {
        out.push(bytes[i]);
        i = i + 1;
        assert(out@ =~= head + bytes@.subrange(0, i as int));
    }
    let pad: usize = if n % 32 == 0 { 0 } else { 32 - n % 32 };
    let ghost body = out@;
    let mut j: usize = 0;
    while j < pad
        invariant
            j <= pad,
            out@ == body + Seq::new(j as nat, |k: int| 0u8),
        decreases pad - j,
    {
        out.push(0u8);
        j = j + 1;
        assert(out@ =~= body + Seq::new(j as nat, |k: int| 0u8));
    }
    assert(bytes@.subrange(0, n as int) =~= bytes@);
    assert(out@ =~= payload_encoding(message@, prev_pointer@));
    out
}

proof fn lemma_small_word(w: Seq<u8>, x: nat)
    requires
        w == word_of(x),
        x < pow256(4),
    ensures
        w.len() == 32,
        forall|i: int| 0 <= i < 28 ==> w[i] == 0,
        be_value(w.subrange(28, 32)) == x,
{
    lemma_be_bytes_len(x, 32);
    lemma_be_bytes_high_zero(x, 32, 4);
    lemma_be_bytes_suffix(x, 32, 4);
    lemma_be_value_of_bytes(x, 4);
    lemma_small_mod(x, pow256(4));
}

/// Decoding the encoding of a message and a 256-bit pointer gives back that
/// message and that pointer, for every message whose UTF-8 form is shorter
/// than `2^32` bytes (the decoder reads sizes from 32 bits).
pub proof fn lemma_payload_round_trip(message: Seq<char>, prev: Seq<u64>)
    requires
        prev.len() == 4,
        encode_utf8(message).len() < 0x1_0000_0000,
    ensures
        decode_payload_spec(payload_encoding(message, prev)) == Some((message, prev)),
{
    let b = encode_utf8(message);
    let w0 = word_of(64);
    let w1 = pointer_word(prev);
    let w2 = word_of(b.len());
    let pad = Seq::new(pad_len(b.len()), |i: int| 0u8);
    let d = payload_encoding(message, prev);
    reveal_with_fuel(pow256, 9);
    assert(pow256(4) == 0x1_0000_0000);
    assert(pow256(8) == 0x1_0000_0000_0000_0000);
    lemma_small_word(w0, 64);
    lemma_small_word(w2, b.len());
    assert forall|k: int| 0 <= k < 4 implies be_value(#[trigger] be_bytes(prev[k] as nat, 8))
        == prev[k] by {
        lemma_be_bytes_len(prev[k] as nat, 8);
        lemma_be_value_of_bytes(prev[k] as nat, 8);
        lemma_small_mod(prev[k] as nat, pow256(8));
    }
    lemma_be_bytes_len(prev[0] as nat, 8);
    lemma_be_bytes_len(prev[1] as nat, 8);
    lemma_be_bytes_len(prev[2] as nat, 8);
    lemma_be_bytes_len(prev[3] as nat, 8);
    assert(d == w0 + w1 + w2 + b + pad);
    assert(d.subrange(0, 32) =~= w0);
    assert(d.subrange(64, 96) =~= w2);
    assert(d.subrange(96, 96 + b.len() as int) =~= b);
    assert(d.subrange(28, 32) =~= w0.subrange(28, 32));
    assert(message_offset(d) == 64);
    assert(d.subrange(92, 96) =~= w2.subrange(28, 32));
    assert(message_len(d) == b.len());
    assert forall|i: int| 0 <= i < 28 implies d[i] == 0 by {
        assert(d[i] == w0[i]);
    }
    assert forall|i: int| 64 <= i < 92 implies d[i] == 0 by {
        assert(d[i] == w2[i - 64]);
    }
    assert(d.subrange(56, 64) =~= be_bytes(prev[0] as nat, 8));
    assert(d.subrange(48, 56) =~= be_bytes(prev[1] as nat, 8));
    assert(d.subrange(40, 48) =~= be_bytes(prev[2] as nat, 8));
    assert(d.subrange(32, 40) =~= be_bytes(prev[3] as nat, 8));
    assert(uint_limb(d, 0) == prev[0]);
    assert(uint_limb(d, 1) == prev[1]);
    assert(uint_limb(d, 2) == prev[2]);
    assert(uint_limb(d, 3) == prev[3]);
    assert(pointer_limbs(d) =~= prev);
    assert(message_bytes(d) == b);
    encode_utf8_valid_utf8(message);
    encode_utf8_decode_utf8(message);
}

proof fn lemma_be_value_bound(s: Seq<u8>)
    ensures
        be_value(s) < pow256(s.len()),
    decreases s.len(),
{
    if s.len() > 0 {
        lemma_be_value_bound(s.drop_last());
        let v = be_value(s.drop_last());
        let c = s.last();
        assert(v * 256 + c < 256 * pow256((s.len() - 1) as nat)) by (nonlinear_arith)
            requires
                v < pow256((s.len() - 1) as nat),
                c < 256,
        ;
    }
}

proof fn lemma_be_bytes_of_value(s: Seq<u8>)
    ensures
        s == be_bytes(be_value(s), s.len()),
    decreases s.len(),
{
    if s.len() == 0 {
        assert(s =~= Seq::<u8>::empty());
    } else {
        let p = s.drop_last();
        let v = be_value(p);
        let c = s.last();
        lemma_be_bytes_of_value(p);
        assert((v * 256 + c) / 256 == v && (v * 256 + c) % 256 == c) by (nonlinear_arith)
            requires
                c < 256,
        ;
        assert(s =~= p.push(c));
    }
}

proof fn lemma_word_from_value(w: Seq<u8>, x: nat)
    requires
        w.len() == 32,
        forall|i: int| 0 <= i < 28 ==> w[i] == 0,
        be_value(w.subrange(28, 32)) == x,
    ensures
        w == word_of(x),
{
    let t = w.subrange(28, 32);
    lemma_be_value_bound(t);
    lemma_be_bytes_of_value(t);
    lemma_be_bytes_len(x, 32);
    lemma_be_bytes_high_zero(x, 32, 4);
    lemma_be_bytes_suffix(x, 32, 4);
    assert forall|i: int| 0 <= i < 32 implies w[i] == word_of(x)[i] by {
        if i >= 28 {
            assert(w[i] == t[i - 28]);
            assert(word_of(x)[i] == be_bytes(x, 32).subrange(28, 32)[i - 28]);
        }
    }
    assert(w =~= word_of(x));
}

/// A payload decodes only where it is exactly the encoding of what it
/// decodes to: no other byte sequence is accepted.
pub proof fn lemma_decoded_is_encoding(data: Seq<u8>)
    requires
        decode_payload_spec(data) is Some,
    ensures
        data == payload_encoding(
            decode_payload_spec(data)->Some_0.0,
            decode_payload_spec(data)->Some_0.1,
        ),
        encode_utf8(decode_payload_spec(data)->Some_0.0).len() < 0x1_0000_0000,
{
    let b = message_bytes(data);
    let m = decode_utf8(b);
    let p = pointer_limbs(data);
    let len = message_len(data);
    decode_utf8_encode_utf8(b);
    assert(encode_utf8(m) == b);
    lemma_be_value_bound(data.subrange(92, 96));
    reveal_with_fuel(pow256, 9);
    assert(pow256(4) == 0x1_0000_0000);
    assert(pow256(8) == 0x1_0000_0000_0000_0000);
    assert(data.subrange(0, 32).subrange(28, 32) =~= data.subrange(28, 32));
    lemma_word_from_value(data.subrange(0, 32), 64);
    assert(data.subrange(64, 96).subrange(28, 32) =~= data.subrange(92, 96));
    lemma_word_from_value(data.subrange(64, 96), len);
    assert forall|k: int| 0 <= k < 4 implies #[trigger] data.subrange(56 - 8 * k, 64 - 8 * k)
        == be_bytes(p[k] as nat, 8) by {
        let seg = data.subrange(56 - 8 * k, 64 - 8 * k);
        lemma_be_value_bound(seg);
        lemma_be_bytes_of_value(seg);
    }
    assert(data.subrange(32, 64) =~= data.subrange(32, 40) + data.subrange(40, 48)
        + data.subrange(48, 56) + data.subrange(56, 64));
    assert(data.subrange(56 - 8 * 3, 64 - 8 * 3) == be_bytes(p[3] as nat, 8));
    assert(data.subrange(56 - 8 * 2, 64 - 8 * 2) == be_bytes(p[2] as nat, 8));
    assert(data.subrange(56 - 8 * 1, 64 - 8 * 1) == be_bytes(p[1] as nat, 8));
    assert(data.subrange(56 - 8 * 0, 64 - 8 * 0) == be_bytes(p[0] as nat, 8));
    assert(data.subrange(32, 64) == pointer_word(p));
    let pad = Seq::new(pad_len(b.len()), |i: int| 0u8);
    assert(data.subrange(96 + len as int, data.len() as int) =~= pad);
    assert(data =~= data.subrange(0, 32) + data.subrange(32, 64) + data.subrange(64, 96) + b
        + data.subrange(96 + len as int, data.len() as int));
}

proof fn lemma_pow256_pos(n: nat)
    ensures
        pow256(n) > 0,
    decreases n,
{
    if n > 0 {
        lemma_pow256_pos((n - 1) as nat);
    }
}

proof fn lemma_be_bytes_len(x: nat, n: nat)
    ensures
        be_bytes(x, n).len() == n,
    decreases n,
{
    if n > 0 {
        lemma_be_bytes_len(x / 256, (n - 1) as nat);
    }
}

proof fn lemma_be_value_of_bytes(x: nat, n: nat)
    ensures
        be_value(be_bytes(x, n)) == x % pow256(n),
    decreases n,
{
    if n > 0 {
        let s = be_bytes(x / 256, (n - 1) as nat);
        lemma_be_value_of_bytes(x / 256, (n - 1) as nat);
        assert(be_bytes(x, n).drop_last() =~= s);
        lemma_pow256_pos((n - 1) as nat);
        lemma_mod_breakdown(x as int, 256, pow256((n - 1) as nat) as int);
    }
}

proof fn lemma_be_bytes_suffix(x: nat, n: nat, k: nat)
    requires
        k <= n,
    ensures
        be_bytes(x, n).subrange(n - k, n as int) == be_bytes(x, k),
    decreases n,
{
    lemma_be_bytes_len(x, n);
    if k == 0 {
        assert(be_bytes(x, n).subrange(n - k, n as int) =~= be_bytes(x, k));
    } else {
        lemma_be_bytes_suffix(x / 256, (n - 1) as nat, (k - 1) as nat);
        lemma_be_bytes_len(x / 256, (n - 1) as nat);
        assert(be_bytes(x, n).subrange(n - k, n as int) =~= be_bytes(x, k));
    }
}

proof fn lemma_be_bytes_high_zero(x: nat, n: nat, k: nat)
    requires
        k <= n,
        x < pow256(k),
    ensures
        forall|i: int| 0 <= i < n - k ==> be_bytes(x, n)[i] == 0,
    decreases n,
{
    if n > k {
        let s = be_bytes(x / 256, (n - 1) as nat);
        lemma_be_bytes_len(x / 256, (n - 1) as nat);
        if k == 0 {
            lemma_be_bytes_high_zero(x / 256, (n - 1) as nat, 0);
        } else {
            lemma_pow256_pos((k - 1) as nat);
            assert(x / 256 < pow256((k - 1) as nat)) by (nonlinear_arith)
                requires
                    x < 256 * pow256((k - 1) as nat),
            ;
            lemma_be_bytes_high_zero(x / 256, (n - 1) as nat, (k - 1) as nat);
        }
        assert(be_bytes(x, n) == s.push((x % 256) as u8));
        assert forall|i: int| 0 <= i < n - k implies be_bytes(x, n)[i] == 0 by {
            if i < s.len() {
                assert(be_bytes(x, n)[i] == s[i]);
            }
        }
    }
}

} // verus!
