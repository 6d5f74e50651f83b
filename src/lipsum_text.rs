use vstd::prelude::*;
use vstd::string::{StringExecFns, StringSliceAdditionalSpecFns};
use vstd::utf8::{encode_scalar, encode_utf8};

verus! {

/// The text of `n` lorem ipsum words that the lipsum generator produces.
pub uninterp spec fn lorem_words_of(n: nat) -> Seq<char>;

/// Relies on `lipsum::lipsum_words`: `n` words sampled from its Markov chain
/// with a fixed seed, so the text depends on `n` alone; at least one word
/// never joins to empty text.
#[verifier::external_body]
fn lorem_words(n: usize) -> (r: String)
    ensures
        r@ == lorem_words_of(n as nat),
        n > 0 ==> r@.len() > 0,
{
    lipsum::lipsum_words(n)
}

/// How many words to ask for when `len` bytes of a `size`-byte message exist.
pub open spec fn words_wanted(size: nat, len: nat) -> nat {
    let w = (size - len) / 5;
    if w < 5 {
        5
    } else {
        w as nat
    }
}

/// Grows `msg` until it holds at least `size` bytes: a space after any
/// earlier text, then more words; it stops early if the generator gives no
/// text. At most `fuel` rounds.
pub open spec fn lipsum_fill(msg: Seq<char>, size: nat, fuel: nat) -> Seq<char>
    decreases fuel,
{
    if fuel == 0 || encode_utf8(msg).len() >= size {
        msg
    } else {
        let sep = if msg.len() == 0 {
            msg
        } else {
            msg.push(' ')
        };
        let chunk = lorem_words_of(words_wanted(size, encode_utf8(sep).len()));
        if chunk.len() == 0 {
            sep
        } else {
            lipsum_fill(sep + chunk, size, (fuel - 1) as nat)
        }
    }
}

proof fn lemma_encode_utf8_concat(a: Seq<char>, b: Seq<char>)
    ensures
        encode_utf8(a + b) == encode_utf8(a) + encode_utf8(b),
    decreases a.len(),
{
    if a.len() == 0 {
        assert(a + b =~= b);
        assert(encode_utf8(a) + encode_utf8(b) =~= encode_utf8(b));
    } else {
        assert((a + b).drop_first() =~= a.drop_first() + b);
        lemma_encode_utf8_concat(a.drop_first(), b);
        assert(encode_utf8(a + b) =~= encode_utf8(a) + encode_utf8(b));
    }
}

proof fn lemma_encode_utf8_nonempty(a: Seq<char>)
    requires
        a.len() > 0,
    ensures
        encode_utf8(a).len() >= 1,
{
    assert(encode_scalar(a[0] as u32).len() >= 1);
}

proof fn lemma_fill_reaches_size(msg: Seq<char>, size: nat, fuel: nat)
    requires
        forall|n: nat| n >= 5 ==> #[trigger] lorem_words_of(n).len() > 0,
        fuel >= size - encode_utf8(msg).len() + 1,
    ensures
        encode_utf8(lipsum_fill(msg, size, fuel)).len() >= size,
    decreases fuel,
{
    if encode_utf8(msg).len() < size {
        let sep = if msg.len() == 0 {
            msg
        } else {
            msg.push(' ')
        };
        if msg.len() > 0 {
            lemma_encode_utf8_concat(msg, seq![' ']);
            assert(msg.push(' ') =~= msg + seq![' ']);
        }
        let chunk = lorem_words_of(words_wanted(size, encode_utf8(sep).len()));
        assert(chunk.len() > 0);
        lemma_encode_utf8_concat(sep, chunk);
        lemma_encode_utf8_nonempty(chunk);
        lemma_fill_reaches_size(sep + chunk, size, (fuel - 1) as nat);
    }
}

/// Wherever the generator gives non-empty text for five or more words, the
/// synthetic message of a given size holds at least that many bytes.
pub proof fn lemma_lipsum_message_size(size: nat)
    requires
        forall|n: nat| n >= 5 ==> #[trigger] lorem_words_of(n).len() > 0,
    ensures
        encode_utf8(lipsum_fill(Seq::empty(), size, size + 1)).len() >= size,
{
    lemma_fill_reaches_size(Seq::empty(), size, size + 1);
}

/// A synthetic message of at least `size` bytes made of lorem ipsum words
/// (shorter only where the generator gives no text).
pub fn lipsum_message(size: usize) -> (r: String)
    ensures
        r@ == lipsum_fill(Seq::empty(), size as nat, size as nat + 1),
{
    let mut message = String::new();
    let ghost total: nat = size as nat + 1;
    let ghost mut fuel: nat = total;
    loop
        invariant
            fuel >= size - encode_utf8(message@).len() + 1,
            lipsum_fill(message@, size as nat, fuel) == lipsum_fill(
                Seq::empty(),
                size as nat,
                total,
            ),
            total == size as nat + 1,
        decreases fuel,
    {
        let len = message.as_str().as_bytes().len();
        if len >= size {
            return message;
        }
        let ghost before = message@;
        if len > 0 {
            proof {
                reveal_strlit(" ");
            }
            message.append(" ");
            proof {
                lemma_encode_utf8_concat(before, seq![' ']);
                assert(seq![' '].drop_first() =~= Seq::<char>::empty());
                assert(' ' as u32 == 32);
                assert(encode_utf8(seq![' ']).len() == 1);
                assert(message@ =~= before.push(' '));
                assert(message@ =~= before + seq![' ']);
                assert(encode_utf8(message@).len() == len + 1);
            }
        } else {
            assert(before.len() == 0) by {
                if before.len() > 0 {
                    lemma_encode_utf8_nonempty(before);
                }
            }
        }
        let ghost sep = message@;
        assert(sep == (if before.len() == 0 {
            before
        } else {
            before.push(' ')
        }));
        assert(encode_utf8(sep).len() <= size);
        let len_sep = message.as_str().as_bytes().len();
        let w = (size - len_sep) / 5;
        let wanted = if w < 5 { 5 } else { w };
        let chunk = lorem_words(wanted);
        if chunk.as_str().as_bytes().len() == 0 {
            assert(chunk@.len() == 0) by {
                if chunk@.len() > 0 {
                    lemma_encode_utf8_nonempty(chunk@);
                }
            }
            return message;
        }
        assert(chunk@.len() > 0);
        message.append(chunk.as_str());
        proof {
            lemma_encode_utf8_concat(sep, chunk@);
            lemma_encode_utf8_nonempty(chunk@);
            fuel = (fuel - 1) as nat;
        }
    }
}

} // verus!
