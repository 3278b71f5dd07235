//! The line codec: a line of tokens as the codes of its tokens, one behind
//! the other, and back.

use crate::bits::{bit_at, bit_count, bits, canonical, extend_bits, new_bits, push_bit};
use crate::error::HuffmanError;
use crate::index::{hash_of_bits, mix_bit, SEED};
use crate::table::{
    code_for, codes_nonempty, first_with_text, inverse, is_prefix, lemma_code_for,
    lemma_first_with_code, prefix_free, token_for, Code, Decoder, Decoding, Encoder,
};
use crate::token::{texts, Token};
use bit_vec::BitVec;
use vstd::prelude::*;

verus! {

/// How many bits the codes of the tokens have together, a token without an
/// entry counting for none.
pub open spec fn code_length(table: Seq<Code>, tokens: Seq<Seq<char>>) -> nat
    decreases tokens.len(),
{
    if tokens.len() == 0 {
        0
    } else {
        code_length(table, tokens.drop_last()) + match code_for(table, tokens.last()) {
            Some(code) => code.len(),
            None => 0,
        }
    }
}

/// The bits of a line: the codes of its tokens one behind the other, or
/// `None` if a token has no entry in the table.
pub open spec fn encoded(table: Seq<Code>, tokens: Seq<Seq<char>>) -> Option<Seq<bool>>
    decreases tokens.len(),
{
    if tokens.len() == 0 {
        Some(Seq::empty())
    } else {
        match (encoded(table, tokens.drop_last()), code_for(table, tokens.last())) {
            (Some(head), Some(code)) => Some(head + code),
            _ => None,
        }
    }
}

/// The decoder's state after it has read `bits`: the tokens emitted so far,
/// and the candidate, the bits read since the last token. Each bit joins
/// the candidate; when the candidate is a code of the table, its token is
/// emitted and the candidate starts anew.
pub open spec fn scanned(table: Seq<Decoding>, bits: Seq<bool>) -> (Seq<Seq<char>>, Seq<bool>)
    decreases bits.len(),
{
    if bits.len() == 0 {
        (Seq::empty(), Seq::empty())
    } else {
        let (emitted, candidate) = scanned(table, bits.drop_last());
        let longer = candidate.push(bits.last());
        match token_for(table, longer) {
            Some(text) => (emitted.push(text), Seq::empty()),
            None => (emitted, longer),
        }
    }
}

/// The tokens of a line of bits, or `None` if bits are left over behind the
/// last code.
pub open spec fn decoded(table: Seq<Decoding>, bits: Seq<bool>) -> Option<Seq<Seq<char>>> {
    if scanned(table, bits).1.len() == 0 {
        Some(scanned(table, bits).0)
    } else {
        None
    }
}

/// The code lengths of the first `n + 1` tokens are those of the first `n`
/// and that of token `n`; no beginning of a line is longer than the line.
pub proof fn lemma_code_length_take(table: Seq<Code>, tokens: Seq<Seq<char>>, n: int)
    requires
        0 <= n < tokens.len(),
    ensures
        code_length(table, tokens.take(n + 1)) == code_length(table, tokens.take(n)) + match code_for(
            table,
            tokens[n],
        ) {
            Some(code) => code.len(),
            None => 0,
        },
        code_length(table, tokens.take(n + 1)) <= code_length(table, tokens),
    decreases tokens.len() - n,
{
    assert(tokens.take(n + 1).drop_last() == tokens.take(n));
    if n + 1 < tokens.len() {
        lemma_code_length_take(table, tokens, n + 1);
    } else {
        assert(tokens.take(n + 1) == tokens);
    }
}

/// The bits of a line are as many as its tokens' codes have together.
pub proof fn lemma_encoded_length(table: Seq<Code>, tokens: Seq<Seq<char>>)
    ensures
        encoded(table, tokens) matches Some(line) ==> line.len() == code_length(table, tokens),
    decreases tokens.len(),
{
    if tokens.len() > 0 {
        lemma_encoded_length(table, tokens.drop_last());
    }
}

/// Encodes one line: the codes of its tokens, one behind the other.
pub fn encode_line<T: Token>(encoder: &Encoder<T>, tokens: &Vec<T>) -> (line: Result<
    BitVec,
    HuffmanError,
>)
    requires
        encoder.wf(),
        code_length(encoder@, texts(tokens@)) <= usize::MAX,
    ensures
        match line {
            Ok(packed) => encoded(encoder@, texts(tokens@)) == Some(bits(packed)) && canonical(
                packed,
            ),
            Err(e) => e == HuffmanError::TokenNotFound && encoded(encoder@, texts(tokens@))
                is None,
        },
{
    let ghost all = texts(tokens@);
    let mut line = new_bits();
    let mut i: usize = 0;
    assert(all.take(0) =~= Seq::<Seq<char>>::empty());
    while i < tokens.len()
        invariant
            i <= tokens@.len(),
            all == texts(tokens@),
            encoder.wf(),
            canonical(line),
            encoded(encoder@, all.take(i as int)) == Some(bits(line)),
            code_length(encoder@, all) <= usize::MAX,
        decreases tokens.len() - i,
    {
        proof {
            assert(all.take(i + 1).drop_last() == all.take(i as int));
            assert(all.take(i + 1).last() == tokens@[i as int].text());
            lemma_code_length_take(encoder@, all, i as int);
            lemma_encoded_length(encoder@, all.take(i as int));
        }
        match encoder.get(&tokens[i]) {
            Some(code) => {
                extend_bits(&mut line, code);
            },
            None => {
                proof {
                    lemma_encoded_none(encoder@, all, i as int);
                }
                return Err(HuffmanError::TokenNotFound);
            },
        }
        i += 1;
    }
    assert(all.take(i as int) == all);
    Ok(line)
}

/// A line with a token that the table does not hold has no encoding.
pub proof fn lemma_encoded_none(table: Seq<Code>, tokens: Seq<Seq<char>>, n: int)
    requires
        0 <= n < tokens.len(),
        code_for(table, tokens[n]) is None,
    ensures
        encoded(table, tokens) is None,
    decreases tokens.len(),
{
    if n < tokens.len() - 1 {
        lemma_encoded_none(table, tokens.drop_last(), n);
    }
}

/// Decodes one line: reads the bits one at a time into a candidate, and
/// whenever the candidate is a code of the table emits its token and starts
/// the candidate anew.
pub fn decode_line<T: Token>(decoder: &Decoder<T>, line: &BitVec) -> (tokens: Result<
    Vec<T>,
    HuffmanError,
>)
    requires
        decoder.wf(),
        canonical(*line),
    ensures
        match tokens {
            Ok(found) => decoded(decoder@, bits(*line)) == Some(texts(found@)),
            Err(e) => e == HuffmanError::DecodeCorruption && decoded(decoder@, bits(*line))
                is None,
        },
{
    let n = bit_count(line);
    let mut tokens: Vec<T> = Vec::new();
    let mut candidate = new_bits();
    let mut hash = SEED;
    let mut i: usize = 0;
    assert(bits(*line).take(0) =~= Seq::<bool>::empty());
    assert(texts(tokens@) =~= Seq::<Seq<char>>::empty());
    while i < n
        invariant
            i <= n,
            n == bits(*line).len(),
            decoder.wf(),
            canonical(*line),
            canonical(candidate),
            bits(candidate).len() <= i,
            hash == hash_of_bits(bits(candidate)),
            scanned(decoder@, bits(*line).take(i as int)) == (texts(tokens@), bits(candidate)),
        decreases n - i,
    {
        proof {
            assert(bits(*line).take(i + 1).drop_last() == bits(*line).take(i as int));
            assert(bits(*line).take(i + 1).last() == bits(*line)[i as int]);
        }
        let bit = bit_at(line, i);
        assert(bits(candidate).push(bit).drop_last() =~= bits(candidate));
        push_bit(&mut candidate, bit);
        hash = mix_bit(hash, bit);
        match decoder.get_hashed(&candidate, hash) {
            Some(token) => {
                let ghost emitted = texts(tokens@);
                tokens.push(token.duplicate());
                assert(texts(tokens@) =~= emitted.push(token.text()));
                candidate = new_bits();
                hash = SEED;
            },
            None => {},
        }
        i += 1;
    }
    assert(bits(*line).take(i as int) == bits(*line));
    if bit_count(&candidate) == 0 {
        Ok(tokens)
    } else {
        Err(HuffmanError::DecodeCorruption)
    }
}

/// Blank lines: a line without tokens is encoded as no bits, and no bits
/// are decoded as a line without tokens, whatever the table.
pub proof fn lemma_blank_line(table: Seq<Code>)
    ensures
        encoded(table, Seq::empty()) == Some(Seq::<bool>::empty()),
        decoded(inverse(table), Seq::empty()) == Some(Seq::<Seq<char>>::empty()),
{
}

/// A decoder that has just emitted a token reads what follows as if it
/// stood at the beginning of a line.
pub proof fn lemma_scanned_concat(table: Seq<Decoding>, head: Seq<bool>, tail: Seq<bool>)
    requires
        scanned(table, head).1.len() == 0,
    ensures
        scanned(table, head + tail) == (
            scanned(table, head).0 + scanned(table, tail).0,
            scanned(table, tail).1,
        ),
    decreases tail.len(),
{
    if tail.len() == 0 {
        assert(head + tail == head);
        assert(scanned(table, head).0 + scanned(table, tail).0 == scanned(table, head).0);
        assert(scanned(table, head).1 == Seq::<bool>::empty());
    } else {
        assert((head + tail).drop_last() == head + tail.drop_last());
        lemma_scanned_concat(table, head, tail.drop_last());
        let (emitted, candidate) = scanned(table, tail.drop_last());
        let longer = candidate.push(tail.last());
        match token_for(table, longer) {
            Some(text) => {
                assert(scanned(table, head).0 + emitted.push(text) == (scanned(table, head).0
                    + emitted).push(text));
            },
            None => {},
        }
    }
}

/// While the decoder reads a code of a prefix-free table, no beginning of
/// the code is taken for a code.
proof fn lemma_scanned_partial(table: Seq<Code>, k: int, n: int)
    requires
        prefix_free(table),
        0 <= k < table.len(),
        0 <= n < table[k].1.len(),
    ensures
        scanned(inverse(table), table[k].1.take(n)) == (
            Seq::<Seq<char>>::empty(),
            table[k].1.take(n),
        ),
    decreases n,
{
    let code = table[k].1;
    reveal(prefix_free);
    if n == 0 {
        assert(code.take(0) =~= Seq::<bool>::empty());
    } else {
        lemma_scanned_partial(table, k, n - 1);
        assert(code.take(n).drop_last() == code.take(n - 1));
        assert(code.take(n - 1).push(code.take(n).last()) == code.take(n));
        if exists|j: int| 0 <= j < inverse(table).len() && inverse(table)[j].0 == code.take(n) {
            let j = choose|j: int|
                0 <= j < inverse(table).len() && inverse(table)[j].0 == code.take(n);
            assert(table[j].1 == code.take(n));
            assert(is_prefix(table[j].1, table[k].1));
        }
    }
}

/// The decoder reads a code of a prefix-free table as the token of that
/// code.
pub proof fn lemma_scanned_code(table: Seq<Code>, k: int)
    requires
        prefix_free(table),
        0 <= k < table.len(),
        table[k].1.len() > 0,
    ensures
        scanned(inverse(table), table[k].1) == (seq![table[k].0], Seq::<bool>::empty()),
{
    let code = table[k].1;
    let pairs = inverse(table);
    reveal(prefix_free);
    lemma_scanned_partial(table, k, code.len() - 1);
    assert(code.drop_last() == code.take(code.len() - 1));
    assert(code.drop_last().push(code.last()) == code);
    assert(pairs[k].0 == code);
    assert forall|j: int| 0 <= j < k implies pairs[j].0 != code by {
        if pairs[j].0 == code {
            assert(code.take(code.len() as int) == code);
            assert(is_prefix(table[j].1, table[k].1));
        }
    }
    lemma_first_with_code(pairs, code, k);
    assert(Seq::<Seq<char>>::empty().push(table[k].0) == seq![table[k].0]);
}

/// Every token of the line has an entry in the table.
#[verifier::opaque]
pub open spec fn covers(table: Seq<Code>, tokens: Seq<Seq<char>>) -> bool {
    forall|n: int| 0 <= n < tokens.len() ==> code_for(table, #[trigger] tokens[n]) is Some
}

/// The line has an encoding, and its bits are decoded as the line.
#[verifier::opaque]
pub open spec fn inverts(table: Seq<Code>, tokens: Seq<Seq<char>>) -> bool {
    encoded(table, tokens) is Some && decoded(inverse(table), encoded(table, tokens)->0) == Some(
        tokens,
    )
}

/// The codec inverts the line without tokens.
proof fn lemma_inverts_empty(table: Seq<Code>)
    ensures
        inverts(table, Seq::empty()),
{
    reveal(inverts);
}

/// The codec inverts a line with one more token if it inverts the line and
/// the token has an entry.
proof fn lemma_inverts_push(table: Seq<Code>, head: Seq<Seq<char>>, text: Seq<char>)
    requires
        prefix_free(table),
        codes_nonempty(table),
        code_for(table, text) is Some,
        inverts(table, head),
    ensures
        inverts(table, head.push(text)),
{
    reveal(inverts);
    lemma_code_for(table, text);
    let k = first_with_text(table, text);
    assert(table[k].1.len() > 0) by {
        reveal(codes_nonempty);
    }
    lemma_line_round_trip_step(table, head, text, k);
}

/// The codec inverts every line that the table covers.
proof fn lemma_inverts(table: Seq<Code>, tokens: Seq<Seq<char>>)
    requires
        prefix_free(table),
        codes_nonempty(table),
        covers(table, tokens),
    ensures
        inverts(table, tokens),
    decreases tokens.len(),
{
    if tokens.len() == 0 {
        assert(tokens =~= Seq::<Seq<char>>::empty());
        lemma_inverts_empty(table);
    } else {
        lemma_covers_last(table, tokens);
        lemma_inverts(table, tokens.drop_last());
        lemma_inverts_push(table, tokens.drop_last(), tokens.last());
        assert(tokens.drop_last().push(tokens.last()) == tokens);
    }
}

/// The line codec inverts itself: with a prefix-free table of non-empty
/// codes, a line whose tokens all have entries is encoded, and its bits are
/// decoded as the same tokens.
pub proof fn lemma_line_round_trip(table: Seq<Code>, tokens: Seq<Seq<char>>)
    requires
        prefix_free(table),
        codes_nonempty(table),
        covers(table, tokens),
    ensures
        encoded(table, tokens) is Some,
        decoded(inverse(table), encoded(table, tokens)->0) == Some(tokens),
{
    lemma_inverts(table, tokens);
    reveal(inverts);
}

/// A table that covers a line covers the line without its last token, and
/// has an entry for that token.
proof fn lemma_covers_last(table: Seq<Code>, tokens: Seq<Seq<char>>)
    requires
        covers(table, tokens),
        tokens.len() > 0,
    ensures
        covers(table, tokens.drop_last()),
        code_for(table, tokens.last()) is Some,
{
    reveal(covers);
    let head = tokens.drop_last();
    assert forall|n: int| 0 <= n < head.len() implies code_for(table, #[trigger] head[n])
        is Some by {
        assert(head[n] == tokens[n]);
    }
    assert(code_for(table, tokens[tokens.len() - 1]) is Some);
}

/// One more token behind a line that the codec inverts gives a line that it
/// inverts.
proof fn lemma_line_round_trip_step(
    table: Seq<Code>,
    head: Seq<Seq<char>>,
    text: Seq<char>,
    k: int,
)
    requires
        prefix_free(table),
        0 <= k < table.len(),
        table[k].0 == text,
        table[k].1.len() > 0,
        code_for(table, text) == Some(table[k].1),
        encoded(table, head) is Some,
        decoded(inverse(table), encoded(table, head)->0) == Some(head),
    ensures
        encoded(table, head.push(text)) == Some(encoded(table, head)->0 + table[k].1),
        decoded(inverse(table), encoded(table, head)->0 + table[k].1) == Some(head.push(text)),
{
    lemma_encoded_push(table, head, text);
    lemma_decoded_push(table, encoded(table, head)->0, head, k);
}

/// The bits of a line with one more token are the bits of the line and the
/// code of the token.
proof fn lemma_encoded_push(table: Seq<Code>, head: Seq<Seq<char>>, text: Seq<char>)
    requires
        code_for(table, text) is Some,
        encoded(table, head) is Some,
    ensures
        encoded(table, head.push(text)) == Some(
            encoded(table, head)->0 + code_for(table, text)->0,
        ),
{
    assert(head.push(text).drop_last() == head);
    assert(head.push(text).last() == text);
}

/// Bits that are decoded as a line, followed by a code of a prefix-free
/// table, are decoded as the line and the token of the code.
proof fn lemma_decoded_push(table: Seq<Code>, front: Seq<bool>, head: Seq<Seq<char>>, k: int)
    requires
        prefix_free(table),
        0 <= k < table.len(),
        table[k].1.len() > 0,
        decoded(inverse(table), front) == Some(head),
    ensures
        decoded(inverse(table), front + table[k].1) == Some(head.push(table[k].0)),
{
    lemma_scanned_code(table, k);
    lemma_scanned_concat(inverse(table), front, table[k].1);
    assert(head + seq![table[k].0] == head.push(table[k].0));
}

} // verus!
