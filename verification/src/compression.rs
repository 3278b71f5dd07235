//! Compressing and extracting a corpus.
//!
//! [`compress_tokens`] and [`extract_tokens`] work on lines that are split
//! into tokens, and on the compressed document; [`compress`] and
//! [`extract`] split and join the lines with functions of the caller's, and
//! write and read the blob.

use crate::bits::{all_canonical, bit_lines, bits};
use crate::blob::{deserialize, document_in, packed, serialize};
use crate::codec::{
    code_length, covers, decode_line, decoded, encode_line, encoded, lemma_line_round_trip,
};
use crate::error::HuffmanError;
use crate::freqs::{
    holds, lemma_occurrences_concat, lemma_tally, letter_lines, occurrences, tally, text_lines,
    total_of, word_lines, Entry, FrequencyMap,
};
use crate::huffman::{huffman_of, huffman_tree, leaf_queue, lemma_enqueued_last, Tree};
use crate::table::{
    code_for, code_table, encoder_to_decoder, inverse, lemma_height, lemma_table_of_map, Code,
    Encoder,
};
use crate::token::{concatenated, lemma_concatenated_letters, spaced, texts, words, Token};
use bit_vec::BitVec;
use vstd::prelude::*;
use vstd::seq_lib::lemma_flatten_concat;

verus! {

/// The outcome of compressing tokenised lines with a frequency map: the
/// code table of the map's Huffman tree and the bits of each line; or why
/// there is none.
pub open spec fn compressed(entries: Seq<Entry>, lines: Seq<Seq<Seq<char>>>) -> Result<
    (Seq<Code>, Seq<Seq<bool>>),
    HuffmanError,
> {
    if entries.len() == 0 {
        Err(HuffmanError::EmptyAlphabet)
    } else {
        let table = code_table(huffman_of(entries));
        if forall|i: int| 0 <= i < lines.len() ==> encoded(table, #[trigger] lines[i]) is Some {
            Ok((table, Seq::new(lines.len(), |i: int| encoded(table, lines[i])->0)))
        } else {
            Err(HuffmanError::TokenNotFound)
        }
    }
}

/// The outcome of extracting the lines of a compressed document: the tokens
/// of each line; or why there are none.
pub open spec fn extracted(table: Seq<Code>, data: Seq<Seq<bool>>) -> Result<
    Seq<Seq<Seq<char>>>,
    HuffmanError,
> {
    if forall|i: int| 0 <= i < data.len() ==> decoded(inverse(table), #[trigger] data[i]) is Some {
        Ok(Seq::new(data.len(), |i: int| decoded(inverse(table), data[i])->0))
    } else {
        Err(HuffmanError::DecodeCorruption)
    }
}

/// A token that stands in a sequence occurs in it.
pub proof fn lemma_occurs(tokens: Seq<Seq<char>>, n: int)
    requires
        0 <= n < tokens.len(),
    ensures
        occurrences(tokens, tokens[n]) > 0,
    decreases tokens.len(),
{
    if n < tokens.len() - 1 {
        lemma_occurs(tokens.drop_last(), n);
    }
}

/// A token of a line occurs in the corpus.
pub proof fn lemma_occurs_in_corpus(lines: Seq<Seq<Seq<char>>>, i: int, n: int)
    requires
        0 <= i < lines.len(),
        0 <= n < lines[i].len(),
    ensures
        occurrences(lines.flatten(), lines[i][n]) > 0,
{
    let text = lines[i][n];
    let before = lines.take(i);
    let after = lines.skip(i + 1);
    assert(lines == before.push(lines[i]) + after);
    lemma_flatten_concat(before.push(lines[i]), after);
    before.lemma_flatten_push(lines[i]);
    lemma_occurrences_concat(before.flatten() + lines[i], after.flatten(), text);
    lemma_occurrences_concat(before.flatten(), lines[i], text);
    lemma_occurs(lines[i], n);
}

/// Round trip: a corpus with at least one token, compressed with its own
/// frequency map, is extracted as the same lines of the same tokens. Lines
/// without tokens are among them.
pub proof fn lemma_round_trip(lines: Seq<Seq<Seq<char>>>)
    requires
        0 < lines.flatten().len() <= u64::MAX,
    ensures
        compressed(tally(lines.flatten()), lines) is Ok,
        extracted(
            compressed(tally(lines.flatten()), lines)->Ok_0.0,
            compressed(tally(lines.flatten()), lines)->Ok_0.1,
        ) == Ok::<Seq<Seq<Seq<char>>>, HuffmanError>(lines),
{
    let corpus = lines.flatten();
    let entries = tally(corpus);
    lemma_tally(corpus);
    lemma_occurs(corpus, 0);
    assert(holds(entries, corpus[0]));
    let table = code_table(huffman_of(entries));
    lemma_table_of_map(entries);
    assert forall|i: int| 0 <= i < lines.len() implies covers(table, #[trigger] lines[i]) by {
        reveal(covers);
        assert forall|n: int| 0 <= n < lines[i].len() implies code_for(
            table,
            #[trigger] lines[i][n],
        ) is Some by {
            lemma_occurs_in_corpus(lines, i, n);
        }
    }
    assert forall|i: int| 0 <= i < lines.len() implies encoded(table, #[trigger] lines[i])
        is Some && decoded(inverse(table), encoded(table, lines[i])->0) == Some(lines[i]) by {
        lemma_line_round_trip(table, lines[i]);
    }
    let data = Seq::new(lines.len(), |i: int| encoded(table, lines[i])->0);
    assert(compressed(entries, lines) == Ok::<(Seq<Code>, Seq<Seq<bool>>), HuffmanError>(
        (table, data),
    ));
    assert forall|i: int| 0 <= i < data.len() implies decoded(inverse(table), #[trigger] data[i])
        == Some(lines[i]) by {}
    assert(Seq::new(data.len(), |i: int| decoded(inverse(table), data[i])->0) =~= lines);
}

/// A compressed document: the code table and the bits of each line, in the
/// order of the lines.
#[derive(Debug, Clone)]
pub struct CompressedData<T> {
    pub encoder: Encoder<T>,
    pub data: Vec<BitVec>,
}

impl<T: Token> CompressedData<T> {
    /// The table and every line are held in canonical vectors.
    pub open spec fn wf(&self) -> bool {
        self.encoder.wf() && all_canonical(self.data@)
    }
}

/// Whether the codes of a line's tokens fit into one bit vector.
pub open spec fn fits(entries: Seq<Entry>, tokens: Seq<Seq<char>>) -> bool {
    entries.len() > 0 ==> code_length(code_table(huffman_of(entries)), tokens) <= usize::MAX
}

/// Compresses lines that are already split into tokens, with the given
/// frequency map.
pub fn compress_tokens<T: Token>(freqs: &FrequencyMap<T>, token_lines: &Vec<Vec<T>>) -> (document:
    Result<CompressedData<T>, HuffmanError>)
    requires
        total_of(freqs@) <= u64::MAX,
        forall|i: int|
            0 <= i < token_lines@.len() ==> fits(freqs@, #[trigger] text_lines(token_lines@)[i]),
    ensures
        match document {
            Ok(found) => compressed(freqs@, text_lines(token_lines@)) == Ok::<
                (Seq<Code>, Seq<Seq<bool>>),
                HuffmanError,
            >((found.encoder@, bit_lines(found.data@))) && found.wf(),
            Err(e) => compressed(freqs@, text_lines(token_lines@)) == Err::<
                (Seq<Code>, Seq<Seq<bool>>),
                HuffmanError,
            >(e),
        },
{
    let ghost lines = text_lines(token_lines@);
    let tree = match huffman_tree(freqs) {
        Ok(tree) => tree,
        Err(e) => {
            return Err(e);
        },
    };
    proof {
        lemma_height(tree@);
        freqs.lemma_len_fits();
    }
    let encoder = tree.to_encoder();
    let mut data: Vec<BitVec> = Vec::new();
    let mut i: usize = 0;
    while i < token_lines.len()
        invariant
            i <= token_lines@.len(),
            lines == text_lines(token_lines@),
            encoder.wf(),
            encoder@ == code_table(huffman_of(freqs@)),
            freqs@.len() > 0,
            forall|k: int| 0 <= k < token_lines@.len() ==> fits(freqs@, #[trigger] lines[k]),
            data@.len() == i,
            all_canonical(data@),
            forall|k: int|
                0 <= k < i ==> encoded(encoder@, #[trigger] lines[k]) == Some(bits(data@[k])),
        decreases token_lines.len() - i,
    {
        assert(fits(freqs@, lines[i as int]));
        assert(lines[i as int] == texts(token_lines@[i as int]@));
        match encode_line(&encoder, &token_lines[i]) {
            Ok(line) => {
                data.push(line);
            },
            Err(e) => {
                assert(encoded(encoder@, lines[i as int]) is None);
                return Err(e);
            },
        }
        i += 1;
    }
    assert(bit_lines(data@) =~= Seq::new(lines.len(), |k: int| encoded(encoder@, lines[k])->0));
    Ok(CompressedData { encoder, data })
}

/// Extracts the lines of a compressed document, each as its tokens.
pub fn extract_tokens<T: Token>(document: &CompressedData<T>) -> (token_lines: Result<
    Vec<Vec<T>>,
    HuffmanError,
>)
    requires
        document.wf(),
    ensures
        match token_lines {
            Ok(found) => extracted(document.encoder@, bit_lines(document.data@)) == Ok::<
                Seq<Seq<Seq<char>>>,
                HuffmanError,
            >(text_lines(found@)),
            Err(e) => extracted(document.encoder@, bit_lines(document.data@)) == Err::<
                Seq<Seq<Seq<char>>>,
                HuffmanError,
            >(e),
        },
{
    let ghost data = bit_lines(document.data@);
    let decoder = encoder_to_decoder(&document.encoder);
    let mut token_lines: Vec<Vec<T>> = Vec::new();
    let mut i: usize = 0;
    while i < document.data.len()
        invariant
            i <= document.data@.len(),
            data == bit_lines(document.data@),
            document.wf(),
            decoder.wf(),
            decoder@ == inverse(document.encoder@),
            token_lines@.len() == i,
            forall|k: int|
                0 <= k < i ==> decoded(decoder@, #[trigger] data[k]) == Some(
                    texts(token_lines@[k]@),
                ),
        decreases document.data.len() - i,
    {
        assert(data[i as int] == bits(document.data@[i as int]));
        match decode_line(&decoder, &document.data[i]) {
            Ok(tokens) => {
                token_lines.push(tokens);
            },
            Err(e) => {
                assert(decoded(decoder@, data[i as int]) is None);
                return Err(e);
            },
        }
        i += 1;
    }
    assert(text_lines(token_lines@) =~= Seq::new(
        data.len(),
        |k: int| decoded(inverse(document.encoder@), data[k])->0,
    ));
    Ok(token_lines)
}

/// What becomes of the outcome of compressing when the document is written
/// into a blob.
pub open spec fn blob_of(outcome: Result<(Seq<Code>, Seq<Seq<bool>>), HuffmanError>) -> Result<
    Seq<u8>,
    HuffmanError,
> {
    match outcome {
        Ok((table, data)) => match packed(table, data) {
            Some(bytes) => Ok(bytes),
            None => Err(HuffmanError::Serialization),
        },
        Err(e) => Err(e),
    }
}

/// The result of compressing, with the blob as a sequence of bytes.
pub open spec fn blob_view(blob: Result<Vec<u8>, HuffmanError>) -> Result<Seq<u8>, HuffmanError> {
    match blob {
        Ok(bytes) => Ok(bytes@),
        Err(e) => Err(e),
    }
}

/// Each of `token_lines` is what `tokenize` returned for the line at its
/// place.
pub open spec fn tokenised_by<T, F: Fn(&String) -> Vec<T>>(
    tokenize: F,
    lines: Seq<String>,
    token_lines: Seq<Vec<T>>,
) -> bool {
    &&& token_lines.len() == lines.len()
    &&& forall|i: int|
        0 <= i < lines.len() ==> call_ensures(tokenize, (&lines[i],), #[trigger] token_lines[i])
}

/// `line` is what `join` returned for tokens with the given texts.
pub open spec fn joined_line<T: Token, F: Fn(Vec<T>) -> String>(
    join: F,
    token_texts: Seq<Seq<char>>,
    line: String,
) -> bool {
    exists|tokens: Vec<T>|
        texts(tokens@) == token_texts && #[trigger] call_ensures(join, (tokens,), line)
}

/// Each of `lines` is what `join` returned for tokens with the texts of the
/// line at its place.
pub open spec fn joined_by<T: Token, F: Fn(Vec<T>) -> String>(
    join: F,
    token_lines: Seq<Seq<Seq<char>>>,
    lines: Seq<String>,
) -> bool {
    &&& lines.len() == token_lines.len()
    &&& forall|i: int|
        0 <= i < lines.len() ==> #[trigger] joined_line::<T, F>(join, token_lines[i], lines[i])
}

/// Compresses a corpus into a blob.
///
/// `get_freqs` gives the frequency map of the corpus and `line_to_tokens`
/// the tokens of a line. The blob holds the code table of the map's Huffman
/// tree and, for each line in order, the codes of its tokens.
pub fn compress<T, FreqsF, TokenExtractor>(
    lines: &Vec<String>,
    get_freqs: FreqsF,
    line_to_tokens: TokenExtractor,
) -> (blob: Result<Vec<u8>, HuffmanError>) where
    T: Token,
    FreqsF: Fn(&Vec<String>) -> FrequencyMap<T>,
    TokenExtractor: Fn(&String) -> Vec<T>,

    requires
        call_requires(get_freqs, (lines,)),
        forall|i: int| 0 <= i < lines@.len() ==> call_requires(line_to_tokens, (&lines@[i],)),
        forall|freqs: FrequencyMap<T>| #[trigger]
            call_ensures(get_freqs, (lines,), freqs) ==> total_of(freqs@) <= u64::MAX,
        forall|freqs: FrequencyMap<T>, i: int, tokens: Vec<T>|
            0 <= i < lines@.len() && #[trigger] call_ensures(get_freqs, (lines,), freqs)
                && #[trigger] call_ensures(line_to_tokens, (&lines@[i],), tokens) ==> fits(
                freqs@,
                texts(tokens@),
            ),
    ensures
        exists|freqs: FrequencyMap<T>, token_lines: Seq<Vec<T>>|
            {
                &&& #[trigger] call_ensures(get_freqs, (lines,), freqs)
                &&& #[trigger] tokenised_by(line_to_tokens, lines@, token_lines)
                &&& blob_view(blob) == blob_of(compressed(freqs@, text_lines(token_lines)))
            },
{
    let freqs = get_freqs(lines);
    let mut token_lines: Vec<Vec<T>> = Vec::new();
    let mut i: usize = 0;
    while i < lines.len()
        invariant
            i <= lines@.len(),
            token_lines@.len() == i,
            forall|k: int| 0 <= k < lines@.len() ==> call_requires(line_to_tokens, (&lines@[k],)),
            forall|k: int|
                0 <= k < i ==> call_ensures(
                    line_to_tokens,
                    (&lines@[k],),
                    #[trigger] token_lines@[k],
                ),
        decreases lines.len() - i,
    {
        let tokens = line_to_tokens(&lines[i]);
        token_lines.push(tokens);
        i += 1;
    }
    assert(tokenised_by(line_to_tokens, lines@, token_lines@));
    assert forall|k: int| 0 <= k < token_lines@.len() implies fits(
        freqs@,
        #[trigger] text_lines(token_lines@)[k],
    ) by {
        assert(call_ensures(line_to_tokens, (&lines@[k],), token_lines@[k]));
    }
    match compress_tokens(&freqs, &token_lines) {
        Ok(document) => serialize(&document),
        Err(e) => Err(e),
    }
}

/// Extracts the corpus from a blob.
///
/// The blob is read as a document with tokens of kind `T`; each line's bits
/// are decoded into tokens, and `tokens_to_line` makes the line of them.
pub fn extract<T, F>(data: &Vec<u8>, tokens_to_line: F) -> (lines: Result<
    Vec<String>,
    HuffmanError,
>) where T: Token, F: Fn(Vec<T>) -> String
    requires
        forall|tokens: Vec<T>| call_requires(tokens_to_line, (tokens,)),
    ensures
        match document_in::<T>(data@) {
            None => lines == Err::<Vec<String>, HuffmanError>(HuffmanError::Serialization),
            Some((table, bits)) => match extracted(table, bits) {
                Err(e) => lines == Err::<Vec<String>, HuffmanError>(e),
                Ok(token_lines) => lines matches Ok(found) && joined_by::<T, F>(
                    tokens_to_line,
                    token_lines,
                    found@,
                ),
            },
        },
{
    let document = match deserialize::<T>(data) {
        Ok(document) => document,
        Err(e) => {
            return Err(e);
        },
    };
    let token_lines = match extract_tokens(&document) {
        Ok(token_lines) => token_lines,
        Err(e) => {
            return Err(e);
        },
    };
    let ghost all = text_lines(token_lines@);
    let mut lines: Vec<String> = Vec::new();
    for tokens in it: token_lines
        invariant
            it.seq().len() == all.len(),
            forall|k: int| 0 <= k < all.len() ==> texts((#[trigger] it.seq()[k])@) == all[k],
            forall|tokens: Vec<T>| call_requires(tokens_to_line, (tokens,)),
            lines@.len() == it.index(),
            forall|k: int|
                0 <= k < it.index() ==> #[trigger] joined_line::<T, F>(
                    tokens_to_line,
                    all[k],
                    lines@[k],
                ),
    {
        let ghost before = lines@;
        let ghost held = tokens;
        let line = tokens_to_line(tokens);
        lines.push(line);
        assert forall|k: int| 0 <= k < it.index() + 1 implies #[trigger] joined_line::<T, F>(
            tokens_to_line,
            all[k],
            lines@[k],
        ) by {
            if k < it.index() {
                assert(lines@[k] == before[k]);
                assert(joined_line::<T, F>(tokens_to_line, all[k], before[k]));
            } else {
                assert(texts(held@) == all[k] && call_ensures(tokens_to_line, (held,), lines@[k]));
            }
        }
    }
    Ok(lines)
}

/// Round trip in character mode: a corpus with at least one character,
/// compressed with the frequency map of its characters, is extracted as
/// lines of tokens that spell the lines of the corpus.
pub proof fn lemma_char_round_trip(lines: Seq<Seq<char>>)
    requires
        0 < letter_lines(lines).flatten().len() <= u64::MAX,
    ensures
        compressed(tally(letter_lines(lines).flatten()), letter_lines(lines)) is Ok,
        extracted(
            compressed(tally(letter_lines(lines).flatten()), letter_lines(lines))->Ok_0.0,
            compressed(tally(letter_lines(lines).flatten()), letter_lines(lines))->Ok_0.1,
        ) == Ok::<Seq<Seq<Seq<char>>>, HuffmanError>(letter_lines(lines)),
        forall|i: int|
            0 <= i < lines.len() ==> concatenated(#[trigger] letter_lines(lines)[i]) == lines[i],
{
    lemma_round_trip(letter_lines(lines));
    assert forall|i: int| 0 <= i < lines.len() implies concatenated(
        #[trigger] letter_lines(lines)[i],
    ) == lines[i] by {
        lemma_concatenated_letters(lines[i]);
    }
}

/// Round trip in word mode: a corpus with at least one word, compressed
/// with the frequency map of its words, is extracted as lines of the same
/// words. Joined with single spaces they are the lines of the corpus where
/// those lines are their words joined with single spaces.
pub proof fn lemma_word_round_trip(lines: Seq<Seq<char>>)
    requires
        0 < word_lines(lines).flatten().len() <= u64::MAX,
        forall|i: int| 0 <= i < lines.len() ==> spaced(words(#[trigger] lines[i])) == lines[i],
    ensures
        compressed(tally(word_lines(lines).flatten()), word_lines(lines)) is Ok,
        extracted(
            compressed(tally(word_lines(lines).flatten()), word_lines(lines))->Ok_0.0,
            compressed(tally(word_lines(lines).flatten()), word_lines(lines))->Ok_0.1,
        ) == Ok::<Seq<Seq<Seq<char>>>, HuffmanError>(word_lines(lines)),
        forall|i: int| 0 <= i < lines.len() ==> spaced(#[trigger] word_lines(lines)[i]) == lines[i],
{
    lemma_round_trip(word_lines(lines));
}

/// A token that differs from every token of a sequence does not occur in
/// it.
proof fn lemma_occurs_not(tokens: Seq<Seq<char>>, text: Seq<char>, other: Seq<char>)
    requires
        forall|n: int| 0 <= n < tokens.len() ==> tokens[n] == text,
        other != text,
    ensures
        occurrences(tokens, other) == 0,
    decreases tokens.len(),
{
    if tokens.len() > 0 {
        assert(tokens[tokens.len() - 1] == text);
        assert forall|n: int| 0 <= n < tokens.drop_last().len() implies tokens.drop_last()[n]
            == text by {
            assert(tokens.drop_last()[n] == tokens[n]);
        }
        lemma_occurs_not(tokens.drop_last(), text, other);
    }
}

/// Where every token of every line is the same, so is every token of the
/// corpus.
proof fn lemma_flatten_same(lines: Seq<Seq<Seq<char>>>, text: Seq<char>)
    requires
        forall|i: int, n: int|
            0 <= i < lines.len() && 0 <= n < lines[i].len() ==> (#[trigger] lines[i][n]) == text,
    ensures
        forall|m: int| 0 <= m < lines.flatten().len() ==> (#[trigger] lines.flatten()[m]) == text,
    decreases lines.len(),
{
    if lines.len() > 0 {
        let head = lines.drop_last();
        assert forall|i: int, n: int| 0 <= i < head.len() && 0 <= n < head[i].len() implies (
        #[trigger] head[i][n]) == text by {
            assert(head[i] == lines[i]);
        }
        lemma_flatten_same(head, text);
        assert(lines == head.push(lines.last()));
        head.lemma_flatten_push(lines.last());
        assert forall|m: int| 0 <= m < lines.flatten().len() implies (#[trigger] lines.flatten()[m])
            == text by {
            if m >= head.flatten().len() {
                assert(lines.flatten()[m] == lines[lines.len() - 1][m - head.flatten().len()]);
            } else {
                assert(lines.flatten()[m] == head.flatten()[m]);
            }
        }
    }
}

/// Degenerate alphabet: a corpus with a single distinct token gets the code
/// table that gives this token the one-bit code 0, and is extracted as the
/// same lines.
pub proof fn lemma_single_token_round_trip(lines: Seq<Seq<Seq<char>>>, text: Seq<char>)
    requires
        0 < lines.flatten().len() <= u64::MAX,
        forall|i: int, n: int|
            0 <= i < lines.len() && 0 <= n < lines[i].len() ==> (#[trigger] lines[i][n]) == text,
    ensures
        compressed(tally(lines.flatten()), lines) is Ok,
        compressed(tally(lines.flatten()), lines)->Ok_0.0 == seq![(text, seq![false])],
        extracted(
            compressed(tally(lines.flatten()), lines)->Ok_0.0,
            compressed(tally(lines.flatten()), lines)->Ok_0.1,
        ) == Ok::<Seq<Seq<Seq<char>>>, HuffmanError>(lines),
{
    let corpus = lines.flatten();
    let entries = tally(corpus);
    lemma_round_trip(lines);
    lemma_tally(corpus);
    lemma_flatten_same(lines, text);
    lemma_occurs(corpus, 0);
    assert(holds(entries, corpus[0]));
    assert forall|j: int| 0 <= j < entries.len() implies (#[trigger] entries[j]).0 == text by {
        assert(holds(entries, entries[j].0));
        if entries[j].0 != text {
            lemma_occurs_not(corpus, text, entries[j].0);
        }
    }
    assert(entries.len() == 1) by {
        if entries.len() >= 2 {
            assert(entries[0].0 != entries[1].0);
        }
    }
    let leaf = Tree::Leaf { freq: entries[0].1, token: text };
    assert(entries.drop_last() =~= Seq::<Entry>::empty());
    assert(entries.last() == entries[0]);
    assert(leaf_queue(entries.drop_last()) =~= Seq::<Tree<Seq<char>>>::empty());
    lemma_enqueued_last(leaf_queue(entries.drop_last()), leaf);
    assert(leaf_queue(entries) =~= seq![leaf]);
    assert(huffman_of(entries) == leaf);
}

} // verus!
