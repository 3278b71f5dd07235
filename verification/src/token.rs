//! The alphabet: what a token is, and the two tokenisations of a line.

use crate::index::{hash_of, mix_char, mixed, SEED};
use vstd::prelude::*;
use vstd::string::*;

verus! {

/// An atomic unit of the alphabet being compressed.
///
/// Two tokens are the same unit exactly when their texts are equal; the text
/// is also the form in which a token is written into a blob.
pub trait Token: Sized {
    /// The characters that identify the token.
    spec fn text(&self) -> Seq<char>;

    /// Whether `self` and `other` are the same unit of the alphabet.
    fn same_as(&self, other: &Self) -> (same: bool)
        ensures
            same == (self.text() == other.text()),
    ;

    /// A copy of the token.
    fn duplicate(&self) -> (copy: Self)
        ensures
            copy == *self,
    ;

    /// The hash code of the token's text.
    fn hash_code(&self) -> (hash: u64)
        ensures
            hash == hash_of(self.text()),
    ;

    /// Whether `text` is the text of a token of this kind.
    spec fn is_text(text: Seq<char>) -> bool;

    /// The token's text, as it is written into a blob.
    fn to_text(&self) -> (text: String)
        ensures
            text@ == self.text(),
            Self::is_text(text@),
    ;

    /// The token with the given text, if there is one of this kind.
    fn from_text(text: &String) -> (token: Option<Self>)
        ensures
            token is Some == Self::is_text(text@),
            token matches Some(found) ==> found.text() == text@,
    ;
}

impl Token for char {
    open spec fn text(&self) -> Seq<char> {
        seq![*self]
    }

    fn same_as(&self, other: &Self) -> (same: bool) {
        proof {
            assert(seq![*self][0] == *self);
            assert(seq![*other][0] == *other);
        }
        *self == *other
    }

    fn duplicate(&self) -> (copy: Self) {
        *self
    }

    fn hash_code(&self) -> (hash: u64) {
        proof {
            let text = seq![*self];
            assert(text.drop_last() =~= Seq::<char>::empty());
            assert(text.last() == *self);
            assert(hash_of(text.drop_last()) == SEED);
            assert(hash_of(text) == mixed(hash_of(text.drop_last()), text.last() as u64));
        }
        mix_char(SEED, *self)
    }

    /// A character's text is a single character.
    open spec fn is_text(text: Seq<char>) -> bool {
        text.len() == 1
    }

    fn to_text(&self) -> (text: String) {
        let mut text = String::new();
        push_char(&mut text, *self);
        assert(text@ =~= seq![*self]);
        text
    }

    fn from_text(text: &String) -> (token: Option<Self>) {
        let letters = characters(text);
        if letters.len() == 1 {
            assert(seq![letters@[0]] =~= text@);
            Some(letters[0])
        } else {
            None
        }
    }
}

impl Token for String {
    open spec fn text(&self) -> Seq<char> {
        self@
    }

    fn same_as(&self, other: &Self) -> (same: bool) {
        *self == *other
    }

    fn duplicate(&self) -> (copy: Self) {
        self.clone()
    }

    fn hash_code(&self) -> (hash: u64) {
        let mut hash = SEED;
        for c in it: self.as_str().chars()
            invariant
                it.seq() == self@,
                hash == hash_of(it.seq().take(it.index())),
        {
            assert(it.seq().take(it.index() + 1).drop_last() == it.seq().take(it.index()));
            hash = mix_char(hash, c);
        }
        assert(self@.take(self@.len() as int) == self@);
        hash
    }

    /// Every text is a word's text.
    open spec fn is_text(text: Seq<char>) -> bool {
        true
    }

    fn to_text(&self) -> (text: String) {
        self.clone()
    }

    fn from_text(text: &String) -> (token: Option<Self>) {
        Some(text.clone())
    }
}

/// The texts of a sequence of tokens, one for one.
pub open spec fn texts<T: Token>(tokens: Seq<T>) -> Seq<Seq<char>> {
    Seq::new(tokens.len(), |i: int| tokens[i].text())
}

/// The characters that separate words: space, tab, line feed, form feed and
/// carriage return.
pub open spec fn is_space(c: char) -> bool {
    c == ' ' || c == '\t' || c == '\n' || c == '\x0C' || c == '\r'
}

/// The words of a line: its maximal runs of characters that are no
/// separators, first to last.
pub open spec fn words(line: Seq<char>) -> Seq<Seq<char>>
    decreases line.len(),
{
    if line.len() == 0 {
        Seq::empty()
    } else if is_space(line.last()) {
        words(line.drop_last())
    } else if line.len() >= 2 && !is_space(line[line.len() - 2]) {
        let before = words(line.drop_last());
        before.drop_last().push(before.last().push(line.last()))
    } else {
        words(line.drop_last()).push(seq![line.last()])
    }
}

/// The tokens of a line in character mode: each character by itself.
pub open spec fn letters(line: Seq<char>) -> Seq<Seq<char>> {
    Seq::new(line.len(), |i: int| seq![line[i]])
}

/// The texts one behind the other, with nothing between them.
pub open spec fn concatenated(parts: Seq<Seq<char>>) -> Seq<char>
    decreases parts.len(),
{
    if parts.len() == 0 {
        Seq::empty()
    } else {
        concatenated(parts.drop_last()) + parts.last()
    }
}

/// The texts one behind the other, with one space between neighbours.
pub open spec fn spaced(parts: Seq<Seq<char>>) -> Seq<char>
    decreases parts.len(),
{
    if parts.len() == 0 {
        Seq::empty()
    } else if parts.len() == 1 {
        parts[0]
    } else {
        spaced(parts.drop_last()) + seq![' '] + parts.last()
    }
}

/// A word as [`words`] yields it: not empty, and free of separators.
pub open spec fn is_word(text: Seq<char>) -> bool {
    text.len() > 0 && forall|i: int| 0 <= i < text.len() ==> !is_space(text[i])
}

/// Whether `c` separates words.
pub fn separates(c: char) -> (space: bool)
    ensures
        space == is_space(c),
{
    c == ' ' || c == '\t' || c == '\n' || c == '\x0C' || c == '\r'
}

/// `String::push`: appends one character to the end of the string.
#[verifier::external_body]
fn push_char(s: &mut String, c: char)
    ensures
        final(s)@ == old(s)@.push(c),
{
    s.push(c)
}

/// The characters of a string, in order.
fn characters(line: &String) -> (found: Vec<char>)
    ensures
        found@ == line@,
{
    let mut found: Vec<char> = Vec::new();
    for c in it: line.as_str().chars()
        invariant
            it.seq() == line@,
            found@ == it.seq().take(it.index()),
    {
        found.push(c);
        assert(it.seq().take(it.index() + 1) == it.seq().take(it.index()).push(c));
    }
    assert(found@ == line@);
    found
}

/// The characters of a line, in order.
pub fn chars_of(line: &String) -> (tokens: Vec<char>)
    ensures
        tokens@ == line@,
        texts(tokens@) == letters(line@),
{
    let tokens = characters(line);
    assert(texts(tokens@) =~= letters(line@));
    tokens
}

/// The words of a line, in order.
pub fn words_of(line: &String) -> (tokens: Vec<String>)
    ensures
        texts(tokens@) == words(line@),
{
    let mut tokens: Vec<String> = Vec::new();
    let mut current = String::new();
    for c in it: line.as_str().chars()
        invariant
            it.seq() == line@,
            current@.len() == 0 ==> texts(tokens@) == words(line@.take(it.index())),
            current@.len() == 0 && it.index() > 0 ==> is_space(line@[it.index() - 1]),
            current@.len() > 0 ==> texts(tokens@).push(current@) == words(
                line@.take(it.index()),
            ),
            current@.len() > 0 ==> it.index() > 0 && !is_space(line@[it.index() - 1]),
    {
        let ghost seen = line@.take(it.index());
        let ghost next = line@.take(it.index() + 1);
        assert(next.drop_last() == seen);
        assert(next.last() == c);
        if separates(c) {
            if current.as_str().unicode_len() > 0 {
                let ghost done = texts(tokens@);
                tokens.push(current);
                assert(texts(tokens@) =~= done.push(current@));
                current = String::new();
            }
        } else {
            let ghost before = words(seen);
            let ghost word = current@;
            push_char(&mut current, c);
            proof {
                if word.len() > 0 {
                    assert(seen.len() >= 1);
                    assert(next[next.len() - 2] == seen[seen.len() - 1]);
                    assert(before.drop_last() == texts(tokens@));
                    assert(before.last() == word);
                } else {
                    assert(word =~= Seq::<char>::empty());
                    assert(current@ =~= seq![c]);
                    if next.len() >= 2 {
                        assert(next[next.len() - 2] == seen[seen.len() - 1]);
                    }
                }
            }
        }
    }
    assert(line@.take(line@.len() as int) == line@);
    if current.as_str().unicode_len() > 0 {
        let ghost done = texts(tokens@);
        tokens.push(current);
        assert(texts(tokens@) =~= done.push(current@));
    }
    tokens
}

/// The line that the characters spell.
pub fn join_chars(tokens: Vec<char>) -> (line: String)
    ensures
        line@ == tokens@,
        line@ == concatenated(texts(tokens@)),
{
    let mut line = String::new();
    let mut i: usize = 0;
    while i < tokens.len()
        invariant
            i <= tokens@.len(),
            line@ == tokens@.take(i as int),
        decreases tokens.len() - i,
    {
        push_char(&mut line, tokens[i]);
        assert(tokens@.take(i + 1) == tokens@.take(i as int).push(tokens@[i as int]));
        i += 1;
    }
    assert(tokens@.take(i as int) == tokens@);
    proof {
        lemma_concatenated_letters(tokens@);
        assert(texts(tokens@) =~= letters(tokens@));
    }
    line
}

/// The line that the words make with one space between neighbours.
pub fn join_words(tokens: Vec<String>) -> (line: String)
    ensures
        line@ == spaced(texts(tokens@)),
{
    let mut line = String::new();
    let mut i: usize = 0;
    while i < tokens.len()
        invariant
            i <= tokens@.len(),
            line@ == spaced(texts(tokens@).take(i as int)),
        decreases tokens.len() - i,
    {
        let ghost done = texts(tokens@).take(i as int);
        let ghost more = texts(tokens@).take(i + 1);
        assert(more.drop_last() == done);
        assert(more.last() == tokens@[i as int]@);
        if i > 0 {
            push_char(&mut line, ' ');
            assert(line@ == spaced(done) + seq![' ']);
        } else {
            assert(line@ =~= Seq::<char>::empty());
        }
        line.append(tokens[i].as_str());
        assert(line@ =~= spaced(more));
        i += 1;
    }
    assert(texts(tokens@).take(i as int) == texts(tokens@));
    line
}

/// Spelling a line out of its characters gives the line back.
pub proof fn lemma_concatenated_letters(line: Seq<char>)
    ensures
        concatenated(letters(line)) == line,
    decreases line.len(),
{
    if line.len() == 0 {
        assert(letters(line) =~= Seq::<Seq<char>>::empty());
    } else {
        lemma_concatenated_letters(line.drop_last());
        assert(letters(line).drop_last() =~= letters(line.drop_last()));
        assert(letters(line).last() == seq![line.last()]);
        assert(line.drop_last() + seq![line.last()] =~= line);
    }
}

/// Splitting a word gives that one word.
pub proof fn lemma_words_of_word(word: Seq<char>)
    requires
        is_word(word),
    ensures
        words(word) == seq![word],
    decreases word.len(),
{
    if word.len() == 1 {
        assert(words(word.drop_last()) =~= Seq::<Seq<char>>::empty());
        assert(seq![word.last()] =~= word);
        assert(Seq::<Seq<char>>::empty().push(word) =~= seq![word]);
    } else {
        let shorter = word.drop_last();
        assert(is_word(shorter));
        lemma_words_of_word(shorter);
        assert(seq![shorter].drop_last().push(seq![shorter].last().push(word.last())) =~= seq![
            word,
        ]) by {
            assert(shorter.push(word.last()) =~= word);
        }
    }
}

/// Appending a word to a line that ends in a separator, or is empty, appends
/// it to the line's words.
pub proof fn lemma_words_append(line: Seq<char>, word: Seq<char>)
    requires
        is_word(word),
        line.len() > 0 ==> is_space(line.last()),
    ensures
        words(line + word) == words(line).push(word),
    decreases word.len(),
{
    let whole = line + word;
    assert(whole.last() == word.last());
    if word.len() == 1 {
        assert(whole.drop_last() =~= line);
        assert(seq![word.last()] =~= word);
        if whole.len() >= 2 {
            assert(whole[whole.len() - 2] == line.last());
        }
    } else {
        let shorter = word.drop_last();
        assert(is_word(shorter));
        lemma_words_append(line, shorter);
        assert(whole.drop_last() =~= line + shorter);
        assert(whole[whole.len() - 2] == shorter.last());
        let before = words(line).push(shorter);
        assert(before.drop_last() =~= words(line));
        assert(shorter.push(word.last()) =~= word);
    }
}

/// Splitting undoes joining: a line made of words with one space between
/// neighbours splits into those words.
pub proof fn lemma_words_of_spaced(parts: Seq<Seq<char>>)
    requires
        forall|i: int| 0 <= i < parts.len() ==> is_word(#[trigger] parts[i]),
    ensures
        words(spaced(parts)) == parts,
    decreases parts.len(),
{
    if parts.len() == 0 {
    } else if parts.len() == 1 {
        lemma_words_of_word(parts[0]);
        assert(seq![parts[0]] =~= parts);
    } else {
        let head = parts.drop_last();
        lemma_words_of_spaced(head);
        let gap = spaced(head) + seq![' '];
        assert(gap.drop_last() =~= spaced(head));
        assert(words(gap) == words(spaced(head)));
        lemma_words_append(gap, parts.last());
        assert(head.push(parts.last()) =~= parts);
    }
}

} // verus!
