//! Counting how often each token occurs.
//!
//! A frequency map is modelled as the sequence of its entries, a token's text
//! with its count, in the order in which the tokens were first seen. That
//! order is what later breaks ties between equal weights, so it is part of the
//! model; [`as_map`] forgets it.

use crate::index::{hash_of, Index};
use crate::token::{chars_of, letters, texts, words, words_of, Token};
use vstd::seq_lib::{lemma_flatten_concat, lemma_fold_left_permutation};
use vstd::prelude::*;

verus! {

/// One entry of a frequency map: a token's text and how often it occurs.
pub type Entry = (Seq<char>, u64);

/// Whether some entry is for `text`.
pub open spec fn holds(entries: Seq<Entry>, text: Seq<char>) -> bool {
    exists|i: int| 0 <= i < entries.len() && entries[i].0 == text
}

/// The index of an entry for `text`, where there is one.
pub open spec fn index_of(entries: Seq<Entry>, text: Seq<char>) -> int {
    choose|i: int| 0 <= i < entries.len() && entries[i].0 == text
}

/// The count recorded for `text`; zero where it has no entry.
pub open spec fn count_of(entries: Seq<Entry>, text: Seq<char>) -> nat {
    if holds(entries, text) {
        entries[index_of(entries, text)].1 as nat
    } else {
        0
    }
}

/// No two entries are for the same token.
pub open spec fn distinct(entries: Seq<Entry>) -> bool {
    forall|i: int, j: int| 0 <= i < j < entries.len() ==> entries[i].0 != entries[j].0
}

/// The sum of all counts.
pub open spec fn total_of(entries: Seq<Entry>) -> nat
    decreases entries.len(),
{
    if entries.len() == 0 {
        0
    } else {
        total_of(entries.drop_last()) + entries.last().1 as nat
    }
}

/// The entries as a mapping from token to count, their order forgotten.
pub open spec fn as_map(entries: Seq<Entry>) -> Map<Seq<char>, nat> {
    Map::new(|text: Seq<char>| holds(entries, text), |text: Seq<char>| count_of(entries, text))
}

/// The entries after `n` more occurrences of `text`: its count grows in
/// place, or a new entry is appended behind all others.
pub open spec fn credited(entries: Seq<Entry>, text: Seq<char>, n: nat) -> Seq<Entry> {
    if holds(entries, text) {
        let i = index_of(entries, text);
        entries.update(i, (text, (entries[i].1 + n) as u64))
    } else {
        entries.push((text, n as u64))
    }
}

/// The entries after `text` was set to `count`, whatever it was before.
pub open spec fn assigned(entries: Seq<Entry>, text: Seq<char>, count: u64) -> Seq<Entry> {
    if holds(entries, text) {
        entries.update(index_of(entries, text), (text, count))
    } else {
        entries.push((text, count))
    }
}

/// The frequency map of a sequence of tokens, counted one by one from the
/// first to the last.
pub open spec fn tally(tokens: Seq<Seq<char>>) -> Seq<Entry>
    decreases tokens.len(),
{
    if tokens.len() == 0 {
        Seq::empty()
    } else {
        credited(tally(tokens.drop_last()), tokens.last(), 1)
    }
}

/// The entries of `base` after all of `extra` was added to it, entry by entry.
pub open spec fn merged(base: Seq<Entry>, extra: Seq<Entry>) -> Seq<Entry>
    decreases extra.len(),
{
    if extra.len() == 0 {
        base
    } else {
        credited(merged(base, extra.drop_last()), extra.last().0, extra.last().1 as nat)
    }
}

/// How many of `tokens` are `text`.
pub open spec fn occurrences(tokens: Seq<Seq<char>>, text: Seq<char>) -> nat
    decreases tokens.len(),
{
    if tokens.len() == 0 {
        0
    } else {
        occurrences(tokens.drop_last(), text) + if tokens.last() == text {
            1nat
        } else {
            0nat
        }
    }
}

/// In a map without repeated tokens, the entry at `i` is the one that lookups
/// of its token find.
pub proof fn lemma_index_of_entry(entries: Seq<Entry>, i: int)
    requires
        distinct(entries),
        0 <= i < entries.len(),
    ensures
        holds(entries, entries[i].0),
        index_of(entries, entries[i].0) == i,
        count_of(entries, entries[i].0) == entries[i].1,
{
    let j = index_of(entries, entries[i].0);
    assert(0 <= j < entries.len() && entries[j].0 == entries[i].0);
    if j < i {
        assert(entries[j].0 != entries[i].0);
    } else if i < j {
        assert(entries[i].0 != entries[j].0);
    }
}

/// What crediting does to the lookups: the credited token gains `n`, every
/// other token keeps its count, and no token is entered twice.
pub proof fn lemma_credited(entries: Seq<Entry>, text: Seq<char>, n: nat)
    requires
        distinct(entries),
        count_of(entries, text) + n <= u64::MAX,
    ensures
        distinct(credited(entries, text, n)),
        holds(credited(entries, text, n), text),
        count_of(credited(entries, text, n), text) == count_of(entries, text) + n,
        forall|other: Seq<char>|
            other != text ==> holds(credited(entries, text, n), other) == holds(entries, other),
        forall|other: Seq<char>|
            other != text ==> count_of(credited(entries, text, n), other) == count_of(
                entries,
                other,
            ),
        total_of(credited(entries, text, n)) == total_of(entries) + n,
{
    let after = credited(entries, text, n);
    if holds(entries, text) {
        let i = index_of(entries, text);
        lemma_index_of_entry(entries, i);
        assert(after[i].0 == text);
        assert(after.len() == entries.len());
        assert forall|a: int, b: int| 0 <= a < b < after.len() implies after[a].0 != after[b].0 by {
            assert(entries[a].0 != entries[b].0);
        }
        lemma_index_of_entry(after, i);
        assert forall|other: Seq<char>| other != text implies holds(after, other) == holds(
            entries,
            other,
        ) && count_of(after, other) == count_of(entries, other) by {
            if holds(entries, other) {
                let j = index_of(entries, other);
                assert(after[j] == entries[j]);
                lemma_index_of_entry(entries, j);
                lemma_index_of_entry(after, j);
            }
            if holds(after, other) {
                let j = index_of(after, other);
                assert(after[j] == entries[j]);
                lemma_index_of_entry(entries, j);
                lemma_index_of_entry(after, j);
            }
        }
        lemma_total_update(entries, i, (text, (entries[i].1 + n) as u64));
    } else {
        let last = entries.len() as int;
        assert(after[last].0 == text);
        assert forall|a: int, b: int| 0 <= a < b < after.len() implies after[a].0 != after[b].0 by {
            if b == last {
                assert(entries[a].0 != text);
            } else {
                assert(entries[a].0 != entries[b].0);
            }
        }
        lemma_index_of_entry(after, last);
        assert forall|other: Seq<char>| other != text implies holds(after, other) == holds(
            entries,
            other,
        ) && count_of(after, other) == count_of(entries, other) by {
            if holds(entries, other) {
                let j = index_of(entries, other);
                assert(after[j] == entries[j]);
                lemma_index_of_entry(entries, j);
                lemma_index_of_entry(after, j);
            }
            if holds(after, other) {
                let j = index_of(after, other);
                assert(j != last);
                assert(after[j] == entries[j]);
                lemma_index_of_entry(entries, j);
                lemma_index_of_entry(after, j);
            }
        }
        assert(after.drop_last() == entries);
    }
}

/// Replacing the entry at `i` changes the total by the difference of the two
/// counts.
pub proof fn lemma_total_update(entries: Seq<Entry>, i: int, entry: Entry)
    requires
        0 <= i < entries.len(),
    ensures
        total_of(entries.update(i, entry)) == total_of(entries) - entries[i].1 + entry.1,
    decreases entries.len(),
{
    let after = entries.update(i, entry);
    if i == entries.len() - 1 {
        assert(after.drop_last() == entries.drop_last());
    } else {
        lemma_total_update(entries.drop_last(), i, entry);
        assert(after.drop_last() == entries.drop_last().update(i, entry));
    }
}

/// No count is larger than the total.
pub proof fn lemma_count_within_total(entries: Seq<Entry>, text: Seq<char>)
    ensures
        count_of(entries, text) <= total_of(entries),
    decreases entries.len(),
{
    if holds(entries, text) {
        let i = index_of(entries, text);
        lemma_entry_within_total(entries, i);
    }
}

/// No entry's count is larger than the total.
pub proof fn lemma_entry_within_total(entries: Seq<Entry>, i: int)
    requires
        0 <= i < entries.len(),
    ensures
        entries[i].1 <= total_of(entries),
    decreases entries.len(),
{
    if i < entries.len() - 1 {
        lemma_entry_within_total(entries.drop_last(), i);
    }
}

/// A tally enters no token twice, holds exactly the tokens that occur, counts
/// each as often as it occurs, and its counts add up to the number of tokens.
pub proof fn lemma_tally(tokens: Seq<Seq<char>>)
    requires
        tokens.len() <= u64::MAX,
    ensures
        distinct(tally(tokens)),
        total_of(tally(tokens)) == tokens.len(),
        forall|text: Seq<char>| holds(tally(tokens), text) == (occurrences(tokens, text) > 0),
        forall|text: Seq<char>| count_of(tally(tokens), text) == occurrences(tokens, text),
    decreases tokens.len(),
{
    if tokens.len() > 0 {
        let before = tally(tokens.drop_last());
        let text = tokens.last();
        lemma_tally(tokens.drop_last());
        lemma_count_within_total(before, text);
        lemma_credited(before, text, 1);
        assert forall|other: Seq<char>| holds(tally(tokens), other) == (occurrences(tokens, other)
            > 0) && count_of(tally(tokens), other) == occurrences(tokens, other) by {
            if other != text {
                assert(holds(tally(tokens), other) == holds(before, other));
                assert(count_of(tally(tokens), other) == count_of(before, other));
            }
        }
    }
}

/// Occurrences add up over concatenation.
pub proof fn lemma_occurrences_concat(a: Seq<Seq<char>>, b: Seq<Seq<char>>, text: Seq<char>)
    ensures
        occurrences(a + b, text) == occurrences(a, text) + occurrences(b, text),
    decreases b.len(),
{
    if b.len() == 0 {
        assert(a + b == a);
    } else {
        assert((a + b).drop_last() == a + b.drop_last());
        lemma_occurrences_concat(a, b.drop_last(), text);
    }
}

/// Occurrences are those of the multiset: the order of the tokens has no
/// part in them.
pub proof fn lemma_occurrences_multiset(tokens: Seq<Seq<char>>, text: Seq<char>)
    ensures
        occurrences(tokens, text) == tokens.to_multiset().count(text),
    decreases tokens.len(),
{
    broadcast use vstd::seq_lib::group_to_multiset_ensures;

    if tokens.len() == 0 {
    } else {
        lemma_occurrences_multiset(tokens.drop_last(), text);
        assert(tokens == tokens.drop_last().push(tokens.last()));
    }
}

/// Order-independence of counting: two token sequences that are
/// rearrangements of one another have the same frequency map.
pub proof fn lemma_tally_order_independent(first: Seq<Seq<char>>, second: Seq<Seq<char>>)
    requires
        first.to_multiset() == second.to_multiset(),
        first.len() <= u64::MAX,
    ensures
        as_map(tally(first)) == as_map(tally(second)),
{
    broadcast use vstd::seq_lib::group_to_multiset_ensures;

    assert(first.len() == second.len()) by {
        assert(first.to_multiset().len() == first.len());
        assert(second.to_multiset().len() == second.len());
    }
    lemma_tally(first);
    lemma_tally(second);
    assert forall|text: Seq<char>| holds(tally(first), text) == holds(tally(second), text)
        && count_of(tally(first), text) == count_of(tally(second), text) by {
        lemma_occurrences_multiset(first, text);
        lemma_occurrences_multiset(second, text);
    }
    assert(as_map(tally(first)) =~= as_map(tally(second)));
}

/// The total of the first `n + 1` entries is that of the first `n` and the
/// count of the entry at `n`; no prefix weighs more than the whole.
pub proof fn lemma_total_take(entries: Seq<Entry>, n: int)
    requires
        0 <= n < entries.len(),
    ensures
        total_of(entries.take(n + 1)) == total_of(entries.take(n)) + entries[n].1,
        total_of(entries.take(n + 1)) <= total_of(entries),
    decreases entries.len() - n,
{
    assert(entries.take(n + 1).drop_last() == entries.take(n));
    if n + 1 < entries.len() {
        lemma_total_take(entries, n + 1);
    } else {
        assert(entries.take(n + 1) == entries);
    }
}

/// Merging keeps tokens apart and adds the totals up.
pub proof fn lemma_merged(base: Seq<Entry>, extra: Seq<Entry>)
    requires
        distinct(base),
        total_of(base) + total_of(extra) <= u64::MAX,
    ensures
        distinct(merged(base, extra)),
        total_of(merged(base, extra)) == total_of(base) + total_of(extra),
        forall|text: Seq<char>|
            holds(merged(base, extra), text) == (holds(base, text) || holds(extra, text)),
    decreases extra.len(),
{
    if extra.len() > 0 {
        let before = merged(base, extra.drop_last());
        let last = extra.last();
        lemma_merged(base, extra.drop_last());
        lemma_count_within_total(before, last.0);
        lemma_credited(before, last.0, last.1 as nat);
        assert forall|text: Seq<char>| holds(merged(base, extra), text) == (holds(base, text)
            || holds(extra, text)) by {
            if holds(extra, text) {
                let j = index_of(extra, text);
                if j < extra.len() - 1 {
                    assert(extra.drop_last()[j].0 == text);
                }
            }
            if holds(extra.drop_last(), text) {
                let j = index_of(extra.drop_last(), text);
                assert(extra[j].0 == text);
            }
            if text == last.0 {
                assert(extra[extra.len() - 1].0 == text);
            }
        }
    }
}

/// Merging adds the counts up token by token.
pub proof fn lemma_merged_counts(base: Seq<Entry>, extra: Seq<Entry>, text: Seq<char>)
    requires
        distinct(base),
        distinct(extra),
        total_of(base) + total_of(extra) <= u64::MAX,
    ensures
        count_of(merged(base, extra), text) == count_of(base, text) + count_of(extra, text),
    decreases extra.len(),
{
    if extra.len() > 0 {
        let shorter = extra.drop_last();
        let before = merged(base, shorter);
        let last = extra.last();
        assert(distinct(shorter)) by {
            assert forall|i: int, j: int| 0 <= i < j < shorter.len() implies shorter[i].0
                != shorter[j].0 by {
                assert(extra[i].0 != extra[j].0);
            }
        }
        lemma_merged(base, shorter);
        lemma_merged_counts(base, shorter, text);
        lemma_count_within_total(before, last.0);
        lemma_credited(before, last.0, last.1 as nat);
        lemma_merged_counts(base, shorter, last.0);
        lemma_index_of_entry(extra, extra.len() - 1);
        if text == last.0 {
            if holds(shorter, text) {
                let j = index_of(shorter, text);
                assert(extra[j].0 != extra[extra.len() - 1].0);
            }
        } else {
            if holds(extra, text) {
                let j = index_of(extra, text);
                assert(shorter[j] == extra[j]);
                lemma_index_of_entry(extra, j);
                lemma_index_of_entry(shorter, j);
            }
            if holds(shorter, text) {
                let j = index_of(shorter, text);
                assert(shorter[j] == extra[j]);
                lemma_index_of_entry(extra, j);
                lemma_index_of_entry(shorter, j);
            }
        }
    }
}

/// Counting in chunks: the tallies of two parts of a corpus, merged, map
/// every token to the count that one pass over the whole corpus gives it.
pub proof fn lemma_chunked_counting(first: Seq<Seq<char>>, second: Seq<Seq<char>>)
    requires
        first.len() + second.len() <= u64::MAX,
    ensures
        as_map(merged(tally(first), tally(second))) == as_map(tally(first + second)),
{
    lemma_tally(first);
    lemma_tally(second);
    lemma_tally(first + second);
    lemma_merged(tally(first), tally(second));
    assert forall|text: Seq<char>|
        holds(merged(tally(first), tally(second)), text) == holds(tally(first + second), text)
            && count_of(merged(tally(first), tally(second)), text) == count_of(
            tally(first + second),
            text,
        ) by {
        lemma_occurrences_concat(first, second, text);
        lemma_merged_counts(tally(first), tally(second), text);
    }
    assert(as_map(merged(tally(first), tally(second))) =~= as_map(tally(first + second)));
}

/// The lines of a corpus, each split into its tokens by `tokenize`.
pub open spec fn split_lines(
    lines: Seq<Seq<char>>,
    tokenize: spec_fn(Seq<char>) -> Seq<Seq<char>>,
) -> Seq<Seq<Seq<char>>> {
    Seq::new(lines.len(), |i: int| tokenize(lines[i]))
}

/// Adds the occurrences of `text` in one line to a running sum.
pub open spec fn add_occurrences(
    tokenize: spec_fn(Seq<char>) -> Seq<Seq<char>>,
    text: Seq<char>,
) -> spec_fn(nat, Seq<char>) -> nat {
    |sum: nat, line: Seq<char>| sum + occurrences(tokenize(line), text)
}

/// Adds the number of tokens of one line to a running sum.
pub open spec fn add_length(tokenize: spec_fn(Seq<char>) -> Seq<Seq<char>>) -> spec_fn(
    nat,
    Seq<char>,
) -> nat {
    |sum: nat, line: Seq<char>| sum + tokenize(line).len()
}

/// The occurrences of a token in a corpus are the sum of its occurrences in
/// the lines, and the corpus has as many tokens as its lines together.
pub proof fn lemma_occurrences_by_line(
    lines: Seq<Seq<char>>,
    tokenize: spec_fn(Seq<char>) -> Seq<Seq<char>>,
    text: Seq<char>,
)
    ensures
        occurrences(split_lines(lines, tokenize).flatten(), text) == lines.fold_left(
            0nat,
            add_occurrences(tokenize, text),
        ),
        split_lines(lines, tokenize).flatten().len() == lines.fold_left(
            0nat,
            add_length(tokenize),
        ),
    decreases lines.len(),
{
    if lines.len() > 0 {
        let shorter = lines.drop_last();
        lemma_occurrences_by_line(shorter, tokenize, text);
        assert(split_lines(lines, tokenize) == split_lines(shorter, tokenize).push(
            tokenize(lines.last()),
        ));
        split_lines(shorter, tokenize).lemma_flatten_push(tokenize(lines.last()));
        lemma_occurrences_concat(
            split_lines(shorter, tokenize).flatten(),
            tokenize(lines.last()),
            text,
        );
    }
}

/// Order-independence of counting: however the lines of a corpus are
/// rearranged, every token gets the same count.
pub proof fn lemma_line_order_independent(
    first: Seq<Seq<char>>,
    second: Seq<Seq<char>>,
    tokenize: spec_fn(Seq<char>) -> Seq<Seq<char>>,
)
    requires
        first.to_multiset() == second.to_multiset(),
        split_lines(first, tokenize).flatten().len() <= u64::MAX,
    ensures
        as_map(tally(split_lines(first, tokenize).flatten())) == as_map(
            tally(split_lines(second, tokenize).flatten()),
        ),
{
    let one = split_lines(first, tokenize).flatten();
    let two = split_lines(second, tokenize).flatten();
    let empty: Seq<char> = Seq::empty();
    lemma_occurrences_by_line(first, tokenize, empty);
    lemma_occurrences_by_line(second, tokenize, empty);
    lemma_fold_left_permutation(first, second, add_length(tokenize), 0nat);
    lemma_tally(one);
    lemma_tally(two);
    assert forall|text: Seq<char>| holds(tally(one), text) == holds(tally(two), text) && count_of(
        tally(one),
        text,
    ) == count_of(tally(two), text) by {
        lemma_occurrences_by_line(first, tokenize, text);
        lemma_occurrences_by_line(second, tokenize, text);
        lemma_fold_left_permutation(first, second, add_occurrences(tokenize, text), 0nat);
    }
    assert(as_map(tally(one)) =~= as_map(tally(two)));
}

/// Order-independence in character mode.
pub proof fn lemma_char_counts_ignore_line_order(first: Seq<Seq<char>>, second: Seq<Seq<char>>)
    requires
        first.to_multiset() == second.to_multiset(),
        letter_lines(first).flatten().len() <= u64::MAX,
    ensures
        as_map(tally(letter_lines(first).flatten())) == as_map(
            tally(letter_lines(second).flatten()),
        ),
{
    let tokenize = |line: Seq<char>| letters(line);
    assert(letter_lines(first) =~= split_lines(first, tokenize));
    assert(letter_lines(second) =~= split_lines(second, tokenize));
    lemma_line_order_independent(first, second, tokenize);
}

/// Order-independence in word mode.
pub proof fn lemma_word_counts_ignore_line_order(first: Seq<Seq<char>>, second: Seq<Seq<char>>)
    requires
        first.to_multiset() == second.to_multiset(),
        word_lines(first).flatten().len() <= u64::MAX,
    ensures
        as_map(tally(word_lines(first).flatten())) == as_map(tally(word_lines(second).flatten())),
{
    let tokenize = |line: Seq<char>| words(line);
    assert(word_lines(first) =~= split_lines(first, tokenize));
    assert(word_lines(second) =~= split_lines(second, tokenize));
    lemma_line_order_independent(first, second, tokenize);
}

/// How often each token occurs, in the order in which the tokens were first
/// seen.
#[derive(Debug, Clone)]
pub struct FrequencyMap<T> {
    entries: Vec<(T, u64)>,
    index: Index,
}

impl<T: Token> View for FrequencyMap<T> {
    type V = Seq<Entry>;

    closed spec fn view(&self) -> Seq<Entry> {
        Seq::new(self.entries@.len(), |i: int| (self.entries@[i].0.text(), self.entries@[i].1))
    }
}

impl<T: Token> FrequencyMap<T> {
    /// The hash codes of the entries' tokens.
    pub closed spec fn hashes(&self) -> Seq<u64> {
        Seq::new(self.entries@.len(), |i: int| hash_of(self.entries@[i].0.text()))
    }

    /// The map's index is that of its entries.
    pub closed spec fn indexed(&self) -> bool {
        self.index.indexes(self.hashes())
    }

    /// No token is entered twice, and the index is that of the entries.
    pub open spec fn wf(&self) -> bool {
        distinct(self@) && self.indexed()
    }

    /// A map has no more entries than a machine word counts.
    pub proof fn lemma_len_fits(&self)
        ensures
            self@.len() <= usize::MAX,
    {
        assert(self.entries@.len() == self.entries.len());
    }

    /// A map without entries.
    pub fn new() -> (map: Self)
        ensures
            map@ == Seq::<Entry>::empty(),
            map.wf(),
    {
        let map = FrequencyMap { entries: Vec::new(), index: Index::new() };
        assert(map@ =~= Seq::<Entry>::empty());
        assert(map.hashes() =~= Seq::<u64>::empty());
        map
    }

    /// The number of distinct tokens.
    pub fn len(&self) -> (n: usize)
        ensures
            n == self@.len(),
    {
        self.entries.len()
    }

    /// Whether the map has no entry.
    pub fn is_empty(&self) -> (empty: bool)
        ensures
            empty == (self@.len() == 0),
    {
        self.entries.len() == 0
    }

    /// The token of the entry at `i`.
    pub fn token_at(&self, i: usize) -> (token: &T)
        requires
            i < self@.len(),
        ensures
            token.text() == self@[i as int].0,
    {
        &self.entries[i].0
    }

    /// The count of the entry at `i`.
    pub fn count_at(&self, i: usize) -> (count: u64)
        requires
            i < self@.len(),
        ensures
            count == self@[i as int].1,
    {
        self.entries[i].1
    }

    fn find(&self, token: &T) -> (found: Option<usize>)
        requires
            self.wf(),
        ensures
            found is Some == holds(self@, token.text()),
            found matches Some(i) ==> i < self@.len() && i == index_of(self@, token.text()),
    {
        let hash = token.hash_code();
        let ghost text = token.text();
        proof {
            assert(self.entries@.len() == self.entries.len());
            if holds(self@, text) {
                let j = index_of(self@, text);
                assert(0 <= j < self.entries@.len() && self@[j].0 == text);
                assert(self.hashes()[j] == hash);
                assert(self.index.bucket(self.hashes()[j]).contains(j as usize));
            }
        }
        let bucket = match self.index.bucket_of(hash) {
            Some(bucket) => bucket,
            None => {
                return None;
            },
        };
        let mut k: usize = 0;
        while k < bucket.len()
            invariant
                k <= bucket@.len(),
                bucket@ == self.index.bucket(hash),
                self@.len() == self.entries@.len(),
                self.wf(),
                text == token.text(),
                holds(self@, text) ==> bucket@.contains(index_of(self@, text) as usize),
                forall|l: int| 0 <= l < k ==> self@[bucket@[l] as int].0 != text,
            decreases bucket.len() - k,
        {
            let at = bucket[k];
            assert(self.index.bucket(hash)[k as int] < self.hashes().len());
            if self.entries[at].0.same_as(token) {
                proof {
                    assert(self@[at as int].0 == text);
                    lemma_index_of_entry(self@, at as int);
                }
                return Some(at);
            }
            k += 1;
        }
        proof {
            if holds(self@, text) {
                let j = index_of(self@, text);
                assert(0 <= j < self.entries@.len() && self@[j].0 == text);
                assert(bucket@.contains(j as usize));
                let l = choose|l: int| 0 <= l < bucket@.len() && bucket@[l] == j as usize;
                assert(self@[bucket@[l] as int].0 != text);
            }
        }
        None
    }

    /// The count recorded for `token`, if it has an entry.
    pub fn get(&self, token: &T) -> (count: Option<u64>)
        requires
            self.wf(),
        ensures
            count is Some == holds(self@, token.text()),
            count matches Some(c) ==> c == count_of(self@, token.text()),
    {
        match self.find(token) {
            Some(i) => Some(self.entries[i].1),
            None => None,
        }
    }

    /// Sets the count of `token`, entering it behind all others if it is new.
    /// Returns the count it had before.
    pub fn insert(&mut self, token: T, count: u64) -> (previous: Option<u64>)
        requires
            old(self).wf(),
        ensures
            final(self)@ == assigned(old(self)@, token.text(), count),
            final(self).wf(),
            previous is Some == holds(old(self)@, token.text()),
            previous matches Some(c) ==> c == count_of(old(self)@, token.text()),
            count_of(final(self)@, token.text()) == count,
            holds(final(self)@, token.text()),
    {
        let ghost before = self@;
        let ghost hashes = self.hashes();
        let ghost text = token.text();
        match self.find(&token) {
            Some(i) => {
                let previous = self.entries[i].1;
                self.entries.set(i, (token, count));
                proof {
                    assert(self.hashes() =~= hashes);
                    assert(self@ =~= before.update(i as int, (text, count)));
                    assert forall|a: int, b: int| 0 <= a < b < self@.len() implies self@[a].0
                        != self@[b].0 by {
                        assert(before[a].0 != before[b].0);
                    }
                    lemma_index_of_entry(self@, i as int);
                }
                Some(previous)
            },
            None => {
                let hash = token.hash_code();
                self.index.add(hash, self.entries.len(), Ghost(hashes));
                self.entries.push((token, count));
                proof {
                    assert(self.hashes() =~= hashes.push(hash));
                    assert(self@ =~= before.push((text, count)));
                    assert forall|a: int, b: int| 0 <= a < b < self@.len() implies self@[a].0
                        != self@[b].0 by {
                        if b == before.len() {
                            assert(before[a].0 != text);
                        } else {
                            assert(before[a].0 != before[b].0);
                        }
                    }
                    lemma_index_of_entry(self@, before.len() as int);
                }
                None
            },
        }
    }

    /// Records `n` more occurrences of `token`.
    pub fn add(&mut self, token: T, n: u64)
        requires
            old(self).wf(),
            count_of(old(self)@, token.text()) + n <= u64::MAX,
        ensures
            final(self)@ == credited(old(self)@, token.text(), n as nat),
            final(self).wf(),
    {
        let ghost before = self@;
        let ghost hashes = self.hashes();
        let ghost text = token.text();
        proof {
            lemma_credited(before, text, n as nat);
        }
        match self.find(&token) {
            Some(i) => {
                let count = self.entries[i].1;
                self.entries.set(i, (token, count + n));
                assert(self.hashes() =~= hashes);
                assert(self@ =~= credited(before, text, n as nat));
            },
            None => {
                let hash = token.hash_code();
                self.index.add(hash, self.entries.len(), Ghost(hashes));
                self.entries.push((token, n));
                assert(self.hashes() =~= hashes.push(hash));
                assert(self@ =~= credited(before, text, n as nat));
            },
        }
    }

    /// Adds every count of `other` to this map, token by token.
    pub fn merge(&mut self, other: &FrequencyMap<T>)
        requires
            old(self).wf(),
            total_of(old(self)@) + total_of(other@) <= u64::MAX,
        ensures
            final(self)@ == merged(old(self)@, other@),
            final(self).wf(),
    {
        let ghost before = self@;
        let mut j: usize = 0;
        while j < other.entries.len()
            invariant
                j <= other@.len(),
                other@.len() == other.entries@.len(),
                self.wf(),
                self@ == merged(before, other@.take(j as int)),
                distinct(before),
                total_of(self@) == total_of(before) + total_of(other@.take(j as int)),
                total_of(before) + total_of(other@) <= u64::MAX,
            decreases other.entries.len() - j,
        {
            let token = other.entries[j].0.duplicate();
            let n = other.entries[j].1;
            proof {
                lemma_total_take(other@, j as int);
                lemma_count_within_total(self@, token.text());
                lemma_credited(self@, token.text(), n as nat);
                assert(other@.take(j + 1).drop_last() == other@.take(j as int));
                assert(other@.take(j + 1).last() == (token.text(), n));
            }
            self.add(token, n);
            j += 1;
        }
        assert(other@.take(j as int) == other@);
    }
}

/// The texts of the lines of a corpus, one for one.
pub open spec fn line_texts(lines: Seq<String>) -> Seq<Seq<char>> {
    Seq::new(lines.len(), |i: int| lines[i]@)
}

/// The token texts of tokenised lines, line by line.
pub open spec fn text_lines<T: Token>(token_lines: Seq<Vec<T>>) -> Seq<Seq<Seq<char>>> {
    Seq::new(token_lines.len(), |i: int| texts(token_lines[i]@))
}

/// The lines of a corpus in character mode, each as its tokens.
pub open spec fn letter_lines(lines: Seq<Seq<char>>) -> Seq<Seq<Seq<char>>> {
    Seq::new(lines.len(), |i: int| letters(lines[i]))
}

/// The lines of a corpus in word mode, each as its tokens.
pub open spec fn word_lines(lines: Seq<Seq<char>>) -> Seq<Seq<Seq<char>>> {
    Seq::new(lines.len(), |i: int| words(lines[i]))
}

/// The tokens of the first `n + 1` lines are those of the first `n` followed
/// by those of line `n`, and there are no more of them than in all lines.
pub proof fn lemma_flatten_take(lines: Seq<Seq<Seq<char>>>, n: int)
    requires
        0 <= n < lines.len(),
    ensures
        lines.take(n + 1).flatten() == lines.take(n).flatten() + lines[n],
        lines.take(n + 1).flatten().len() <= lines.flatten().len(),
{
    assert(lines.take(n + 1) == lines.take(n).push(lines[n]));
    lines.take(n).lemma_flatten_push(lines[n]);
    assert(lines == lines.take(n + 1) + lines.skip(n + 1));
    lemma_flatten_concat(lines.take(n + 1), lines.skip(n + 1));
}

/// Counts the tokens of one line into `map`, which so far holds the tally of
/// `seen`.
fn count_tokens<T: Token>(map: &mut FrequencyMap<T>, tokens: &Vec<T>, Ghost(seen): Ghost<
    Seq<Seq<char>>,
>)
    requires
        old(map).wf(),
        old(map)@ == tally(seen),
        seen.len() + tokens@.len() <= u64::MAX,
    ensures
        final(map)@ == tally(seen + texts(tokens@)),
        final(map).wf(),
{
    let ghost line = texts(tokens@);
    let mut j: usize = 0;
    proof {
        lemma_tally(seen);
        assert(seen + line.take(0) == seen);
    }
    while j < tokens.len()
        invariant
            j <= tokens@.len(),
            line == texts(tokens@),
            map.wf(),
            map@ == tally(seen + line.take(j as int)),
            seen.len() + tokens@.len() <= u64::MAX,
        decreases tokens.len() - j,
    {
        let ghost counted = seen + line.take(j as int);
        let ghost more = seen + line.take(j + 1);
        let token = tokens[j].duplicate();
        proof {
            assert(more.drop_last() == counted);
            assert(more.last() == token.text());
            lemma_tally(counted);
            lemma_count_within_total(map@, token.text());
        }
        map.add(token, 1);
        j += 1;
    }
    proof {
        assert(line.take(j as int) == line);
        lemma_tally(seen + line);
    }
}

/// The frequency map of lines that are already split into tokens.
pub fn token_frequencies<T: Token>(token_lines: &Vec<Vec<T>>) -> (map: FrequencyMap<T>)
    requires
        text_lines(token_lines@).flatten().len() <= u64::MAX,
    ensures
        map@ == tally(text_lines(token_lines@).flatten()),
        map.wf(),
{
    let ghost all = text_lines(token_lines@);
    let mut map = FrequencyMap::new();
    let mut i: usize = 0;
    while i < token_lines.len()
        invariant
            i <= token_lines@.len(),
            all == text_lines(token_lines@),
            all.flatten().len() <= u64::MAX,
            map@ == tally(all.take(i as int).flatten()),
            map.wf(),
        decreases token_lines.len() - i,
    {
        proof {
            lemma_flatten_take(all, i as int);
        }
        count_tokens(&mut map, &token_lines[i], Ghost(all.take(i as int).flatten()));
        i += 1;
    }
    assert(all.take(i as int) == all);
    map
}

/// The frequency map of a corpus in character mode.
pub fn char_frequencies(lines: &Vec<String>) -> (map: FrequencyMap<char>)
    requires
        letter_lines(line_texts(lines@)).flatten().len() <= u64::MAX,
    ensures
        map@ == tally(letter_lines(line_texts(lines@)).flatten()),
        map.wf(),
{
    let ghost all = letter_lines(line_texts(lines@));
    let mut map = FrequencyMap::new();
    let mut i: usize = 0;
    while i < lines.len()
        invariant
            i <= lines@.len(),
            all == letter_lines(line_texts(lines@)),
            all.flatten().len() <= u64::MAX,
            map@ == tally(all.take(i as int).flatten()),
            map.wf(),
        decreases lines.len() - i,
    {
        let tokens = chars_of(&lines[i]);
        proof {
            lemma_flatten_take(all, i as int);
        }
        count_tokens(&mut map, &tokens, Ghost(all.take(i as int).flatten()));
        i += 1;
    }
    assert(all.take(i as int) == all);
    map
}

/// The frequency map of a corpus in word mode.
pub fn word_frequencies(lines: &Vec<String>) -> (map: FrequencyMap<String>)
    requires
        word_lines(line_texts(lines@)).flatten().len() <= u64::MAX,
    ensures
        map@ == tally(word_lines(line_texts(lines@)).flatten()),
        map.wf(),
{
    let ghost all = word_lines(line_texts(lines@));
    let mut map = FrequencyMap::new();
    let mut i: usize = 0;
    while i < lines.len()
        invariant
            i <= lines@.len(),
            all == word_lines(line_texts(lines@)),
            all.flatten().len() <= u64::MAX,
            map@ == tally(all.take(i as int).flatten()),
            map.wf(),
        decreases lines.len() - i,
    {
        let tokens = words_of(&lines[i]);
        proof {
            lemma_flatten_take(all, i as int);
        }
        count_tokens(&mut map, &tokens, Ghost(all.take(i as int).flatten()));
        i += 1;
    }
    assert(all.take(i as int) == all);
    map
}

} // verus!
