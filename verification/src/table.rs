//! Code tables: the codes that a tree gives to its tokens, and the lookups
//! from token to code and from code to token.
//!
//! A code table is modelled as the sequence of its entries, a token's text
//! with the bits of its code. The decoder table is the same sequence with the
//! two parts of each entry exchanged.

use crate::bits::{bits, canonical, copy_bits, equal_bits, hash_bits, new_bits, push_bit};
use crate::freqs::{distinct, holds, index_of, total_of, Entry};
use crate::huffman::{huffman_of, lemma_huffman_of, Tree};
use crate::index::{hash_of, hash_of_bits, Index};
use crate::token::Token;
use bit_vec::BitVec;
use vstd::prelude::*;

verus! {

/// One entry of a code table: a token's text and the bits of its code.
pub type Code = (Seq<char>, Seq<bool>);

/// Whether `a` is the beginning of `b`, or all of it.
pub open spec fn is_prefix(a: Seq<bool>, b: Seq<bool>) -> bool {
    a.len() <= b.len() && b.take(a.len() as int) == a
}

/// No code of the table is the beginning of another entry's code.
#[verifier::opaque]
pub open spec fn prefix_free<K>(table: Seq<(K, Seq<bool>)>) -> bool {
    forall|i: int, j: int|
        0 <= i < table.len() && 0 <= j < table.len() && i != j ==> !is_prefix(
            (#[trigger] table[i]).1,
            (#[trigger] table[j]).1,
        )
}

/// Every code of the table has at least one bit.
#[verifier::opaque]
pub open spec fn codes_nonempty(table: Seq<Code>) -> bool {
    forall|i: int| 0 <= i < table.len() ==> (#[trigger] table[i]).1.len() > 0
}

/// No two entries of the table are for the same token.
pub open spec fn tokens_distinct(table: Seq<Code>) -> bool {
    forall|i: int, j: int|
        0 <= i < j < table.len() ==> (#[trigger] table[i]).0 != (#[trigger] table[j]).0
}

/// The codes of the leaves below `tree`, left to right, where the path from
/// the root to `tree` is `path`: a step to the left adds a 0, a step to the
/// right a 1.
pub open spec fn codes_under<K>(tree: Tree<K>, path: Seq<bool>) -> Seq<(K, Seq<bool>)>
    decreases tree,
{
    match tree {
        Tree::Leaf { token, .. } => seq![(token, path)],
        Tree::Node { left, right, .. } => codes_under(*left, path.push(false)) + codes_under(
            *right,
            path.push(true),
        ),
    }
}

/// The code table of a tree. A tree that is a single leaf has no path to
/// read a code from; its token gets the one-bit code 0.
pub open spec fn code_table<K>(tree: Tree<K>) -> Seq<(K, Seq<bool>)> {
    match tree {
        Tree::Leaf { token, .. } => seq![(token, seq![false])],
        Tree::Node { .. } => codes_under(tree, Seq::empty()),
    }
}

/// The longest path from the root to a leaf, in edges.
pub open spec fn height<K>(tree: Tree<K>) -> nat
    decreases tree,
{
    match tree {
        Tree::Leaf { .. } => 0,
        Tree::Node { left, right, .. } => 1 + if height(*left) >= height(*right) {
            height(*left)
        } else {
            height(*right)
        },
    }
}

/// The index of the first entry for `text`, where there is one.
pub open spec fn first_with_text(table: Seq<Code>, text: Seq<char>) -> int {
    choose|i: int|
        0 <= i < table.len() && table[i].0 == text && forall|j: int|
            0 <= j < i ==> table[j].0 != text
}

/// The code of the first entry for `text`.
pub open spec fn code_for(table: Seq<Code>, text: Seq<char>) -> Option<Seq<bool>> {
    if exists|i: int| 0 <= i < table.len() && table[i].0 == text {
        Some(table[first_with_text(table, text)].1)
    } else {
        None
    }
}

/// One entry of a decoder table: the bits of a code and its token's text.
pub type Decoding = (Seq<bool>, Seq<char>);

/// The decoder table of a code table: each entry with its two parts
/// exchanged.
pub open spec fn inverse(table: Seq<Code>) -> Seq<Decoding> {
    Seq::new(table.len(), |i: int| (table[i].1, table[i].0))
}

/// The index of the first entry whose code is `code`, where there is one.
pub open spec fn first_with_code(table: Seq<Decoding>, code: Seq<bool>) -> int {
    choose|i: int|
        0 <= i < table.len() && table[i].0 == code && forall|j: int|
            0 <= j < i ==> table[j].0 != code
}

/// The token of the first entry whose code is `code`.
pub open spec fn token_for(table: Seq<Decoding>, code: Seq<bool>) -> Option<Seq<char>> {
    if exists|i: int| 0 <= i < table.len() && table[i].0 == code {
        Some(table[first_with_code(table, code)].1)
    } else {
        None
    }
}

/// The codes below a tree all begin with the path to the tree, none is the
/// beginning of another, and there is one for each leaf, with its token.
pub proof fn lemma_codes_under<K>(tree: Tree<K>, path: Seq<bool>)
    ensures
        codes_under(tree, path).len() == tree.leaves().len(),
        forall|i: int|
            0 <= i < codes_under(tree, path).len() ==> (#[trigger] codes_under(tree, path)[i]).0
                == tree.leaves()[i].0,
        forall|i: int|
            0 <= i < codes_under(tree, path).len() ==> is_prefix(
                path,
                (#[trigger] codes_under(tree, path)[i]).1,
            ),
        forall|i: int|
            0 <= i < codes_under(tree, path).len() ==> (#[trigger] codes_under(
                tree,
                path,
            )[i]).1.len() <= path.len() + height(tree),
        forall|i: int, j: int|
            0 <= i < codes_under(tree, path).len() && 0 <= j < codes_under(tree, path).len() && i
                != j ==> !is_prefix(
                (#[trigger] codes_under(tree, path)[i]).1,
                (#[trigger] codes_under(tree, path)[j]).1,
            ),
    decreases tree,
{
    let codes = codes_under(tree, path);
    match tree {
        Tree::Leaf { .. } => {
            assert(path.take(path.len() as int) == path);
        },
        Tree::Node { left, right, .. } => {
            let zero = path.push(false);
            let one = path.push(true);
            let low = codes_under(*left, zero);
            let high = codes_under(*right, one);
            lemma_codes_under(*left, zero);
            lemma_codes_under(*right, one);
            assert forall|i: int| 0 <= i < codes.len() implies is_prefix(
                path,
                (#[trigger] codes[i]).1,
            ) && codes[i].0 == tree.leaves()[i].0 && codes[i].1.len() > path.len()
                && codes[i].1[path.len() as int] == (i >= low.len()) by {
                if i < low.len() {
                    assert(codes[i] == low[i]);
                    assert(is_prefix(zero, low[i].1));
                    assert(low[i].1.take(zero.len() as int)[path.len() as int] == false);
                    assert(low[i].1.take(path.len() as int) =~= low[i].1.take(
                        zero.len() as int,
                    ).take(path.len() as int));
                    assert(zero.take(path.len() as int) =~= path);
                } else {
                    let k = i - low.len();
                    assert(codes[i] == high[k]);
                    assert(is_prefix(one, high[k].1));
                    assert(high[k].1.take(one.len() as int)[path.len() as int] == true);
                    assert(high[k].1.take(path.len() as int) =~= high[k].1.take(
                        one.len() as int,
                    ).take(path.len() as int));
                    assert(one.take(path.len() as int) =~= path);
                }
            }
            assert forall|i: int, j: int|
                0 <= i < codes.len() && 0 <= j < codes.len() && i != j implies !is_prefix(
                (#[trigger] codes[i]).1,
                (#[trigger] codes[j]).1,
            ) by {
                if i < low.len() && j < low.len() {
                    assert(codes[i] == low[i] && codes[j] == low[j]);
                } else if i >= low.len() && j >= low.len() {
                    assert(codes[i] == high[i - low.len()] && codes[j] == high[j - low.len()]);
                } else {
                    if is_prefix(codes[i].1, codes[j].1) {
                        assert(codes[j].1.take(codes[i].1.len() as int)[path.len() as int]
                            == codes[j].1[path.len() as int]);
                    }
                }
            }
            assert forall|i: int| 0 <= i < codes.len() implies (#[trigger] codes[i]).1.len()
                <= path.len() + height(tree) by {
                if i < low.len() {
                    assert(codes[i] == low[i]);
                } else {
                    assert(codes[i] == high[i - low.len()]);
                }
            }
        },
    }
}

/// The prefix property: in the code table of any tree no leaf's code is the
/// beginning of another leaf's code, and every code has at least one bit.
/// The table has one entry for each leaf, with the leaf's token.
pub proof fn lemma_code_table<K>(tree: Tree<K>)
    ensures
        prefix_free(code_table(tree)),
        code_table(tree).len() == tree.leaves().len(),
        forall|i: int|
            0 <= i < code_table(tree).len() ==> (#[trigger] code_table(tree)[i]).0
                == tree.leaves()[i].0,
        forall|i: int|
            0 <= i < code_table(tree).len() ==> 0 < (#[trigger] code_table(tree)[i]).1.len()
                <= height(tree) + 1,
{
    let table = code_table(tree);
    reveal(prefix_free);
    match tree {
        Tree::Leaf { .. } => {},
        Tree::Node { left, right, .. } => {
            lemma_codes_under(tree, Seq::empty());
            lemma_codes_under(*left, Seq::<bool>::empty().push(false));
            lemma_codes_under(*right, Seq::<bool>::empty().push(true));
            let low = codes_under(*left, Seq::<bool>::empty().push(false));
            assert forall|i: int| 0 <= i < table.len() implies 0 < (#[trigger] table[i]).1.len() by {
                if i < low.len() {
                    assert(table[i] == low[i]);
                } else {
                    assert(table[i] == codes_under(*right, Seq::<bool>::empty().push(true))[i
                        - low.len()]);
                }
            }
        },
    }
}

/// The token-to-code table.
#[derive(Debug, Clone)]
pub struct Encoder<T> {
    entries: Vec<(T, BitVec)>,
    index: Index,
}

impl<T: Token> View for Encoder<T> {
    type V = Seq<Code>;

    closed spec fn view(&self) -> Seq<Code> {
        Seq::new(self.entries@.len(), |i: int| (self.entries@[i].0.text(), bits(self.entries@[i].1)))
    }
}

impl<T: Token> Encoder<T> {
    /// The hash codes of the entries' tokens.
    pub closed spec fn hashes(&self) -> Seq<u64> {
        Seq::new(self.entries@.len(), |i: int| hash_of(self.entries@[i].0.text()))
    }

    /// Every code is held in a canonical vector, and the index is that of
    /// the entries.
    pub closed spec fn wf(&self) -> bool {
        &&& forall|i: int| 0 <= i < self.entries@.len() ==> canonical(
            (#[trigger] self.entries@[i]).1,
        )
        &&& self.index.indexes(self.hashes())
    }

    /// A table without entries.
    pub fn new() -> (table: Self)
        ensures
            table@ == Seq::<Code>::empty(),
            table.wf(),
    {
        let table = Encoder { entries: Vec::new(), index: Index::new() };
        assert(table@ =~= Seq::<Code>::empty());
        assert(table.hashes() =~= Seq::<u64>::empty());
        table
    }

    /// The number of entries.
    pub fn len(&self) -> (n: usize)
        ensures
            n == self@.len(),
    {
        self.entries.len()
    }

    /// The token of the entry at `i`.
    pub fn token_at(&self, i: usize) -> (token: &T)
        requires
            i < self@.len(),
        ensures
            token.text() == self@[i as int].0,
    {
        &self.entries[i].0
    }

    /// The code of the entry at `i`.
    pub fn code_at(&self, i: usize) -> (code: &BitVec)
        requires
            self.wf(),
            i < self@.len(),
        ensures
            bits(*code) == self@[i as int].1,
            canonical(*code),
    {
        &self.entries[i].1
    }

    /// Appends an entry.
    pub fn push(&mut self, token: T, code: BitVec)
        requires
            old(self).wf(),
            canonical(code),
        ensures
            final(self)@ == old(self)@.push((token.text(), bits(code))),
            final(self).wf(),
    {
        let ghost before = self@;
        let ghost held = self.entries@;
        let ghost hashes = self.hashes();
        let hash = token.hash_code();
        self.index.add(hash, self.entries.len(), Ghost(hashes));
        self.entries.push((token, code));
        assert(self@ =~= before.push((token.text(), bits(code))));
        assert(self.hashes() =~= hashes.push(hash));
        assert forall|i: int| 0 <= i < self.entries@.len() implies canonical(
            (#[trigger] self.entries@[i]).1,
        ) by {
            if i < held.len() {
                assert(self.entries@[i] == held[i]);
            }
        }
    }

    /// The code of `token`: that of the first entry for it.
    pub fn get(&self, token: &T) -> (code: Option<&BitVec>)
        requires
            self.wf(),
        ensures
            match code {
                Some(found) => code_for(self@, token.text()) == Some(bits(*found)) && canonical(
                    *found,
                ),
                None => code_for(self@, token.text()) is None,
            },
    {
        let hash = token.hash_code();
        let ghost text = token.text();
        assert(self.entries@.len() == self.entries.len());
        let bucket = match self.index.bucket_of(hash) {
            Some(bucket) => bucket,
            None => {
                proof {
                    if exists|i: int| 0 <= i < self@.len() && self@[i].0 == text {
                        let i = choose|i: int| 0 <= i < self@.len() && self@[i].0 == text;
                        assert(self.index.bucket(self.hashes()[i]).contains(i as usize));
                    }
                }
                return None;
            },
        };
        let mut k: usize = 0;
        while k < bucket.len()
            invariant
                k <= bucket@.len(),
                bucket@ == self.index.bucket(hash),
                self@.len() == self.entries@.len(),
                self.entries@.len() <= usize::MAX,
                self.wf(),
                text == token.text(),
                hash == hash_of(text),
                forall|l: int| 0 <= l < k ==> self@[bucket@[l] as int].0 != text,
            decreases bucket.len() - k,
        {
            let at = bucket[k];
            assert(self.index.bucket(hash)[k as int] < self.hashes().len());
            if self.entries[at].0.same_as(token) {
                proof {
                    assert(self@[at as int].0 == text);
                    assert forall|j: int| 0 <= j < at implies self@[j].0 != text by {
                        if self@[j].0 == text {
                            assert(self.index.bucket(self.hashes()[j]).contains(j as usize));
                            let l = choose|l: int|
                                0 <= l < bucket@.len() && bucket@[l] == j as usize;
                            if l >= k {
                                if l > k {
                                    assert(self.index.bucket(hash)[k as int] < self.index.bucket(
                                        hash,
                                    )[l]);
                                }
                            } else {
                                assert(self@[bucket@[l] as int].0 != text);
                            }
                        }
                    }
                    lemma_first_with_text(self@, text, at as int);
                }
                return Some(&self.entries[at].1);
            }
            k += 1;
        }
        proof {
            if exists|i: int| 0 <= i < self@.len() && self@[i].0 == text {
                let i = choose|i: int| 0 <= i < self@.len() && self@[i].0 == text;
                assert(self.index.bucket(self.hashes()[i]).contains(i as usize));
                let l = choose|l: int| 0 <= l < bucket@.len() && bucket@[l] == i as usize;
                assert(self@[bucket@[l] as int].0 != text);
            }
        }
        None
    }
}

/// The code-to-token table.
#[derive(Debug, Clone)]
pub struct Decoder<T> {
    entries: Vec<(BitVec, T)>,
    index: Index,
}

impl<T: Token> View for Decoder<T> {
    type V = Seq<Decoding>;

    closed spec fn view(&self) -> Seq<Decoding> {
        Seq::new(self.entries@.len(), |i: int| (bits(self.entries@[i].0), self.entries@[i].1.text()))
    }
}

impl<T: Token> Decoder<T> {
    /// The hash codes of the entries' codes.
    pub closed spec fn hashes(&self) -> Seq<u64> {
        Seq::new(self.entries@.len(), |i: int| hash_of_bits(bits(self.entries@[i].0)))
    }

    /// Every code is held in a canonical vector, and the index is that of
    /// the entries.
    pub closed spec fn wf(&self) -> bool {
        &&& forall|i: int| 0 <= i < self.entries@.len() ==> canonical(
            (#[trigger] self.entries@[i]).0,
        )
        &&& self.index.indexes(self.hashes())
    }

    /// A table without entries.
    pub fn new() -> (table: Self)
        ensures
            table@ == Seq::<Decoding>::empty(),
            table.wf(),
    {
        let table = Decoder { entries: Vec::new(), index: Index::new() };
        assert(table@ =~= Seq::<Decoding>::empty());
        assert(table.hashes() =~= Seq::<u64>::empty());
        table
    }

    /// The number of entries.
    pub fn len(&self) -> (n: usize)
        ensures
            n == self@.len(),
    {
        self.entries.len()
    }

    /// Appends an entry.
    pub fn push(&mut self, code: BitVec, token: T)
        requires
            old(self).wf(),
            canonical(code),
        ensures
            final(self)@ == old(self)@.push((bits(code), token.text())),
            final(self).wf(),
    {
        let ghost before = self@;
        let ghost held = self.entries@;
        let ghost hashes = self.hashes();
        let hash = hash_bits(&code);
        self.index.add(hash, self.entries.len(), Ghost(hashes));
        self.entries.push((code, token));
        assert(self@ =~= before.push((bits(code), token.text())));
        assert(self.hashes() =~= hashes.push(hash));
        assert forall|i: int| 0 <= i < self.entries@.len() implies canonical(
            (#[trigger] self.entries@[i]).0,
        ) by {
            if i < held.len() {
                assert(self.entries@[i] == held[i]);
            }
        }
    }

    /// The token whose code is `code`: that of the first entry with it.
    pub fn get(&self, code: &BitVec) -> (token: Option<&T>)
        requires
            self.wf(),
            canonical(*code),
        ensures
            match token {
                Some(found) => token_for(self@, bits(*code)) == Some(found.text()),
                None => token_for(self@, bits(*code)) is None,
            },
    {
        self.get_hashed(code, hash_bits(code))
    }

    /// The token whose code is `code`, where the hash code of `code` is
    /// known.
    pub fn get_hashed(&self, code: &BitVec, hash: u64) -> (token: Option<&T>)
        requires
            self.wf(),
            canonical(*code),
            hash == hash_of_bits(bits(*code)),
        ensures
            match token {
                Some(found) => token_for(self@, bits(*code)) == Some(found.text()),
                None => token_for(self@, bits(*code)) is None,
            },
    {
        let ghost wanted = bits(*code);
        assert(self.entries@.len() == self.entries.len());
        let bucket = match self.index.bucket_of(hash) {
            Some(bucket) => bucket,
            None => {
                proof {
                    if exists|i: int| 0 <= i < self@.len() && self@[i].0 == wanted {
                        let i = choose|i: int| 0 <= i < self@.len() && self@[i].0 == wanted;
                        assert(self.index.bucket(self.hashes()[i]).contains(i as usize));
                    }
                }
                return None;
            },
        };
        let mut k: usize = 0;
        while k < bucket.len()
            invariant
                k <= bucket@.len(),
                bucket@ == self.index.bucket(hash),
                self@.len() == self.entries@.len(),
                self.entries@.len() <= usize::MAX,
                self.wf(),
                canonical(*code),
                wanted == bits(*code),
                hash == hash_of_bits(wanted),
                forall|l: int| 0 <= l < k ==> self@[bucket@[l] as int].0 != wanted,
            decreases bucket.len() - k,
        {
            let at = bucket[k];
            assert(self.index.bucket(hash)[k as int] < self.hashes().len());
            if equal_bits(&self.entries[at].0, code) {
                proof {
                    assert(self@[at as int].0 == wanted);
                    assert forall|j: int| 0 <= j < at implies self@[j].0 != wanted by {
                        if self@[j].0 == wanted {
                            assert(self.index.bucket(self.hashes()[j]).contains(j as usize));
                            let l = choose|l: int|
                                0 <= l < bucket@.len() && bucket@[l] == j as usize;
                            if l >= k {
                                if l > k {
                                    assert(self.index.bucket(hash)[k as int] < self.index.bucket(
                                        hash,
                                    )[l]);
                                }
                            } else {
                                assert(self@[bucket@[l] as int].0 != wanted);
                            }
                        }
                    }
                    lemma_first_with_code(self@, wanted, at as int);
                }
                return Some(&self.entries[at].1);
            }
            k += 1;
        }
        proof {
            if exists|i: int| 0 <= i < self@.len() && self@[i].0 == wanted {
                let i = choose|i: int| 0 <= i < self@.len() && self@[i].0 == wanted;
                assert(self.index.bucket(self.hashes()[i]).contains(i as usize));
                let l = choose|l: int| 0 <= l < bucket@.len() && bucket@[l] == i as usize;
                assert(self@[bucket@[l] as int].0 != wanted);
            }
        }
        None
    }
}

/// The first entry for a text is the one that a search from the front finds.
pub proof fn lemma_first_with_text(table: Seq<Code>, text: Seq<char>, i: int)
    requires
        0 <= i < table.len(),
        table[i].0 == text,
        forall|j: int| 0 <= j < i ==> table[j].0 != text,
    ensures
        first_with_text(table, text) == i,
        code_for(table, text) == Some(table[i].1),
{
    let k = first_with_text(table, text);
    assert(0 <= k < table.len() && table[k].0 == text && forall|j: int|
        0 <= j < k ==> table[j].0 != text);
}

/// The first entry with a code is the one that a search from the front
/// finds.
pub proof fn lemma_first_with_code(table: Seq<Decoding>, code: Seq<bool>, i: int)
    requires
        0 <= i < table.len(),
        table[i].0 == code,
        forall|j: int| 0 <= j < i ==> table[j].0 != code,
    ensures
        first_with_code(table, code) == i,
        token_for(table, code) == Some(table[i].1),
{
    let k = first_with_code(table, code);
    assert(0 <= k < table.len() && table[k].0 == code && forall|j: int|
        0 <= j < k ==> table[j].0 != code);
}

/// The decoder table of a code table.
pub fn encoder_to_decoder<T: Token>(encoder: &Encoder<T>) -> (decoder: Decoder<T>)
    requires
        encoder.wf(),
    ensures
        decoder@ == inverse(encoder@),
        decoder.wf(),
{
    let mut decoder = Decoder::new();
    let mut i: usize = 0;
    assert(inverse(encoder@).take(0) =~= Seq::<Decoding>::empty());
    while i < encoder.len()
        invariant
            i <= encoder@.len(),
            encoder.wf(),
            decoder.wf(),
            decoder@ == inverse(encoder@).take(i as int),
        decreases encoder@.len() - i,
    {
        let code = copy_bits(encoder.code_at(i));
        let token = encoder.token_at(i).duplicate();
        decoder.push(code, token);
        assert(inverse(encoder@).take(i + 1) =~= inverse(encoder@).take(i as int).push(
            inverse(encoder@)[i as int],
        ));
        i += 1;
    }
    assert(inverse(encoder@).take(i as int) =~= inverse(encoder@));
    decoder
}

/// Appends the codes of the leaves below `tree` to `table`.
fn collect_codes<T: Token>(tree: &Tree<T>, path: &BitVec, table: &mut Encoder<T>)
    requires
        canonical(*path),
        bits(*path).len() + height(tree@) < usize::MAX,
        old(table).wf(),
    ensures
        final(table)@ == old(table)@ + codes_under(tree@, bits(*path)),
        final(table).wf(),
    decreases tree,
{
    let ghost before = table@;
    match tree {
        Tree::Leaf { token, .. } => {
            table.push(token.duplicate(), copy_bits(path));
            assert(table@ =~= before + codes_under(tree@, bits(*path)));
        },
        Tree::Node { left, right, .. } => {
            let mut low = copy_bits(path);
            push_bit(&mut low, false);
            collect_codes(left, &low, table);
            let mut high = copy_bits(path);
            push_bit(&mut high, true);
            collect_codes(right, &high, table);
            assert(table@ =~= before + codes_under(tree@, bits(*path)));
        },
    }
}

impl<T: Token> Tree<T> {
    /// The code table of the tree: for each leaf, left to right, its token
    /// with the path that leads to it from the root, a 0 for each step to the
    /// left and a 1 for each step to the right. The token of a tree that is a
    /// single leaf gets the one-bit code 0.
    pub fn to_encoder(&self) -> (table: Encoder<T>)
        requires
            height(self@) < usize::MAX,
        ensures
            table@ == code_table(self@),
            table.wf(),
    {
        let mut table = Encoder::new();
        match self {
            Tree::Leaf { token, .. } => {
                let mut code = new_bits();
                push_bit(&mut code, false);
                table.push(token.duplicate(), code);
                assert(table@ =~= code_table(self@));
            },
            Tree::Node { .. } => {
                let path = new_bits();
                collect_codes(self, &path, &mut table);
                assert(table@ =~= code_table(self@));
            },
        }
        table
    }
}

/// A text that the table has a code for has a first entry, and its code is
/// that entry's.
pub proof fn lemma_code_for(table: Seq<Code>, text: Seq<char>)
    requires
        code_for(table, text) is Some,
    ensures
        0 <= first_with_text(table, text) < table.len(),
        table[first_with_text(table, text)].0 == text,
        code_for(table, text) == Some(table[first_with_text(table, text)].1),
{
    let i = choose|i: int| 0 <= i < table.len() && table[i].0 == text;
    lemma_first_exists(table, text, i);
}

/// Where some entry is for a text, one of them is the first.
proof fn lemma_first_exists(table: Seq<Code>, text: Seq<char>, i: int)
    requires
        0 <= i < table.len(),
        table[i].0 == text,
    ensures
        exists|k: int|
            0 <= k < table.len() && table[k].0 == text && forall|j: int|
                0 <= j < k ==> table[j].0 != text,
    decreases i,
{
    if exists|j: int| 0 <= j < i && table[j].0 == text {
        let j = choose|j: int| 0 <= j < i && table[j].0 == text;
        lemma_first_exists(table, text, j);
    } else {
        assert(0 <= i < table.len() && table[i].0 == text && forall|j: int|
            0 <= j < i ==> table[j].0 != text);
    }
}

/// A tree is no higher than it has inner nodes.
pub proof fn lemma_height<K>(tree: Tree<K>)
    ensures
        height(tree) <= tree.inner_nodes(),
    decreases tree,
{
    match tree {
        Tree::Leaf { .. } => {},
        Tree::Node { left, right, .. } => {
            lemma_height(*left);
            lemma_height(*right);
        },
    }
}

/// The code table of a frequency map's Huffman tree is prefix-free, its
/// codes are not empty, and it has an entry for every token of the map.
pub proof fn lemma_table_of_map(entries: Seq<Entry>)
    requires
        entries.len() > 0,
        total_of(entries) <= u64::MAX,
    ensures
        prefix_free(code_table(huffman_of(entries))),
        codes_nonempty(code_table(huffman_of(entries))),
        code_table(huffman_of(entries)).len() == entries.len(),
        forall|text: Seq<char>|
            holds(entries, text) ==> code_for(code_table(huffman_of(entries)), text) is Some,
        distinct(entries) ==> tokens_distinct(code_table(huffman_of(entries))),
{
    broadcast use vstd::seq_lib::group_to_multiset_ensures;

    let tree = huffman_of(entries);
    let table = code_table(tree);
    let leaves = tree.leaves();
    lemma_huffman_of(entries);
    lemma_code_table(tree);
    assert(codes_nonempty(table)) by {
        reveal(codes_nonempty);
    }
    assert forall|text: Seq<char>| holds(entries, text) implies code_for(table, text) is Some by {
        let j = index_of(entries, text);
        assert(entries.to_multiset().count(entries[j]) > 0);
        assert(leaves.to_multiset().count(entries[j]) > 0);
        assert(leaves.contains(entries[j]));
        let m = choose|m: int| 0 <= m < leaves.len() && leaves[m] == entries[j];
        assert(table[m].0 == text);
    }
    if distinct(entries) {
        assert(entries.no_duplicates()) by {
            assert forall|a: int, b: int|
                0 <= a < entries.len() && 0 <= b < entries.len() && a != b implies entries[a]
                != entries[b] by {
                if a < b {
                    assert(entries[a].0 != entries[b].0);
                } else {
                    assert(entries[b].0 != entries[a].0);
                }
            }
        }
        entries.lemma_multiset_has_no_duplicates();
        leaves.lemma_multiset_has_no_duplicates_conv();
        assert forall|a: int, b: int| 0 <= a < b < table.len() implies (#[trigger] table[a]).0 != (
        #[trigger] table[b]).0 by {
            if table[a].0 == table[b].0 {
                assert(leaves.to_multiset().count(leaves[a]) > 0);
                assert(leaves.to_multiset().count(leaves[b]) > 0);
                assert(entries.contains(leaves[a]));
                assert(entries.contains(leaves[b]));
                let x = choose|x: int| 0 <= x < entries.len() && entries[x] == leaves[a];
                let y = choose|y: int| 0 <= y < entries.len() && entries[y] == leaves[b];
                if x < y {
                    assert(entries[x].0 != entries[y].0);
                } else if y < x {
                    assert(entries[y].0 != entries[x].0);
                }
                assert(leaves[a] == leaves[b]);
            }
        }
    }
}

/// The two tables invert each other: in a prefix-free table without a
/// repeated token, the code of an entry's token is the entry's code, and
/// the token of an entry's code is the entry's token.
pub proof fn lemma_tables_invert(table: Seq<Code>, i: int)
    requires
        prefix_free(table),
        tokens_distinct(table),
        0 <= i < table.len(),
    ensures
        code_for(table, table[i].0) == Some(table[i].1),
        token_for(inverse(table), table[i].1) == Some(table[i].0),
{
    reveal(prefix_free);
    assert forall|j: int| 0 <= j < i implies table[j].0 != table[i].0 by {}
    lemma_first_with_text(table, table[i].0, i);
    let pairs = inverse(table);
    assert forall|j: int| 0 <= j < i implies pairs[j].0 != pairs[i].0 by {
        if pairs[j].0 == pairs[i].0 {
            assert(table[i].1.take(table[j].1.len() as int) == table[i].1);
            assert(is_prefix(table[j].1, table[i].1));
        }
    }
    lemma_first_with_code(pairs, table[i].1, i);
}

} // verus!
