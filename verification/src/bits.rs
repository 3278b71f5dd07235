//! Bit sequences, held in `bit_vec::BitVec`.
//!
//! The verifier sees a `BitVec` only through two names: [`slots`], what the
//! vector yields at each index below its length, and [`compact`], which says
//! that its storage is exactly what `new` and `push` produce. A vector that
//! was built by this library is [`canonical`]: compact, and with a bit at
//! every index. One that was read from a blob need not be; [`rebuilt`] makes
//! it so or refuses it.

use crate::index::{hash_of_bits, mix_bit, SEED};
use bit_vec::BitVec;
use vstd::prelude::*;

verus! {

#[verifier::external_type_specification]
#[verifier::external_body]
#[verifier::reject_recursive_types(B)]
pub struct ExBitVec<B>(BitVec<B>);

/// What the vector yields at each index below its length: the bit there, or
/// `None` where its storage ends before its length does.
pub uninterp spec fn slots(v: BitVec) -> Seq<Option<bool>>;

/// Whether the vector's storage has exactly the blocks that its length needs
/// and no bit set behind its last one.
pub uninterp spec fn compact(v: BitVec) -> bool;

/// Every index below the length yields a bit.
pub open spec fn complete(v: BitVec) -> bool {
    forall|i: int| 0 <= i < slots(v).len() ==> (#[trigger] slots(v)[i]) is Some
}

/// The vector is compact and complete.
pub open spec fn canonical(v: BitVec) -> bool {
    compact(v) && complete(v)
}

/// The bits that a sequence of slots holds, a missing one read as 0.
pub open spec fn filled(slots: Seq<Option<bool>>) -> Seq<bool> {
    Seq::new(slots.len(), |i: int| slots[i] == Some(true))
}

/// The bits that a vector holds, first to last.
pub open spec fn bits(v: BitVec) -> Seq<bool> {
    filled(slots(v))
}

/// The bits of each vector, one for one.
pub open spec fn bit_lines(lines: Seq<BitVec>) -> Seq<Seq<bool>> {
    Seq::new(lines.len(), |i: int| bits(lines[i]))
}

/// Every vector of the sequence is canonical.
pub open spec fn all_canonical(lines: Seq<BitVec>) -> bool {
    forall|i: int| 0 <= i < lines.len() ==> canonical(#[trigger] lines[i])
}

/// `BitVec::new`: an empty vector, with empty storage.
#[verifier::external_body]
fn bit_vec_new() -> (v: BitVec)
    ensures
        slots(v) == Seq::<Option<bool>>::empty(),
        compact(v),
{
    BitVec::new()
}

/// `BitVec::len`: the number of bits that the vector counts as its own.
#[verifier::external_body]
fn bit_vec_len(v: &BitVec) -> (n: usize)
    ensures
        n == slots(*v).len(),
{
    v.len()
}

/// `BitVec::get`: `None` at or past the length, and below it where the
/// storage holds no block for the index; else the bit.
#[verifier::external_body]
fn bit_vec_get(v: &BitVec, i: usize) -> (bit: Option<bool>)
    ensures
        bit == if i < slots(*v).len() {
            slots(*v)[i as int]
        } else {
            None
        },
{
    v.get(i)
}

/// `BitVec::push`: appends one bit, and a block when the last one is full.
/// It panics when the length would pass `usize::MAX`; on a vector that is
/// not compact it may index past its storage.
#[verifier::external_body]
fn bit_vec_push(v: &mut BitVec, bit: bool)
    requires
        compact(*old(v)),
        slots(*old(v)).len() < usize::MAX,
    ensures
        slots(*final(v)) == slots(*old(v)).push(Some(bit)),
        compact(*final(v)),
{
    v.push(bit)
}

/// `Clone::clone` of `BitVec`: copies length and storage.
#[verifier::external_body]
fn bit_vec_clone(v: &BitVec) -> (c: BitVec)
    ensures
        slots(c) == slots(*v),
        compact(c) == compact(*v),
{
    v.clone()
}

/// `Extend::extend` of `BitVec`, fed from another vector's `iter`: pushes
/// what `extra` yields onto `target`, in order. It panics when the sum of
/// the lengths passes `usize::MAX`, and the iterator panics at an index that
/// yields no bit.
#[verifier::external_body]
fn bit_vec_extend(target: &mut BitVec, extra: &BitVec)
    requires
        compact(*old(target)),
        complete(*extra),
        slots(*old(target)).len() + slots(*extra).len() <= usize::MAX,
    ensures
        slots(*final(target)) == slots(*old(target)) + slots(*extra),
        compact(*final(target)),
{
    target.extend(extra.iter())
}

/// `PartialEq::eq` of `BitVec`: equal lengths and equal blocks. Two compact
/// vectors have equal blocks exactly when they yield the same at every
/// index.
#[verifier::external_body]
fn bit_vec_eq(a: &BitVec, b: &BitVec) -> (equal: bool)
    requires
        compact(*a),
        compact(*b),
    ensures
        equal == (slots(*a) == slots(*b)),
{
    a == b
}

/// Two complete sequences of slots that hold the same bits are the same.
pub proof fn lemma_filled_injective(a: Seq<Option<bool>>, b: Seq<Option<bool>>)
    requires
        forall|i: int| 0 <= i < a.len() ==> (#[trigger] a[i]) is Some,
        forall|i: int| 0 <= i < b.len() ==> (#[trigger] b[i]) is Some,
        filled(a) == filled(b),
    ensures
        a == b,
{
    assert(a.len() == filled(a).len());
    assert(b.len() == filled(b).len());
    assert forall|i: int| 0 <= i < a.len() implies a[i] == b[i] by {
        assert(i < b.len());
        assert(filled(a)[i] == (a[i] == Some(true)));
        assert(filled(b)[i] == (b[i] == Some(true)));
        assert(a[i] == Some(a[i]->0) && b[i] == Some(b[i]->0));
    }
    assert(a =~= b);
}

/// An empty vector.
pub fn new_bits() -> (v: BitVec)
    ensures
        bits(v) == Seq::<bool>::empty(),
        canonical(v),
{
    let v = bit_vec_new();
    assert(bits(v) =~= Seq::<bool>::empty());
    v
}

/// The number of bits held.
pub fn bit_count(v: &BitVec) -> (n: usize)
    ensures
        n == bits(*v).len(),
        n == slots(*v).len(),
{
    bit_vec_len(v)
}

/// The bit at `i` of a canonical vector.
pub fn bit_at(v: &BitVec, i: usize) -> (bit: bool)
    requires
        canonical(*v),
        i < bits(*v).len(),
    ensures
        bit == bits(*v)[i as int],
{
    match bit_vec_get(v, i) {
        Some(bit) => bit,
        None => false,
    }
}

/// Appends one bit.
pub fn push_bit(v: &mut BitVec, bit: bool)
    requires
        canonical(*old(v)),
        bits(*old(v)).len() < usize::MAX,
    ensures
        bits(*final(v)) == bits(*old(v)).push(bit),
        canonical(*final(v)),
{
    bit_vec_push(v, bit);
    assert(bits(*v) =~= bits(*old(v)).push(bit));
}

/// A copy of the vector.
pub fn copy_bits(v: &BitVec) -> (c: BitVec)
    ensures
        bits(c) == bits(*v),
        slots(c) == slots(*v),
        canonical(c) == canonical(*v),
{
    bit_vec_clone(v)
}

/// Appends the bits of `extra` to `target`.
pub fn extend_bits(target: &mut BitVec, extra: &BitVec)
    requires
        canonical(*old(target)),
        canonical(*extra),
        bits(*old(target)).len() + bits(*extra).len() <= usize::MAX,
    ensures
        bits(*final(target)) == bits(*old(target)) + bits(*extra),
        canonical(*final(target)),
{
    bit_vec_extend(target, extra);
    assert(bits(*target) =~= bits(*old(target)) + bits(*extra));
}

/// Whether two canonical vectors hold the same bits.
pub fn equal_bits(a: &BitVec, b: &BitVec) -> (equal: bool)
    requires
        canonical(*a),
        canonical(*b),
    ensures
        equal == (bits(*a) == bits(*b)),
{
    proof {
        if bits(*a) == bits(*b) {
            lemma_filled_injective(slots(*a), slots(*b));
        }
    }
    bit_vec_eq(a, b)
}

/// A canonical vector with the bits of `v`, read index by index; `None`
/// where `v` yields no bit at some index below its length.
pub fn rebuilt(v: &BitVec) -> (copy: Option<BitVec>)
    ensures
        copy is Some == complete(*v),
        copy matches Some(c) ==> bits(c) == bits(*v) && canonical(c),
{
    let n = bit_vec_len(v);
    let mut copy = new_bits();
    let mut i: usize = 0;
    assert(bits(*v).take(0) =~= Seq::<bool>::empty());
    while i < n
        invariant
            i <= n,
            n == slots(*v).len(),
            canonical(copy),
            bits(copy) == bits(*v).take(i as int),
            forall|j: int| 0 <= j < i ==> (#[trigger] slots(*v)[j]) is Some,
        decreases n - i,
    {
        match bit_vec_get(v, i) {
            Some(bit) => {
                push_bit(&mut copy, bit);
                assert(bits(*v).take(i + 1) =~= bits(*v).take(i as int).push(bit));
            },
            None => {
                assert(slots(*v)[i as int] is None);
                return None;
            },
        }
        i += 1;
    }
    assert(bits(*v).take(i as int) =~= bits(*v));
    Some(copy)
}

/// The hash code of the bits of a canonical vector.
pub fn hash_bits(v: &BitVec) -> (hash: u64)
    requires
        canonical(*v),
    ensures
        hash == hash_of_bits(bits(*v)),
{
    let n = bit_count(v);
    let mut hash = SEED;
    let mut i: usize = 0;
    assert(bits(*v).take(0) =~= Seq::<bool>::empty());
    while i < n
        invariant
            i <= n,
            n == bits(*v).len(),
            canonical(*v),
            hash == hash_of_bits(bits(*v).take(i as int)),
        decreases n - i,
    {
        assert(bits(*v).take(i + 1).drop_last() == bits(*v).take(i as int));
        hash = mix_bit(hash, bit_at(v, i));
        i += 1;
    }
    assert(bits(*v).take(i as int) == bits(*v));
    hash
}

} // verus!
