//! The blob: a compressed document as one sequence of bytes.
//!
//! A blob is the MessagePack form of a pair: the code table as a map from
//! token text to code, its keys in ascending order, and the list of the
//! lines' bit sequences. `rmp_serde` writes and reads it; what it writes for
//! a document is named [`packed`], what it reads from bytes [`unpacked`].

use crate::bits::{all_canonical, bit_lines, bits, canonical, copy_bits, filled, rebuilt, slots};
use crate::compression::CompressedData;
use crate::table::{Code, Encoder};
use crate::error::HuffmanError;
use crate::token::Token;
use bit_vec::BitVec;
use std::collections::BTreeMap;
use vstd::prelude::*;

verus! {

#[verifier::external_type_specification]
#[verifier::external_body]
pub struct ExEncodeError(rmp_serde::encode::Error);

#[verifier::external_type_specification]
#[verifier::external_body]
pub struct ExDecodeError(rmp_serde::decode::Error);

/// An entry of a code table as it is read from a blob: a text, and what the
/// code's vector yields at each index.
pub type RawCode = (Seq<char>, Seq<Option<bool>>);

/// The bytes that `rmp_serde::to_vec` writes for a code table and the bits
/// of the lines, or `None` where it fails.
pub uninterp spec fn packed(table: Seq<Code>, lines: Seq<Seq<bool>>) -> Option<Seq<u8>>;

/// The record that `rmp_serde::from_slice` reads from bytes, or `None` where
/// it fails.
pub uninterp spec fn unpacked(bytes: Seq<u8>) -> Option<(Seq<RawCode>, Seq<Seq<Option<bool>>>)>;

/// The entries of a table that is about to be written, as texts and bits.
pub open spec fn named_codes(table: Seq<(String, BitVec)>) -> Seq<Code> {
    Seq::new(table.len(), |i: int| (table[i].0@, bits(table[i].1)))
}

/// The entries of a table that was read, as texts and slots.
pub open spec fn raw_codes(table: Seq<(String, BitVec)>) -> Seq<RawCode> {
    Seq::new(table.len(), |i: int| (table[i].0@, slots(table[i].1)))
}

/// The slots of each vector, one for one.
pub open spec fn slot_lines(lines: Seq<BitVec>) -> Seq<Seq<Option<bool>>> {
    Seq::new(lines.len(), |i: int| slots(lines[i]))
}

/// `rmp_serde::to_vec` on the pair of the table, as a `BTreeMap` from text
/// to code, and the lines: the MessagePack bytes of that pair, a function of
/// the texts and bits alone because every vector is canonical and the map is
/// walked in the order of its keys.
#[verifier::external_body]
fn pack(table: &Vec<(String, BitVec)>, lines: &Vec<BitVec>) -> (blob: Result<
    Vec<u8>,
    rmp_serde::encode::Error,
>)
    requires
        forall|i: int| 0 <= i < table@.len() ==> canonical((#[trigger] table@[i]).1),
        all_canonical(lines@),
    ensures
        match blob {
            Ok(bytes) => packed(named_codes(table@), bit_lines(lines@)) == Some(bytes@),
            Err(_) => packed(named_codes(table@), bit_lines(lines@)) is None,
        },
{
    let map: BTreeMap<&String, &BitVec> = table.iter().map(|entry| (&entry.0, &entry.1)).collect();
    rmp_serde::to_vec(&(map, lines))
}

/// `rmp_serde::from_slice` for the pair of a `BTreeMap` from text to code
/// and a list of lines: the record that the bytes hold, the table's entries
/// in the order of their keys. The vectors are as the bytes describe them,
/// canonical or not.
#[verifier::external_body]
fn unpack(bytes: &[u8]) -> (record: Result<
    (Vec<(String, BitVec)>, Vec<BitVec>),
    rmp_serde::decode::Error,
>)
    ensures
        match record {
            Ok((table, lines)) => unpacked(bytes@) == Some(
                (raw_codes(table@), slot_lines(lines@)),
            ),
            Err(_) => unpacked(bytes@) is None,
        },
{
    let (map, lines): (BTreeMap<String, BitVec>, Vec<BitVec>) = rmp_serde::from_slice(bytes)?;
    Ok((map.into_iter().collect(), lines))
}

/// Every slot holds a bit.
pub open spec fn all_some(slots: Seq<Option<bool>>) -> bool {
    forall|i: int| 0 <= i < slots.len() ==> (#[trigger] slots[i]) is Some
}

/// Whether a record that was read is a document with tokens of kind `T`:
/// every text is that of a token, and every code and every line has a bit
/// at each index.
pub open spec fn acceptable<T: Token>(table: Seq<RawCode>, lines: Seq<Seq<Option<bool>>>) -> bool {
    &&& forall|i: int| 0 <= i < table.len() ==> T::is_text((#[trigger] table[i]).0)
    &&& forall|i: int| 0 <= i < table.len() ==> all_some((#[trigger] table[i]).1)
    &&& forall|i: int| 0 <= i < lines.len() ==> all_some(#[trigger] lines[i])
}

/// The code table of a record that was read.
pub open spec fn table_of(table: Seq<RawCode>) -> Seq<Code> {
    Seq::new(table.len(), |i: int| (table[i].0, filled(table[i].1)))
}

/// The lines of a record that was read.
pub open spec fn lines_of(lines: Seq<Seq<Option<bool>>>) -> Seq<Seq<bool>> {
    Seq::new(lines.len(), |i: int| filled(lines[i]))
}

/// The document that bytes hold for tokens of kind `T`, if they hold one.
pub open spec fn document_in<T: Token>(bytes: Seq<u8>) -> Option<(Seq<Code>, Seq<Seq<bool>>)> {
    match unpacked(bytes) {
        Some((table, lines)) => if acceptable::<T>(table, lines) {
            Some((table_of(table), lines_of(lines)))
        } else {
            None
        },
        None => None,
    }
}

/// Turns a record that was read into a document: every text into its
/// token, every vector into a canonical one.
pub fn document_from<T: Token>(table: Vec<(String, BitVec)>, lines: Vec<BitVec>) -> (document:
    Result<CompressedData<T>, HuffmanError>)
    ensures
        match document {
            Ok(found) => {
                &&& acceptable::<T>(raw_codes(table@), slot_lines(lines@))
                &&& found.encoder@ == table_of(raw_codes(table@))
                &&& bit_lines(found.data@) == lines_of(slot_lines(lines@))
                &&& found.wf()
            },
            Err(e) => e == HuffmanError::Serialization && !acceptable::<T>(
                raw_codes(table@),
                slot_lines(lines@),
            ),
        },
{
    let ghost raw = raw_codes(table@);
    let ghost raw_lines = slot_lines(lines@);
    let mut encoder: Encoder<T> = Encoder::new();
    let mut i: usize = 0;
    while i < table.len()
        invariant
            i <= table@.len(),
            raw == raw_codes(table@),
            encoder.wf(),
            encoder@ == table_of(raw.take(i as int)),
            forall|j: int| 0 <= j < i ==> T::is_text((#[trigger] raw[j]).0) && all_some(raw[j].1),
        decreases table.len() - i,
    {
        let token = match T::from_text(&table[i].0) {
            Some(token) => token,
            None => {
                assert(!T::is_text(raw[i as int].0));
                return Err(HuffmanError::Serialization);
            },
        };
        let code = match rebuilt(&table[i].1) {
            Some(code) => code,
            None => {
                assert(!all_some(raw[i as int].1));
                return Err(HuffmanError::Serialization);
            },
        };
        encoder.push(token, code);
        assert(encoder@ =~= table_of(raw.take(i + 1)));
        i += 1;
    }
    assert(raw.take(i as int) == raw);
    let mut data: Vec<BitVec> = Vec::new();
    let mut k: usize = 0;
    while k < lines.len()
        invariant
            k <= lines@.len(),
            raw_lines == slot_lines(lines@),
            data@.len() == k,
            all_canonical(data@),
            forall|j: int| 0 <= j < k ==> bits(#[trigger] data@[j]) == filled(raw_lines[j]),
            forall|j: int| 0 <= j < k ==> all_some(#[trigger] raw_lines[j]),
        decreases lines.len() - k,
    {
        let line = match rebuilt(&lines[k]) {
            Some(line) => line,
            None => {
                assert(!all_some(raw_lines[k as int]));
                return Err(HuffmanError::Serialization);
            },
        };
        data.push(line);
        k += 1;
    }
    assert(bit_lines(data@) =~= lines_of(raw_lines));
    Ok(CompressedData { encoder, data })
}

/// Writes a document into a blob.
pub fn serialize<T: Token>(document: &CompressedData<T>) -> (blob: Result<Vec<u8>, HuffmanError>)
    requires
        document.wf(),
    ensures
        match blob {
            Ok(bytes) => packed(document.encoder@, bit_lines(document.data@)) == Some(bytes@),
            Err(e) => e == HuffmanError::Serialization && packed(
                document.encoder@,
                bit_lines(document.data@),
            ) is None,
        },
{
    let mut table: Vec<(String, BitVec)> = Vec::new();
    let mut i: usize = 0;
    while i < document.encoder.len()
        invariant
            i <= document.encoder@.len(),
            document.wf(),
            table@.len() == i,
            forall|j: int|
                0 <= j < i ==> (#[trigger] table@[j]).0@ == document.encoder@[j].0 && bits(
                    table@[j].1,
                ) == document.encoder@[j].1 && canonical(table@[j].1),
        decreases document.encoder@.len() - i,
    {
        let text = document.encoder.token_at(i).to_text();
        let code = copy_bits(document.encoder.code_at(i));
        table.push((text, code));
        i += 1;
    }
    assert(named_codes(table@) =~= document.encoder@);
    match pack(&table, &document.data) {
        Ok(bytes) => Ok(bytes),
        Err(_) => Err(HuffmanError::Serialization),
    }
}

/// Reads a document with tokens of kind `T` from a blob.
pub fn deserialize<T: Token>(bytes: &Vec<u8>) -> (document: Result<
    CompressedData<T>,
    HuffmanError,
>)
    ensures
        match document {
            Ok(found) => document_in::<T>(bytes@) == Some(
                (found.encoder@, bit_lines(found.data@)),
            ) && found.wf(),
            Err(e) => e == HuffmanError::Serialization && document_in::<T>(bytes@) is None,
        },
{
    match unpack(bytes.as_slice()) {
        Ok((table, lines)) => document_from(table, lines),
        Err(_) => Err(HuffmanError::Serialization),
    }
}

} // verus!
