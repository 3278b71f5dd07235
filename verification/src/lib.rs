//! Static Huffman coding over an alphabet of tokens (characters or
//! whitespace-delimited words), with machine-checked contracts.
//!
//! A corpus is an ordered list of lines. Compressing it counts how often each
//! token occurs, builds the prefix-code tree by repeatedly merging the two
//! lightest nodes, derives the token-to-code table from the tree, packs every
//! line into a bit sequence and serialises table and lines into one blob.
//! Extracting reverses each step.
//!
//! - [`token`]: what a token is, and the two ways to split a line into
//!   tokens and to join tokens into a line.
//! - [`freqs`]: the frequency map and the counting of tokens.
//! - [`huffman`]: the tree and its construction.
//! - [`optimal`]: that no tree over the same counts gives shorter codes.
//! - [`table`]: the code tables that a tree gives rise to.
//! - [`codec`]: the encoding and decoding of a line.
//! - [`compression`]: [`compression::compress`] and
//!   [`compression::extract`], and that one undoes the other.
//! - [`blob`]: the serialised form of a compressed document.
//! - [`bits`]: bit sequences. [`index`]: lookup by hash code.
//! - [`error`]: the failures.

pub mod bits;
pub mod blob;
pub mod codec;
pub mod compression;
pub mod error;
pub mod freqs;
pub mod huffman;
pub mod index;
pub mod optimal;
pub mod table;
pub mod token;
