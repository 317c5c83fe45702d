//! A lossless Huffman compression engine: frequency analysis of a byte
//! stream, construction of a prefix-code tree with a deterministic
//! tie-break, derivation of a per-symbol code table, bit-level packing and
//! unpacking of the payload, and a self-describing container format with a
//! four-byte big-endian length prefix ahead of the header.

use vstd::prelude::*;

pub mod bits;
pub mod container;
pub mod counter;
pub mod encoder;
pub mod frequency;
pub mod heap;
pub mod queue;
pub mod sorter;
pub mod tree;
pub mod utils;

verus! {

/// The error kinds the engine can surface. No error is retried or silently
/// recovered; every failure is an explicit result returned to the caller.
#[derive(Clone, Copy, Debug, PartialEq, Eq, Structural)]
pub enum HuffmanError {
    /// Frequency analysis received zero bytes; encoding must not proceed.
    EmptyInput,
    /// An encode-time code lookup found no entry for an input byte.
    UnknownSymbol,
    /// The header length exceeds the stream, the structured parse failed,
    /// or the frequency table is empty.
    MalformedHeader,
    /// The padding value lies outside 0..=7.
    InvalidPadding,
    /// The bit walk did not land exactly on the root after consuming all
    /// valid bits.
    TruncatedPayload,
}

} // verus!
