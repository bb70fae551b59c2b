//! Canonical, lossless encode/decode layer for a blockchain protocol's
//! identity and numeric primitives: prefixed hexadecimal representations of
//! byte buffers, base-10 text representations of arbitrary-precision
//! non-negative integers, and the fixed-width account key-hash built on top
//! of them.

use vstd::prelude::*;

pub mod decimal;
pub mod layer1;
pub mod pubkey_hash;
pub mod prefixed_hex;

verus! {

/// Errors reported by the decode-side operations of this crate.
///
/// All of these are recoverable, caller-reported conditions; no decode
/// operation panics on any input.
#[derive(Clone, Copy, Debug, PartialEq, Eq, Structural)]
pub enum DecodeError {
    /// The textual value does not start with the exact configured prefix.
    MissingPrefix,
    /// The portion after the prefix is not valid hexadecimal (odd length or
    /// a non-hex character).
    InvalidHex,
    /// A byte buffer's length differs from the required fixed width.
    SizeMismatch,
    /// The textual value cannot be parsed as an arbitrary-precision decimal.
    MalformedNumber,
    /// The parsed decimal value has a non-zero fractional part.
    FractionalValue,
    /// The parsed decimal value is negative.
    NegativeValue,
}

} // verus!
