//! Compact unique-identifier generator.
//!
//! Identifiers are fixed-width text strings built from a random prefix and a
//! stepped, wrap-around sequence counter, both rendered through a fixed
//! numeral alphabet. Within one prefix epoch the counter never repeats, so a
//! single generator never emits the same identifier twice before its prefix
//! rotates; across generators, collision odds rest on the random prefix.

use vstd::prelude::*;

pub mod alphabet;
pub mod codec;
pub mod configs;
mod entropy;
mod generator;
pub mod shared;

pub use alphabet::Alphabet;
pub use generator::LID;
pub use shared::SharedLid;

verus! {

/// A configuration was rejected at construction time; no identifier
/// generation is attempted with an invalid configuration.
#[derive(Debug, Clone, Copy, PartialEq, Eq, Structural)]
pub enum ConfigError {
    /// The alphabet holds no symbols at all.
    EmptyAlphabet,
    /// An alphabet symbol is not a printable one-byte character.
    UnprintableSymbol,
    /// The same symbol occurs twice in the alphabet.
    DuplicateSymbol,
    /// The requested prefix length is zero.
    ZeroPrefixLength,
    /// The requested sequence length is zero.
    ZeroSequenceLength,
    /// The increment bounds do not satisfy `1 <= min < max`.
    InvalidIncrementRange,
    /// Prefix length plus sequence length does not fit in `usize`.
    IdLengthOverflow,
    /// The alphabet base raised to the sequence length does not fit in `u64`.
    SequenceRangeOverflow,
    /// An explicitly supplied counter value is not below the counter range.
    SequenceOutOfRange,
    /// An explicitly supplied prefix holds a byte outside the alphabet.
    ForeignPrefixSymbol,
}

/// The validating generation mode could not confirm that every rendered byte
/// belongs to the configured alphabet. With a validated alphabet this is
/// proved never to occur.
#[derive(Debug, Clone, Copy, PartialEq, Eq, Structural)]
pub struct InvalidEncoding;

} // verus!
