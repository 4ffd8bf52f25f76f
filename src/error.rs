use vstd::prelude::*;

verus! {

/// Errors specific to the KFF format.
#[derive(Debug, Clone, PartialEq, Eq)]
pub enum Kff {
    /// Missing magic number at the beginning ("start") or at the end ("end")
    MissingMagic(String),
    /// Major version number is higher than supported (1 or lower)
    HighMajorVersionNumber(u8),
    /// Minor version number is higher than supported (0 or lower)
    HighMinorVersionNumber(u8),
    /// Encoding is not valid: the four pairs of bits must be pairwise different
    BadEncoding(u8),
    /// A Values entry with this name is required but absent
    FieldIsMissing(String),
    /// The value of `max` cannot be used
    MaxValueIsTooLarge(u64),
    /// The minimizer offset of a block, with the minimizer, does not fit in
    /// the block's sequence
    MinimizerOffsetOutOfRange(u64),
    /// Footer size does not lead to a Values section
    FooterSizeNotCorrect,
    /// Not a valid section prefix
    NotASectionPrefix(u8),
    /// The section at this position is not an Index section
    NotAnIndex,
    /// No `first_index` in the footer
    NoFirstIndex,
    /// No global index was loaded
    NoIndex,
    /// No Values section before the target section
    NoValueSectionBeforeTarget,
    /// The target section is not a k-mer section
    NotAKmerSection,
}

/// The error of `String::from_utf8`, carried through unchanged.
#[verifier::external_type_specification]
#[verifier::external_body]
pub struct ExFromUtf8Error(std::string::FromUtf8Error);

/// Errors of this library.
#[derive(Debug)]
pub enum Error {
    /// Format error
    Kff(Kff),
    /// The input ended before the value being read was complete
    UnexpectedEof,
    /// A Values name is not valid UTF-8
    FromUtf8(std::string::FromUtf8Error),
}

/// Alias of result
pub type Result<T> = core::result::Result<T, Error>;

} // verus!
