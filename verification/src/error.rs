//! What can go wrong, and how much was done before it did.
use vstd::prelude::*;

verus! {

/// Why a decoding stopped.
#[derive(Debug, Clone, Copy, PartialEq, Eq, Structural)]
pub enum DecodeKind {
    /// The input has a length that no encoding has.
    Length,
    /// The input holds a byte that is no symbol.
    Symbol,
    /// The bits behind the last whole byte are not zero.
    Trailing,
    /// The padding is not where or what it must be.
    Padding,
    /// The output buffer is too small.
    BufferTooSmall,
    /// The number outgrew the big integer.
    Overflow,
}

/// A decoding error and the place in the input where it was found.
#[derive(Debug, Clone, Copy, PartialEq, Eq, Structural)]
pub struct DecodeError {
    /// The index of the offending input byte.
    pub position: usize,
    /// What is wrong there.
    pub kind: DecodeKind,
}

/// Why an encoding stopped.
#[derive(Debug, Clone, Copy, PartialEq, Eq, Structural)]
pub enum EncodeKind {
    /// The output buffer is too small.
    BufferTooSmall,
    /// The input, or the length of its encoding, is too large.
    Overflow,
}

/// An encoding error.
#[derive(Debug, Clone, Copy, PartialEq, Eq, Structural)]
pub struct EncodeError {
    /// What went wrong.
    pub kind: EncodeKind,
}

/// A decoding that stopped early: the first `read` input bytes were decoded to the
/// first `written` output bytes before `error` was found.
#[derive(Debug, Clone, Copy, PartialEq, Eq, Structural)]
pub struct DecodePartial {
    /// How many input bytes were decoded.
    pub read: usize,
    /// How many output bytes they gave.
    pub written: usize,
    /// What stopped the decoding.
    pub error: DecodeError,
}

impl DecodeKind {
    /// A few words for the kind of error.
    pub fn message(&self) -> (r: &'static str)
        ensures
            r@ == match *self {
                DecodeKind::Length => "invalid length"@,
                DecodeKind::Symbol => "invalid symbol"@,
                DecodeKind::Trailing => "non-zero trailing bits"@,
                DecodeKind::Padding => "invalid padding"@,
                DecodeKind::BufferTooSmall => "buffer too small"@,
                DecodeKind::Overflow => "overflow"@,
            },
    {
        match self {
            DecodeKind::Length => "invalid length",
            DecodeKind::Symbol => "invalid symbol",
            DecodeKind::Trailing => "non-zero trailing bits",
            DecodeKind::Padding => "invalid padding",
            DecodeKind::BufferTooSmall => "buffer too small",
            DecodeKind::Overflow => "overflow",
        }
    }
}

impl EncodeKind {
    /// A few words for the kind of error.
    pub fn message(&self) -> (r: &'static str)
        ensures
            r@ == match *self {
                EncodeKind::BufferTooSmall => "buffer too small"@,
                EncodeKind::Overflow => "overflow"@,
            },
    {
        match self {
            EncodeKind::BufferTooSmall => "buffer too small",
            EncodeKind::Overflow => "overflow",
        }
    }
}

} // verus!
