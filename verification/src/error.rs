//! What can go wrong while a file image is read or written.

use vstd::prelude::*;

verus! {

/// A byte that is not the tag of any kind of function.
#[derive(Debug, Clone, Copy, PartialEq, Eq, Structural)]
pub struct InvalidTag {
    pub tag: u8,
}

/// The ways in which bytes can fail to have the layout of a table.
#[derive(Debug, Clone, Copy, PartialEq, Eq, Structural)]
pub enum FormatFault {
    /// The first four bytes hold `found` and not the signature.
    Signature { found: u32 },
    /// The record at `index` has `tag` where the tag of a kind belongs.
    Kind { index: usize, tag: u8 },
}

/// The values that have no room in the field that stores them.
#[derive(Debug, Clone, Copy, PartialEq, Eq, Structural)]
pub enum Oversize {
    /// The name of the record at `index` takes `len` bytes, more than 255.
    Name { index: usize, len: usize },
    /// There are `count` records, more than a 32-bit count can say.
    Count { count: usize },
}

/// An error of the codec.
#[derive(Debug, Clone, Copy, PartialEq, Eq, Structural)]
pub enum NtlError {
    /// The bytes are not a table: wrong signature or an unknown kind.
    Format(FormatFault),
    /// The bytes end inside the field that starts at byte `offset`.
    Truncation { offset: usize },
    /// The name of the record at `index` is not UTF-8.
    Encoding { index: usize },
    /// A value does not fit the width of its field.
    ValueTooLarge(Oversize),
}

} // verus!
