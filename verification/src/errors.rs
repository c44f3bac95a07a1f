//! Error taxonomy and the non-fatal conversion warning.

use vstd::prelude::*;

verus! {

/// A failure that aborts the current decode, lookup or reconcile operation.
/// No partially built table, header or reconciled struct is ever published
/// alongside one of these.
#[derive(Clone, Copy, Debug, PartialEq, Eq, Structural)]
pub enum DnaError {
    /// The encoded layout table has a malformed signature or shape.
    FormatError,
    /// Fewer bytes were available than a fixed-size field requires.
    TruncatedInputError,
    /// A type, struct or name index lies outside its table's bounds.
    CorruptIndexError,
    /// The pointer-size marker of a blob is neither 4 nor 8.
    UnsupportedPointerWidthError,
}

/// Why a field conversion was judged lossy.
#[derive(Clone, Copy, Debug, PartialEq, Eq, Structural)]
pub enum LossKind {
    /// No conversion rule is defined for the pair of member types; the
    /// destination field keeps its zero value.
    NoRule,
    /// A numeric conversion narrowed the value's width or changed its
    /// signedness.
    Narrowed,
    /// The destination array holds fewer elements than the source array.
    ShorterArray,
}

/// A non-fatal note that a field conversion lost information.  Warnings are
/// accumulated and returned beside the successful result; they never abort.
#[derive(Debug)]
pub struct LossyConversionWarning {
    /// The member name of the destination field, as spelled in the current
    /// struct definition's name table.
    pub member: Vec<u8>,
    /// What was lost.
    pub kind: LossKind,
}

} // verus!
