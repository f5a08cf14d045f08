//! The ways in which an operation on a count table can fail.
use vstd::prelude::*;

verus! {

/// Why an operation on a count table failed.
#[derive(Debug, Clone, Copy, PartialEq, Eq, Structural)]
pub enum TableError {
    /// A k-mer's length differs from the table's k.
    WrongLength,
    /// A k-mer holds a letter other than `A`, `C`, `G`, `T` (of either case).
    InvalidCharacter,
    /// The window starting at this position of a sequence is not DNA.
    BadKmer(u64),
    /// Two tables of different k met in one operation.
    IncompatibleTables,
    /// The table does not keep k-mer text, or two sort orders were asked for.
    UnsupportedOperation,
    /// No k-mer text is kept for this hash.
    NotFound,
}

} // verus!
