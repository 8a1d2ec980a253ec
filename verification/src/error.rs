//! Why a piece of text was refused.

use vstd::prelude::*;

verus! {

/// The reason a line, or a field of a line, is malformed.
#[derive(Debug, Clone, Copy, PartialEq, Eq, Structural)]
pub enum ParseReason {
    /// The first token of the line names no known kind of record.
    UnknownRecord,
    /// The line has fewer fields than its kind of record requires.
    MissingFields,
    /// The line has a field where none is allowed.
    UnexpectedField,
    /// The location is not of the form `reference:strand:exons`.
    InvalidLocation,
    /// The strand is neither `+` nor `-`.
    InvalidStrand,
    /// An exon is not of the form `start-end` with two numbers in range.
    InvalidInterval,
    /// The exons are not in ascending order, or an exon ends before it starts.
    UnorderedExons,
    /// A read is not of the form `id:identity` with a known identity.
    InvalidRead,
    /// An attribute is not of the form `tag:type:value`, or its value does
    /// not decode under its type.
    InvalidAttribute,
}

} // verus!
