//! The ways in which reading and writing parameters can fail.

use vstd::prelude::*;

verus! {

/// Why a parameter section, or one parameter of it, could not be read.
#[derive(Clone, Copy, Debug, PartialEq, Eq, Structural)]
pub enum C3dParseError {
    /// The bytes are not a sequence of well-formed records: a length or an
    /// offset does not agree with the bytes that are there, a type tag or an
    /// id is none of the format, or a record names a group that does not
    /// exist or repeats a name or an id.
    MalformedRecord,
    /// A parameter holds another type of data than the one asked for.
    UnexpectedType,
    /// A parameter has other dimensions than the ones asked for.
    DimensionMismatch,
}

/// Why a typed view could not be read: the parameter that is not of the
/// type and shape that its group documents, and what is wrong with it.
#[derive(Clone, Copy, Debug, PartialEq, Eq)]
pub struct ConversionError {
    /// The name of the group.
    pub group: &'static str,
    /// The name of the parameter.
    pub parameter: &'static str,
    /// `UnexpectedType` or `DimensionMismatch`.
    pub kind: C3dParseError,
}

/// Why a typed view could not be written.
#[derive(Clone, Copy, Debug, PartialEq, Eq, Structural)]
pub enum C3dWriteError {
    /// The group that the parameters belong to was never created, so there is
    /// no id to write into their records.
    UnknownGroupReference,
    /// A grid has more rows, columns or cells than a record can hold.
    DimensionMismatch,
}

} // verus!
