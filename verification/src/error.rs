use vstd::prelude::*;

verus! {

/// The failures a [`crate::Database`] reports.  Every operation that can
/// fail returns one of these; none of them aborts the process.
#[derive(Clone, Copy, Debug, PartialEq, Eq, Structural)]
pub enum DatabaseError {
    /// An insertion found an equal record already stored while the strict
    /// duplicate policy was on.
    DupeFound,
    /// A removal, replacement or query matched no stored record.
    ItemNotFound,
    /// A load was asked for a path with no file behind it.
    DatabaseNotFound,
    /// No usable file stem could be taken from a path when deriving a label.
    BadDbName,
    /// A byte image did not have the shape a database image must have.
    DecodeFailed,
}

} // verus!
