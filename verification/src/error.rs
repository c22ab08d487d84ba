//! Failures that the library reports.

use vstd::prelude::*;

verus! {

/// What was found wrong with a sequence collection or its index.
#[derive(Clone, Copy, Debug, PartialEq, Eq, Structural)]
pub enum FormatError {
    /// The collection cannot be indexed: a header line lacks its `>` or its
    /// name, a record has no bases, or a line that is not the last of its
    /// record differs from the record's first line in bases or in width.
    Collection,
    /// The index does not describe the collection it is used with, or the
    /// index text cannot be read.
    Index,
}

/// Why an extraction stopped.
#[derive(Clone, Copy, Debug, PartialEq, Eq, Structural)]
pub enum Error {
    /// The collection or its index is malformed.
    Format(FormatError),
    /// A region names a record that the index does not hold.
    NotFound,
    /// Coordinates lie outside `1 <= start <= end <= length`.
    Range,
    /// A region to reverse holds a symbol that has no complement.
    Complement,
    /// Reading from the collection failed.
    Io,
    /// A line of a regions list does not stand for a region.
    Parse,
}

} // verus!
