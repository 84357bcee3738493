use vstd::prelude::*;

verus! {

/// The ways an operation on a snapshot file can fail.
#[derive(Clone, Copy, Debug, PartialEq, Eq, Structural)]
pub enum SnapError {
    /// The file is not a snapshot file: wrong magic tag, a required
    /// region is missing, or encoded content is malformed.
    Format,
    /// A page read returned fewer than a full page of bytes: the file
    /// is truncated or otherwise damaged at that page.
    Corrupt,
    /// The same page number was written twice through one writer.
    DuplicatePage,
}

} // verus!
