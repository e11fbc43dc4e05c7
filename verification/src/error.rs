use vstd::prelude::*;

verus! {

/// What can go wrong while opening, rebuilding or filling a database.
#[derive(Clone, Copy, Debug, PartialEq, Eq, Structural)]
pub enum Error {
    /// The index has no usable slot for another key.
    IndexFull,
    /// The index cannot be laid out with the sizes asked for.
    UnsupportedSize,
    /// What was read back from disk does not describe a database.
    Corrupt,
    /// A file operation failed.
    Io,
}

} // verus!
