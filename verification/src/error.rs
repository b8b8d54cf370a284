//! The conditions under which an operation of this library fails.

use vstd::prelude::*;

verus! {

/// Why an operation was refused.
#[derive(Clone, Copy, Debug, PartialEq, Eq, Structural)]
pub enum Error {
    /// A requested range does not lie inside the buffer it was asked of.
    OutOfRange,
    /// An archive's lengths, offsets or entry count do not fit together.
    CorruptArchive,
    /// The entries are too many or too long for the archive's 32-bit offsets.
    ArchiveTooLarge,
}

impl Error {
    /// A short description of the condition.
    pub fn describe(&self) -> (text: &'static str)
        ensures
            text@ == match *self {
                Error::OutOfRange => "range lies outside the buffer"@,
                Error::CorruptArchive => "archive is malformed"@,
                Error::ArchiveTooLarge => "entries do not fit a 32-bit archive"@,
            },
    {
        match self {
            Error::OutOfRange => "range lies outside the buffer",
            Error::CorruptArchive => "archive is malformed",
            Error::ArchiveTooLarge => "entries do not fit a 32-bit archive",
        }
    }
}

} // verus!
