//! The errors of the page layer.

use vstd::prelude::*;

verus! {

/// What can go wrong in the page layer.
#[derive(Clone, Copy, Debug, PartialEq, Eq, Structural)]
pub enum PageError {
    /// The page has no room for what was to be stored.
    InsufficientSpace,
    /// The slot does not exist or was removed.
    InvalidSlot,
    /// No page with the requested identifier exists.
    PageNotFound,
    /// Reading from or writing to durable storage failed.
    IOFailure,
    /// A stored checksum does not match the data it covers.
    ChecksumMismatch,
}

impl PageError {
    /// What the error says, in words.
    pub open spec fn text(&self) -> Seq<char> {
        match self {
            PageError::InsufficientSpace => "Not enough free space"@,
            PageError::InvalidSlot => "No record under this slot"@,
            PageError::PageNotFound => "No page with this identifier"@,
            PageError::IOFailure => "Reading or writing a page failed"@,
            PageError::ChecksumMismatch => "Checksum does not match"@,
        }
    }

    /// What the error says, in words.
    pub fn message(&self) -> (m: &'static str)
        ensures
            m@ == self.text(),
    {
        match self {
            PageError::InsufficientSpace => "Not enough free space",
            PageError::InvalidSlot => "No record under this slot",
            PageError::PageNotFound => "No page with this identifier",
            PageError::IOFailure => "Reading or writing a page failed",
            PageError::ChecksumMismatch => "Checksum does not match",
        }
    }
}

} // verus!
