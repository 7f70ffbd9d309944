//! The failures that the library reports.

use vstd::prelude::*;

verus! {

/// Why an operation of the library failed.
#[derive(Clone, Copy, Debug, PartialEq, Eq, Structural)]
pub enum StorageError {
    /// Encoded bytes are shorter than their layout requires, or malformed.
    Corruption,
    /// A table was asked for although no entry had been added.
    EmptyTable,
    /// A table has outgrown what the 32-bit offsets of its footer and of its
    /// block index can address.
    TableTooLarge,
    /// A source outside the library (a file, a device) failed.
    Io,
}

impl StorageError {
    /// The text of `message`.
    pub open spec fn description(self) -> Seq<char> {
        match self {
            StorageError::Corruption => "encoded bytes are truncated or malformed"@,
            StorageError::EmptyTable => "a table needs at least one entry"@,
            StorageError::TableTooLarge => "table exceeds the range of 32-bit offsets"@,
            StorageError::Io => "an outside source failed"@,
        }
    }

    /// A short description of the failure.
    pub fn message(&self) -> (s: &'static str)
        ensures
            s@ == self.description(),
    {
        match self {
            StorageError::Corruption => "encoded bytes are truncated or malformed",
            StorageError::EmptyTable => "a table needs at least one entry",
            StorageError::TableTooLarge => "table exceeds the range of 32-bit offsets",
            StorageError::Io => "an outside source failed",
        }
    }
}

} // verus!
