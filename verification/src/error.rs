//! What can go wrong in the engine itself. Failures of the disk and of the
//! network belong to the caller.

use vstd::prelude::*;
use vstd::string::*;

verus! {

/// Why the address of a shard record was refused.
#[derive(Clone, Copy, Debug, PartialEq, Eq, Structural)]
pub enum ReferenceKind {
    /// The address is no record address.
    Malformed,
    /// The address names a record that is no shard.
    WrongRecordKind,
    /// The record could not be fetched.
    Unavailable,
}

/// A shard reference that cannot be followed.
#[derive(Debug, PartialEq, Eq)]
pub struct ReferenceFailure {
    pub kind: ReferenceKind,
    /// The address as it was given.
    pub address: String,
}

/// How the line for a failure of this kind begins.
pub open spec fn failure_heading(kind: ReferenceKind) -> Seq<char> {
    match kind {
        ReferenceKind::Malformed => "Invalid subfs URI: "@,
        ReferenceKind::WrongRecordKind => "Expected place.wisp.subfs collection, got: "@,
        ReferenceKind::Unavailable => "Failed to fetch subfs: "@,
    }
}

impl ReferenceFailure {
    /// A line for the user: what is wrong, then the address.
    pub fn message(&self) -> (text: String)
        ensures
            text@ == failure_heading(self.kind) + self.address@,
    {
        let mut text = match self.kind {
            ReferenceKind::Malformed => "Invalid subfs URI: ".to_owned(),
            ReferenceKind::WrongRecordKind => "Expected place.wisp.subfs collection, got: ".to_owned(),
            ReferenceKind::Unavailable => "Failed to fetch subfs: ".to_owned(),
        };
        text.append(self.address.as_str());
        text
    }
}

/// The step of decoding that failed.
#[derive(Clone, Copy, Debug, PartialEq, Eq, Structural)]
pub enum EncodingFailure {
    /// The bytes are no base64 text.
    Base64,
    /// The bytes are no gzip stream, or the compressor failed.
    Gzip,
    /// The data is too long for its text to fit in memory.
    TooLarge,
}

/// Shards lie inside one another deeper than an expansion follows them, as
/// they do where a shard leads back to itself.
#[derive(Clone, Copy, Debug, PartialEq, Eq, Structural)]
pub struct TooDeep {
    /// The depth that was allowed.
    pub depth: usize,
}

/// The tree could not be brought within its budget.
#[derive(Clone, Copy, Debug, PartialEq, Eq, Structural)]
pub struct BudgetExceeded {
    /// Splits made.
    pub attempts: usize,
    /// Estimated size of the manifest that was reached.
    pub manifest_size: usize,
    /// Files left in the manifest itself.
    pub file_count: usize,
}

} // verus!
