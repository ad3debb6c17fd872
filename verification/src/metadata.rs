//! What is kept beside a pulled site for the next pull.

use crate::string_map::StringMap;
use crate::text::str_eq;
use vstd::prelude::*;
use vstd::string::*;

verus! {

/// Name of the file that holds a site's metadata in its directory.
pub const METADATA_FILE: &'static str = ".wisp-metadata.json";

/// Metadata tracking file CIDs for incremental updates.
#[derive(Debug, Clone)]
pub struct SiteMetadata {
    /// Record CID from the PDS.
    pub record_cid: String,
    /// Map of file paths to their blob CIDs.
    pub file_cids: StringMap<String>,
    /// Timestamp when the site was last synced, in seconds since the epoch.
    pub last_sync: i64,
}

/// `Utc::now().timestamp()` of the crate chrono: the clock's time in
/// seconds. Nothing is known of it.
#[verifier::external_body]
fn unix_now() -> i64 {
    chrono::Utc::now().timestamp()
}

impl SiteMetadata {
    /// Metadata of a sync that ends now.
    pub fn new(record_cid: String, file_cids: StringMap<String>) -> (metadata: Self)
        ensures
            metadata.record_cid == record_cid,
            metadata.file_cids == file_cids,
    {
        SiteMetadata { record_cid, file_cids, last_sync: unix_now() }
    }

    /// Metadata of a sync that ended at `last_sync`.
    pub fn at(record_cid: String, file_cids: StringMap<String>, last_sync: i64) -> (metadata: Self)
        ensures
            metadata.record_cid == record_cid,
            metadata.file_cids == file_cids,
            metadata.last_sync == last_sync,
    {
        SiteMetadata { record_cid, file_cids, last_sync }
    }

    /// Whether a pulled site needs no new pull: the remote record is the one
    /// that was synced, the site's directory exists, and it holds as many
    /// files as were synced.
    pub fn is_current(&self, record_cid: &str, output_exists: bool, files_on_disk: usize) -> (current:
        bool)
        ensures
            current == (self.record_cid@ == record_cid@ && output_exists && files_on_disk
                == self.file_cids.entries().len()),
    {
        str_eq(self.record_cid.as_str(), record_cid) && output_exists && files_on_disk
            == self.file_cids.len()
    }
}

} // verus!
