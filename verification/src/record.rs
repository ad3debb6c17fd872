//! The records that hold a site: its manifest and its shards.

use crate::tree::{clamp, count_files_in_directory, file_count, Directory};
use vstd::prelude::*;

verus! {

/// The root record of a site.
#[derive(Debug, PartialEq, Eq)]
pub struct Manifest {
    /// Name of the site, and key of the record.
    pub site: String,
    pub root: Directory,
    /// Files in `root` itself: files behind shard references belong to the
    /// counts of their shards.
    pub file_count: usize,
    /// When the record was made.
    pub created_at: String,
}

/// A record that holds a subtree of a site.
#[derive(Debug, PartialEq, Eq)]
pub struct ShardRecord {
    pub root: Directory,
    /// Files in `root` itself.
    pub file_count: usize,
    /// When the record was made.
    pub created_at: String,
}

impl Manifest {
    /// Whether the count is that of the tree.
    pub open spec fn wf(&self) -> bool {
        self.file_count == clamp(file_count(self.root@))
    }

    /// The manifest of the site `site` with the tree `root`.
    pub fn new(site: String, root: Directory, created_at: String) -> (manifest: Manifest)
        ensures
            manifest.wf(),
            manifest.site == site,
            manifest.root == root,
            manifest.created_at == created_at,
    {
        let file_count = count_files_in_directory(&root);
        Manifest { site, root, file_count, created_at }
    }
}

impl ShardRecord {
    /// Whether the count is that of the tree.
    pub open spec fn wf(&self) -> bool {
        self.file_count == clamp(file_count(self.root@))
    }

    /// The shard record for the tree `root`.
    pub fn new(root: Directory, created_at: String) -> (record: ShardRecord)
        ensures
            record.wf(),
            record.root == root,
            record.created_at == created_at,
    {
        let file_count = count_files_in_directory(&root);
        ShardRecord { root, file_count, created_at }
    }
}

} // verus!
