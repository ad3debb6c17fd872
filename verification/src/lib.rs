//! Manifest synchronisation and sharding engine for static sites stored as
//! content-addressed directory trees.

pub mod basis;
pub mod blob_map;
pub mod cid;
pub mod deploy;
pub mod download;
pub mod error;
pub mod expand;
pub mod metadata;
pub mod path;
pub mod pull;
pub mod record;
pub mod redirects;
pub mod resolution;
pub mod round_trip;
pub mod selection;
pub mod serve;
pub mod shard;
pub mod string_map;
pub mod subfs_utils;
pub mod text;
pub mod tree;
