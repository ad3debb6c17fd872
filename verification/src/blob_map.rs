//! The flat view of a tree: each file's path with its blob reference and
//! content identifier.

use crate::path::{base_segments, child_path, join_path, lemma_split_child, no_slash, split_path};
use crate::string_map::StringMap;
use crate::tree::{BlobRef, BlobRefView, Directory, EntryNode, EntryView, FileView, NodeView};
use vstd::prelude::*;
use vstd::string::*;

verus! {

/// What a blob map holds for a path.
#[derive(Debug, PartialEq, Eq)]
pub struct BlobInfo {
    pub blob: BlobRef,
    /// Content identifier of the blob.
    pub cid: String,
}

/// What a blob map holds for a path, as contracts see it.
pub struct BlobInfoView {
    pub blob: BlobRefView,
    pub cid: Seq<char>,
}

impl View for BlobInfo {
    type V = BlobInfoView;

    open spec fn view(&self) -> BlobInfoView {
        BlobInfoView { blob: self.blob@, cid: self.cid@ }
    }
}

impl Clone for BlobInfo {
    fn clone(&self) -> (copy: Self)
        ensures
            copy@ == self@,
    {
        BlobInfo { blob: self.blob.clone(), cid: self.cid.clone() }
    }
}

/// Paths of files with their blobs.
pub type BlobMap = StringMap<BlobInfo>;

/// What the blob map holds for a file.
pub open spec fn info_of(f: FileView) -> BlobInfoView {
    BlobInfoView { blob: f.blob, cid: f.blob.cid }
}

/// The files below `entries`, each under its path from the root, `prefix`
/// being the path of `entries` themselves. Shard references and unknown
/// nodes add nothing. Where two files have one path, the later one counts.
pub open spec fn blob_map_of(entries: Seq<EntryView>, prefix: Seq<char>) -> Map<
    Seq<char>,
    BlobInfoView,
>
    decreases entries,
{
    if entries.len() == 0 {
        Map::empty()
    } else {
        let path = child_path(prefix, entries.last().name);
        let before = blob_map_of(entries.drop_last(), prefix);
        match entries.last().node {
            NodeView::File(f) => before.insert(path, info_of(f)),
            NodeView::Directory(sub) => before.union_prefer_right(blob_map_of(sub, path)),
            NodeView::Subfs(_) => before,
            NodeView::Unknown => before,
        }
    }
}

fn collect_blobs(directory: &Directory, current_path: &str, blob_map: &mut BlobMap)
    ensures
        final(blob_map)@ == old(blob_map)@.union_prefer_right(
            blob_map_of(directory@, current_path@),
        ),
        old(blob_map).wf() ==> final(blob_map).wf(),
    decreases directory,
{
    let ghost start = blob_map@;
    let mut i: usize = 0;
    assert(start.union_prefer_right(Map::empty()) =~= start);
    while i < directory.entries.len()
        invariant
            i <= directory.entries.len(),
            blob_map@ == start.union_prefer_right(
                blob_map_of(directory@.take(i as int), current_path@),
            ),
            old(blob_map).wf() ==> blob_map.wf(),
        decreases directory.entries.len() - i,
    {
        let entry = &directory.entries[i];
        let full_path = join_path(current_path, entry.name.as_str());
        proof {
            assert(directory@.take(i + 1).drop_last() == directory@.take(i as int));
            assert(directory@.take(i + 1).last() == directory@[i as int]);
        }
        let ghost seen = blob_map_of(directory@.take(i as int), current_path@);
        match &entry.node {
            EntryNode::File(file_node) => {
                let info = BlobInfo {
                    blob: file_node.blob.clone(),
                    cid: file_node.blob.cid.clone(),
                };
                blob_map.insert(full_path, info);
                assert(blob_map@ =~= start.union_prefer_right(
                    seen.insert(full_path@, info_of(file_node@)),
                ));
            },
            EntryNode::Directory(subdir) => {
                collect_blobs(subdir, full_path.as_str(), blob_map);
                assert(blob_map@ =~= start.union_prefer_right(
                    seen.union_prefer_right(blob_map_of(subdir@, full_path@)),
                ));
            },
            EntryNode::Subfs(_) => {},
            EntryNode::Unknown => {},
        }
        i += 1;
    }
    proof {
        assert(directory@.take(i as int) == directory@);
    }
}

/// Extract blob information from a directory tree: a map of file paths to
/// their blob refs and CIDs.
pub fn extract_blob_map(directory: &Directory) -> (blob_map: BlobMap)
    ensures
        blob_map@ == blob_map_of(directory@, Seq::<char>::empty()),
        blob_map.wf(),
{
    let mut blob_map: BlobMap = StringMap::new();
    collect_blobs(directory, "", &mut blob_map);
    proof {
        reveal_strlit("");
        assert(""@ =~= Seq::<char>::empty());
        assert(Map::<Seq<char>, BlobInfoView>::empty().union_prefer_right(
            blob_map_of(directory@, Seq::<char>::empty()),
        ) =~= blob_map_of(directory@, Seq::<char>::empty()));
    }
    blob_map
}

/// Extract the blobs of a shard's tree that is mounted at `mount_path`.
pub fn extract_subfs_blobs(directory: &Directory, mount_path: &str) -> (blob_map: BlobMap)
    ensures
        blob_map@ == blob_map_of(directory@, mount_path@),
        blob_map.wf(),
{
    let mut blob_map: BlobMap = StringMap::new();
    collect_blobs(directory, mount_path, &mut blob_map);
    proof {
        assert(Map::<Seq<char>, BlobInfoView>::empty().union_prefer_right(
            blob_map_of(directory@, mount_path@),
        ) =~= blob_map_of(directory@, mount_path@));
    }
    blob_map
}

/// The files below `entries`, each with its path, in the order of a walk
/// that visits a subdirectory's content where its entry stands.
pub open spec fn files_in(entries: Seq<EntryView>, prefix: Seq<char>) -> Seq<(Seq<char>, FileView)>
    decreases entries,
{
    if entries.len() == 0 {
        Seq::empty()
    } else {
        let path = child_path(prefix, entries.last().name);
        files_in(entries.drop_last(), prefix) + match entries.last().node {
            NodeView::File(f) => seq![(path, f)],
            NodeView::Directory(sub) => files_in(sub, path),
            NodeView::Subfs(_) => Seq::empty(),
            NodeView::Unknown => Seq::empty(),
        }
    }
}

/// Whether an entry of the name `name` is among `entries`.
pub open spec fn has_name(entries: Seq<EntryView>, name: Seq<char>) -> bool
    decreases entries.len(),
{
    if entries.len() == 0 {
        false
    } else {
        has_name(entries.drop_last(), name) || entries.last().name == name
    }
}

/// Whether every path of the tree names one entry: no name is empty or
/// holds `/`, and no two entries of one directory share a name.
pub open spec fn unique_names(entries: Seq<EntryView>) -> bool
    decreases entries,
{
    if entries.len() == 0 {
        true
    } else {
        let last = entries.last();
        &&& unique_names(entries.drop_last())
        &&& last.name.len() > 0
        &&& no_slash(last.name)
        &&& !has_name(entries.drop_last(), last.name)
        &&& match last.node {
            NodeView::Directory(sub) => unique_names(sub),
            NodeView::File(_) => true,
            NodeView::Subfs(_) => true,
            NodeView::Unknown => true,
        }
    }
}

/// Every path of a blob map lies below the directory that was walked, in
/// one of its entries.
pub proof fn lemma_paths_below(entries: Seq<EntryView>, prefix: Seq<char>, path: Seq<char>)
    requires
        unique_names(entries),
        blob_map_of(entries, prefix).contains_key(path),
    ensures
        split_path(path).len() > base_segments(prefix).len(),
        split_path(path).take(base_segments(prefix).len() as int) == base_segments(prefix),
        has_name(entries, split_path(path)[base_segments(prefix).len() as int]),
    decreases entries,
{
    let base = base_segments(prefix);
    let last = entries.last();
    let own = child_path(prefix, last.name);
    let before = blob_map_of(entries.drop_last(), prefix);
    lemma_split_child(prefix, last.name);
    match last.node {
        NodeView::File(f) => {
            if path == own {
                assert((base + seq![last.name]).take(base.len() as int) == base);
            } else {
                lemma_paths_below(entries.drop_last(), prefix, path);
            }
        },
        NodeView::Directory(sub) => {
            let inner = blob_map_of(sub, own);
            if inner.contains_key(path) {
                lemma_paths_below(sub, own, path);
                assert(base_segments(own) == base + seq![last.name]);
                let longer = split_path(path).take(base_segments(own).len() as int);
                assert(longer == base + seq![last.name]);
                assert(split_path(path).take(base.len() as int) == longer.take(base.len() as int));
                assert(longer.take(base.len() as int) == base);
                assert(split_path(path)[base.len() as int] == longer[base.len() as int]);
            } else {
                lemma_paths_below(entries.drop_last(), prefix, path);
            }
        },
        NodeView::Subfs(_) => {
            lemma_paths_below(entries.drop_last(), prefix, path);
        },
        NodeView::Unknown => {
            lemma_paths_below(entries.drop_last(), prefix, path);
        },
    }
}

/// Every file of a tree stands in its blob map.
///
/// In a tree where every path names one entry, the blob map holds, under
/// the path of each file, that file's blob and its content identifier. So
/// a deploy that finds the tree of the deploy before it, and a file whose
/// content identifier is still the one stored there, uses the stored blob
/// again.
pub proof fn lemma_files_in_blob_map(entries: Seq<EntryView>, prefix: Seq<char>, i: int)
    requires
        unique_names(entries),
        0 <= i < files_in(entries, prefix).len(),
    ensures
        blob_map_of(entries, prefix).contains_key(files_in(entries, prefix)[i].0),
        blob_map_of(entries, prefix)[files_in(entries, prefix)[i].0] == info_of(
            files_in(entries, prefix)[i].1,
        ),
    decreases entries,
{
    let base = base_segments(prefix);
    let last = entries.last();
    let earlier = entries.drop_last();
    let own = child_path(prefix, last.name);
    let before = blob_map_of(earlier, prefix);
    let listed = files_in(earlier, prefix);
    let path = files_in(entries, prefix)[i].0;
    lemma_split_child(prefix, last.name);
    assert((base + seq![last.name])[base.len() as int] == last.name);
    if i < listed.len() {
        assert(files_in(entries, prefix)[i] == listed[i]);
        lemma_files_in_blob_map(earlier, prefix, i);
        lemma_paths_below(earlier, prefix, path);
        match last.node {
            NodeView::Directory(sub) => {
                let inner = blob_map_of(sub, own);
                if inner.contains_key(path) {
                    lemma_paths_below(sub, own, path);
                    assert(base_segments(own) == base + seq![last.name]);
                    let longer = split_path(path).take(base_segments(own).len() as int);
                    assert(split_path(path)[base.len() as int] == longer[base.len() as int]);
                }
            },
            _ => {},
        }
    } else {
        match last.node {
            NodeView::Directory(sub) => {
                let j = i - listed.len();
                assert(files_in(entries, prefix)[i] == files_in(sub, own)[j]);
                lemma_files_in_blob_map(sub, own, j);
            },
            _ => {},
        }
    }
}

} // verus!
