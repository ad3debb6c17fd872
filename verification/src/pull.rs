//! Bringing a resolved tree onto the local disk: what to copy from the
//! previous snapshot, what to download, and the names of staging
//! directories.

use crate::blob_map::{BlobInfoView, BlobMap};
use crate::path::{child_path, join_path};
use crate::string_map::{entries_map, key_index, lemma_key_index, lemma_key_index_push, StringMap};
use crate::text::{begins_with, starts_with, str_eq, texts};
use crate::tree::{BlobRef, BlobRefView, Directory, EntryNode, EntryView, FileView, NodeView};
use vstd::prelude::*;
use vstd::string::*;

verus! {

/// What to do for one file of the tree.
#[derive(Debug, PartialEq, Eq)]
pub struct FileTask {
    /// The file's path from the site's root.
    pub path: String,
    /// The blob that holds the file.
    pub blob: BlobRef,
    /// Whether the blob is base64 text.
    pub base64: bool,
    /// Whether the blob, decoded, is a gzip stream.
    pub gzip: bool,
    /// Whether the previous snapshot holds this content under this path.
    pub reusable: bool,
}

/// A file task as contracts see it.
pub struct FileTaskView {
    pub path: Seq<char>,
    pub blob: BlobRefView,
    pub base64: bool,
    pub gzip: bool,
    pub reusable: bool,
}

impl View for FileTask {
    type V = FileTaskView;

    open spec fn view(&self) -> FileTaskView {
        FileTaskView {
            path: self.path@,
            blob: self.blob@,
            base64: self.base64,
            gzip: self.gzip,
            reusable: self.reusable,
        }
    }
}

/// How a file comes into the staging directory.
#[derive(Clone, Copy, Debug, PartialEq, Eq, Structural)]
pub enum FileAction {
    /// Copy it from the previous snapshot.
    Copy,
    /// Fetch its blob and decode it.
    Download,
}

impl FileTask {
    /// How the file comes into the staging directory: copied where the
    /// previous snapshot holds its content and the file is still on disk,
    /// downloaded otherwise.
    pub fn action(&self, on_disk: bool) -> (action: FileAction)
        ensures
            action == if self.reusable && on_disk {
                FileAction::Copy
            } else {
                FileAction::Download
            },
    {
        if self.reusable && on_disk {
            FileAction::Copy
        } else {
            FileAction::Download
        }
    }
}

/// Whether the previous snapshot holds, under `path`, the content that the
/// new tree has there.
pub open spec fn unchanged_at(
    path: Seq<char>,
    new_blobs: Map<Seq<char>, BlobInfoView>,
    old_cids: Map<Seq<char>, Seq<char>>,
) -> bool {
    new_blobs.contains_key(path) && old_cids.contains_key(path) && old_cids[path]
        == new_blobs[path].cid
}

/// The task for the file `f` at `path`.
pub open spec fn task_for(
    path: Seq<char>,
    f: FileView,
    new_blobs: Map<Seq<char>, BlobInfoView>,
    old_cids: Map<Seq<char>, Seq<char>>,
) -> FileTaskView {
    FileTaskView {
        path,
        blob: f.blob,
        base64: f.base64 == Some(true),
        gzip: f.encoding == Some("gzip"@),
        reusable: unchanged_at(path, new_blobs, old_cids),
    }
}

/// The tasks for the files below `entries`, a directory's own entries in
/// their order, a subdirectory's files where its entry stands.
pub open spec fn file_tasks(
    entries: Seq<EntryView>,
    prefix: Seq<char>,
    new_blobs: Map<Seq<char>, BlobInfoView>,
    old_cids: Map<Seq<char>, Seq<char>>,
) -> Seq<FileTaskView>
    decreases entries,
{
    if entries.len() == 0 {
        Seq::empty()
    } else {
        let path = child_path(prefix, entries.last().name);
        file_tasks(entries.drop_last(), prefix, new_blobs, old_cids) + match entries.last().node {
            NodeView::File(f) => seq![task_for(path, f, new_blobs, old_cids)],
            NodeView::Directory(sub) => file_tasks(sub, path, new_blobs, old_cids),
            NodeView::Subfs(_) => Seq::empty(),
            NodeView::Unknown => Seq::empty(),
        }
    }
}

/// The paths of the directories below `entries`, each before those inside
/// it.
pub open spec fn directory_paths(entries: Seq<EntryView>, prefix: Seq<char>) -> Seq<Seq<char>>
    decreases entries,
{
    if entries.len() == 0 {
        Seq::empty()
    } else {
        let path = child_path(prefix, entries.last().name);
        directory_paths(entries.drop_last(), prefix) + match entries.last().node {
            NodeView::Directory(sub) => seq![path] + directory_paths(sub, path),
            NodeView::File(_) => Seq::empty(),
            NodeView::Subfs(_) => Seq::empty(),
            NodeView::Unknown => Seq::empty(),
        }
    }
}

/// The paths of the entries below `entries` that cannot be brought to
/// disk: shard references that were not resolved, and unknown nodes.
pub open spec fn skipped_paths(entries: Seq<EntryView>, prefix: Seq<char>) -> Seq<Seq<char>>
    decreases entries,
{
    if entries.len() == 0 {
        Seq::empty()
    } else {
        let path = child_path(prefix, entries.last().name);
        skipped_paths(entries.drop_last(), prefix) + match entries.last().node {
            NodeView::Directory(sub) => skipped_paths(sub, path),
            NodeView::File(_) => Seq::empty(),
            NodeView::Subfs(_) => seq![path],
            NodeView::Unknown => seq![path],
        }
    }
}

/// What a pull has to do.
#[derive(Debug, PartialEq, Eq)]
pub struct PullPlan {
    /// Directories to create, each before those inside it.
    pub directories: Vec<String>,
    /// Files to copy or download.
    pub files: Vec<FileTask>,
    /// Entries left out.
    pub skipped: Vec<String>,
}

/// The views of a list of tasks.
pub open spec fn tasks_view(v: Seq<FileTask>) -> Seq<FileTaskView> {
    Seq::new(v.len(), |i: int| v[i]@)
}

fn is_gzip(encoding: &Option<String>) -> (gzip: bool)
    ensures
        gzip == (crate::tree::opt_text(*encoding) == Some("gzip"@)),
{
    match encoding {
        Some(e) => str_eq(e.as_str(), "gzip"),
        None => false,
    }
}

fn is_unchanged(path: &str, new_blob_map: &BlobMap, existing_file_cids: &StringMap<String>) -> (same:
    bool)
    ensures
        same == unchanged_at(path@, new_blob_map@, existing_file_cids@),
{
    match new_blob_map.get(path) {
        Some(info) => match existing_file_cids.get(path) {
            Some(existing_cid) => str_eq(existing_cid.as_str(), info.cid.as_str()),
            None => false,
        },
        None => false,
    }
}

fn plan_directory(
    dir: &Directory,
    path_prefix: &str,
    new_blob_map: &BlobMap,
    existing_file_cids: &StringMap<String>,
    plan: &mut PullPlan,
)
    ensures
        tasks_view(final(plan).files@) == tasks_view(old(plan).files@) + file_tasks(
            dir@,
            path_prefix@,
            new_blob_map@,
            existing_file_cids@,
        ),
        texts(final(plan).directories@) == texts(old(plan).directories@) + directory_paths(
            dir@,
            path_prefix@,
        ),
        texts(final(plan).skipped@) == texts(old(plan).skipped@) + skipped_paths(
            dir@,
            path_prefix@,
        ),
    decreases dir,
{
    let ghost files0 = tasks_view(plan.files@);
    let ghost dirs0 = texts(plan.directories@);
    let ghost skipped0 = texts(plan.skipped@);
    let mut i: usize = 0;
    proof {
        assert(files0 + Seq::empty() =~= files0);
        assert(dirs0 + Seq::empty() =~= dirs0);
        assert(skipped0 + Seq::empty() =~= skipped0);
    }
    while i < dir.entries.len()
        invariant
            i <= dir.entries.len(),
            tasks_view(plan.files@) == files0 + file_tasks(
                dir@.take(i as int),
                path_prefix@,
                new_blob_map@,
                existing_file_cids@,
            ),
            texts(plan.directories@) == dirs0 + directory_paths(dir@.take(i as int), path_prefix@),
            texts(plan.skipped@) == skipped0 + skipped_paths(dir@.take(i as int), path_prefix@),
        decreases dir.entries.len() - i,
    {
        let entry = &dir.entries[i];
        let current_path = join_path(path_prefix, entry.name.as_str());
        proof {
            assert(dir@.take(i + 1).drop_last() == dir@.take(i as int));
            assert(dir@.take(i + 1).last() == dir@[i as int]);
        }
        let ghost files1 = tasks_view(plan.files@);
        let ghost dirs1 = texts(plan.directories@);
        let ghost skipped1 = texts(plan.skipped@);
        let ghost seen_files = file_tasks(
            dir@.take(i as int),
            path_prefix@,
            new_blob_map@,
            existing_file_cids@,
        );
        let ghost seen_dirs = directory_paths(dir@.take(i as int), path_prefix@);
        let ghost seen_skipped = skipped_paths(dir@.take(i as int), path_prefix@);
        match &entry.node {
            EntryNode::File(file) => {
                let task = FileTask {
                    reusable: is_unchanged(current_path.as_str(), new_blob_map, existing_file_cids),
                    path: current_path,
                    blob: file.blob.clone(),
                    base64: match file.base64 {
                        Some(b) => b,
                        None => false,
                    },
                    gzip: is_gzip(&file.encoding),
                };
                plan.files.push(task);
                proof {
                    assert(tasks_view(plan.files@) =~= files1 + seq![task@]);
                    assert(files1 + seq![task@] =~= files0 + (seen_files + seq![task@]));
                    assert(seen_dirs + Seq::empty() =~= seen_dirs);
                    assert(seen_skipped + Seq::empty() =~= seen_skipped);
                }
            },
            EntryNode::Directory(subdir) => {
                plan.directories.push(current_path.clone());
                proof {
                    assert(texts(plan.directories@) =~= dirs1 + seq![current_path@]);
                }
                plan_directory(
                    subdir,
                    current_path.as_str(),
                    new_blob_map,
                    existing_file_cids,
                    plan,
                );
                proof {
                    let sub_files = file_tasks(
                        subdir@,
                        current_path@,
                        new_blob_map@,
                        existing_file_cids@,
                    );
                    assert(files1 + sub_files =~= files0 + (seen_files + sub_files));
                    let sub_dirs = directory_paths(subdir@, current_path@);
                    assert(dirs1 + seq![current_path@] + sub_dirs =~= dirs0 + (seen_dirs + (
                        seq![current_path@] + sub_dirs)));
                    let sub_skipped = skipped_paths(subdir@, current_path@);
                    assert(skipped1 + sub_skipped =~= skipped0 + (seen_skipped + sub_skipped));
                }
            },
            _ => {
                plan.skipped.push(current_path);
                proof {
                    assert(texts(plan.skipped@) =~= skipped1 + seq![current_path@]);
                    assert(skipped1 + seq![current_path@] =~= skipped0 + (seen_skipped + seq![
                        current_path@,
                    ]));
                    assert(seen_files + Seq::empty() =~= seen_files);
                    assert(seen_dirs + Seq::empty() =~= seen_dirs);
                }
            },
        }
        i += 1;
    }
    proof {
        assert(dir@.take(i as int) == dir@);
    }
}

/// Plan the download of a directory tree: for every file whether the
/// previous snapshot can supply it, every directory to create, and what is
/// left out.
pub fn download_directory(
    dir: &Directory,
    new_blob_map: &BlobMap,
    existing_file_cids: &StringMap<String>,
    path_prefix: String,
) -> (plan: PullPlan)
    ensures
        tasks_view(plan.files@) == file_tasks(
            dir@,
            path_prefix@,
            new_blob_map@,
            existing_file_cids@,
        ),
        texts(plan.directories@) == directory_paths(dir@, path_prefix@),
        texts(plan.skipped@) == skipped_paths(dir@, path_prefix@),
{
    let mut plan = PullPlan { directories: Vec::new(), files: Vec::new(), skipped: Vec::new() };
    proof {
        assert(tasks_view(plan.files@) =~= Seq::empty());
        assert(texts(plan.directories@) =~= Seq::empty());
        assert(texts(plan.skipped@) =~= Seq::empty());
    }
    plan_directory(dir, path_prefix.as_str(), new_blob_map, existing_file_cids, &mut plan);
    proof {
        assert(Seq::<FileTaskView>::empty() + file_tasks(
            dir@,
            path_prefix@,
            new_blob_map@,
            existing_file_cids@,
        ) =~= file_tasks(dir@, path_prefix@, new_blob_map@, existing_file_cids@));
        assert(Seq::<Seq<char>>::empty() + directory_paths(dir@, path_prefix@) =~= directory_paths(
            dir@,
            path_prefix@,
        ));
        assert(Seq::<Seq<char>>::empty() + skipped_paths(dir@, path_prefix@) =~= skipped_paths(
            dir@,
            path_prefix@,
        ));
    }
    plan
}

/// What the names of the staging directories of a site begin with.
pub open spec fn staging_prefix_of(output_name: Seq<char>) -> Seq<char> {
    ".tmp-"@ + output_name + "-"@
}

/// What the names of the staging directories for the site directory
/// `output_name` begin with.
pub fn staging_prefix(output_name: &str) -> (prefix: String)
    ensures
        prefix@ == staging_prefix_of(output_name@),
{
    let mut prefix = ".tmp-".to_owned();
    prefix.append(output_name);
    prefix.append("-");
    prefix
}

/// The name of a new staging directory, `stamp` telling it from others.
pub fn staging_name(output_name: &str, stamp: &str) -> (name: String)
    ensures
        name@ == staging_prefix_of(output_name@) + stamp@,
{
    let mut name = staging_prefix(output_name);
    name.append(stamp);
    name
}

/// Whether an entry beside the site directory is a staging directory that
/// an earlier pull left behind.
pub fn is_stale_staging(entry_name: &str, output_name: &str) -> (stale: bool)
    ensures
        stale == begins_with(entry_name@, staging_prefix_of(output_name@)),
{
    let prefix = staging_prefix(output_name);
    starts_with(entry_name, prefix.as_str())
}

/// The content identifiers of a list of blob entries, first entries first
/// where a path occurs twice.
pub open spec fn cids_of(entries: Seq<(Seq<char>, BlobInfoView)>) -> Map<Seq<char>, Seq<char>>
    decreases entries.len(),
{
    if entries.len() == 0 {
        Map::empty()
    } else {
        let before = cids_of(entries.drop_last());
        if before.contains_key(entries.last().0) {
            before
        } else {
            before.insert(entries.last().0, entries.last().1.cid)
        }
    }
}

/// `cids_of` holds the paths of the blob map, each with the content
/// identifier that the blob map has for it.
pub proof fn lemma_cids_of(entries: Seq<(Seq<char>, BlobInfoView)>)
    ensures
        cids_of(entries).dom() == entries_map(entries).dom(),
        forall|path: Seq<char>| #[trigger]
            entries_map(entries).contains_key(path) ==> cids_of(entries)[path] == entries_map(
                entries,
            )[path].cid,
    decreases entries.len(),
{
    if entries.len() == 0 {
        assert(cids_of(entries).dom() =~= entries_map(entries).dom());
    } else {
        let head = entries.drop_last();
        let last = entries.last();
        lemma_cids_of(head);
        assert(entries == head.push((last.0, last.1)));
        assert forall|path: Seq<char>|
            cids_of(entries).contains_key(path) == entries_map(entries).contains_key(path) by {
            lemma_key_index_push(head, last.0, last.1, path);
            lemma_key_index(head, path);
            assert(cids_of(head).dom().contains(path) == entries_map(head).dom().contains(path));
        }
        assert(cids_of(entries).dom() =~= entries_map(entries).dom());
        assert forall|path: Seq<char>| #[trigger]
            entries_map(entries).contains_key(path) implies cids_of(entries)[path] == entries_map(
            entries,
        )[path].cid by {
            lemma_key_index_push(head, last.0, last.1, path);
            lemma_key_index(head, path);
            assert(cids_of(head).dom().contains(path) == entries_map(head).dom().contains(path));
            if key_index(head, path) < head.len() {
                assert(entries_map(head).contains_key(path));
                assert(entries[key_index(head, path)] == head[key_index(head, path)]);
            }
        }
    }
}

/// Every path of a blob map with its content identifier alone: what is
/// kept beside a pulled site.
pub fn file_cids(blob_map: &BlobMap) -> (cids: StringMap<String>)
    ensures
        cids@ == cids_of(blob_map.entries()),
        cids@.dom() == blob_map@.dom(),
        forall|path: Seq<char>| #[trigger]
            blob_map@.contains_key(path) ==> cids@[path] == blob_map@[path].cid,
        cids.wf(),
{
    proof {
        lemma_cids_of(blob_map.entries());
    }
    let mut cids: StringMap<String> = StringMap::new();
    let mut i: usize = 0;
    while i < blob_map.len()
        invariant
            i <= blob_map.entries().len(),
            cids@ == cids_of(blob_map.entries().take(i as int)),
            cids.wf(),
        decreases blob_map.entries().len() - i,
    {
        proof {
            assert(blob_map.entries().take(i + 1).drop_last() == blob_map.entries().take(i as int));
            assert(blob_map.entries().take(i + 1).last() == blob_map.entries()[i as int]);
        }
        let path = blob_map.key_at(i);
        if !cids.contains_key(path.as_str()) {
            cids.insert(path.clone(), blob_map.value_at(i).cid.clone());
        }
        i += 1;
    }
    proof {
        assert(blob_map.entries().take(i as int) == blob_map.entries());
    }
    cids
}

/// How a path fares between two states of a site.
#[derive(Clone, Copy, Debug, PartialEq, Eq, Structural)]
pub enum Change {
    /// In both, with one content.
    Unchanged,
    /// In both, with different content.
    Changed,
    /// In the new state alone.
    Added,
    /// In the old state alone.
    Removed,
}

/// Whether the entry `path` with the content `cid` fares as `change` says
/// against the other state.
pub open spec fn fares(
    path: Seq<char>,
    cid: Seq<char>,
    other: Map<Seq<char>, Seq<char>>,
    change: Change,
) -> bool {
    match change {
        Change::Unchanged => other.contains_key(path) && other[path] == cid,
        Change::Changed => other.contains_key(path) && other[path] != cid,
        Change::Added => !other.contains_key(path),
        Change::Removed => !other.contains_key(path),
    }
}

/// The paths of `entries`, in their order, that fare as `change` says
/// against `other`.
pub open spec fn paths_that(
    entries: Seq<(Seq<char>, Seq<char>)>,
    other: Map<Seq<char>, Seq<char>>,
    change: Change,
) -> Seq<Seq<char>>
    decreases entries.len(),
{
    if entries.len() == 0 {
        Seq::empty()
    } else {
        let before = paths_that(entries.drop_last(), other, change);
        if fares(entries.last().0, entries.last().1, other, change) {
            before.push(entries.last().0)
        } else {
            before
        }
    }
}

/// The difference between two states of a site, by path and content
/// identifier.
#[derive(Debug, PartialEq, Eq)]
pub struct BlobDiff {
    /// Paths in both states with one content.
    pub unchanged: Vec<String>,
    /// Paths in both states with different content.
    pub changed: Vec<String>,
    /// Paths in the new state alone.
    pub added: Vec<String>,
    /// Paths in the old state alone.
    pub removed: Vec<String>,
}

fn select_paths(entries: &StringMap<String>, other: &StringMap<String>, change: Change) -> (paths:
    Vec<String>)
    ensures
        texts(paths@) == paths_that(entries.entries(), other@, change),
{
    let mut paths: Vec<String> = Vec::new();
    let mut i: usize = 0;
    assert(texts(paths@) =~= Seq::empty());
    while i < entries.len()
        invariant
            i <= entries.entries().len(),
            texts(paths@) == paths_that(entries.entries().take(i as int), other@, change),
        decreases entries.entries().len() - i,
    {
        proof {
            assert(entries.entries().take(i + 1).drop_last() == entries.entries().take(i as int));
            assert(entries.entries().take(i + 1).last() == entries.entries()[i as int]);
        }
        let path = entries.key_at(i);
        let cid = entries.value_at(i);
        let found = other.get(path.as_str());
        let selected = match change {
            Change::Unchanged => match found {
                Some(other_cid) => str_eq(other_cid.as_str(), cid.as_str()),
                None => false,
            },
            Change::Changed => match found {
                Some(other_cid) => !str_eq(other_cid.as_str(), cid.as_str()),
                None => false,
            },
            Change::Added => found.is_none(),
            Change::Removed => found.is_none(),
        };
        if selected {
            let ghost before = paths@;
            paths.push(path.clone());
            assert(texts(paths@) =~= texts(before).push(path@));
        }
        i += 1;
    }
    proof {
        assert(entries.entries().take(i as int) == entries.entries());
    }
    paths
}

/// Compare two states of a site by path, content identifiers telling
/// whether a path's content is the same.
pub fn diff(old: &StringMap<String>, new: &StringMap<String>) -> (result: BlobDiff)
    ensures
        texts(result.unchanged@) == paths_that(new.entries(), old@, Change::Unchanged),
        texts(result.changed@) == paths_that(new.entries(), old@, Change::Changed),
        texts(result.added@) == paths_that(new.entries(), old@, Change::Added),
        texts(result.removed@) == paths_that(old.entries(), new@, Change::Removed),
{
    BlobDiff {
        unchanged: select_paths(new, old, Change::Unchanged),
        changed: select_paths(new, old, Change::Changed),
        added: select_paths(new, old, Change::Added),
        removed: select_paths(old, new, Change::Removed),
    }
}

} // verus!
