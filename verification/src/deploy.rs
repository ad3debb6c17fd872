//! Building a site's tree from local files, with the blobs of the previous
//! deploy used again wherever content has not changed.

use crate::basis::blobs_of;
use crate::blob_map::{
    blob_map_of, extract_subfs_blobs, files_in, lemma_files_in_blob_map, unique_names, BlobInfoView,
    BlobMap,
};
use crate::cid::{cid_of, compute_cid};
use crate::download::{compress_blob, stored_form};
use crate::error::EncodingFailure;
use crate::text::str_eq;
use crate::tree::{
    clamp, entries_view, file_count, lemma_file_count_concat, BlobRef, BlobRefView, Directory,
    Entry, EntryNode, EntryView, File, FileView, NodeView,
};
use vstd::prelude::*;
use vstd::string::*;

verus! {

/// Media type under which every blob is uploaded.
pub const UPLOAD_MIME: &'static str = "application/octet-stream";

/// Whether a local entry of this name stays out of the site: hidden
/// entries, whose names begin with a dot, version-control directories
/// among them.
pub fn should_skip(name: &str) -> (skip: bool)
    ensures
        skip == (name@.len() > 0 && name@[0] == '.'),
{
    name.unicode_len() > 0 && name.get_char(0) == '.'
}

/// The media type that the table of media types has for a path's
/// extension, the type of unknown bytes where it has none.
pub uninterp spec fn guessed_mime(path: Seq<char>) -> Seq<char>;

/// `mime_guess::from_path(..).first_or_octet_stream()` as text. Trusted:
/// the media type depends on the path alone.
#[verifier::external_body]
fn guess_mime(file_path: &str) -> (mime: String)
    ensures
        mime@ == guessed_mime(file_path@),
{
    mime_guess::from_path(file_path).first_or_octet_stream().to_string()
}

/// A local file made ready for the blob store.
#[derive(Debug, PartialEq, Eq)]
pub struct PreparedFile {
    /// The bytes to store: gzipped, then base64 encoded.
    pub stored: Vec<u8>,
    /// Content identifier of `stored`.
    pub cid: String,
    /// Media type of the file itself.
    pub mime_type: String,
}

/// A file made ready, as contracts see it.
pub struct PreparedView {
    pub stored: Seq<u8>,
    pub cid: Seq<char>,
    pub mime_type: Seq<char>,
}

impl View for PreparedFile {
    type V = PreparedView;

    open spec fn view(&self) -> PreparedView {
        PreparedView { stored: self.stored@, cid: self.cid@, mime_type: self.mime_type@ }
    }
}

/// What making a file ready gives: its stored form, the content
/// identifier of that form, and the media type of its path.
pub open spec fn prepared(data: Seq<u8>, path: Seq<char>) -> Result<PreparedView, EncodingFailure> {
    match stored_form(data) {
        Ok(stored) => Ok(
            PreparedView { stored, cid: cid_of(stored), mime_type: guessed_mime(path) },
        ),
        Err(e) => Err(e),
    }
}

/// Bring a file into its stored form and name its content.
pub fn prepare_file(file_data: &[u8], file_path: &str) -> (result: Result<
    PreparedFile,
    EncodingFailure,
>)
    ensures
        match result {
            Ok(ready) => prepared(file_data@, file_path@) == Ok::<PreparedView, EncodingFailure>(
                ready@,
            ),
            Err(e) => prepared(file_data@, file_path@) == Err::<PreparedView, EncodingFailure>(e),
        },
{
    let file_mime = guess_mime(file_path);
    match compress_blob(file_data) {
        Err(e) => Err(e),
        Ok(stored) => {
            let cid = compute_cid(stored.as_slice());
            Ok(PreparedFile { stored, cid, mime_type: file_mime })
        },
    }
}

/// Whether the previous deploy holds, under `path`, a blob of the content
/// `cid`.
pub open spec fn can_reuse(
    existing: Map<Seq<char>, BlobInfoView>,
    path: Seq<char>,
    cid: Seq<char>,
) -> bool {
    existing.contains_key(path) && existing[path].cid == cid
}

/// The blob of the previous deploy that can stand for a file: the one under
/// the file's full path, if its content identifier is the file's.
pub fn reusable_blob<'a>(existing_blobs: &'a BlobMap, file_path_key: &str, file_cid: &str) -> (found:
    Option<&'a BlobRef>)
    ensures
        match found {
            Some(blob) => can_reuse(existing_blobs@, file_path_key@, file_cid@) && blob@
                == existing_blobs@[file_path_key@].blob,
            None => !can_reuse(existing_blobs@, file_path_key@, file_cid@),
        },
{
    match existing_blobs.get(file_path_key) {
        Some(info) => {
            if str_eq(info.cid.as_str(), file_cid) {
                Some(&info.blob)
            } else {
                None
            }
        },
        None => None,
    }
}

/// A deploy of what is already deployed uploads nothing.
///
/// Let the previous deploy's tree be one where every path names one entry.
/// Then each of its files can be used again for a local file of its path
/// whose stored form has the content identifier of the file's blob: with
/// the local files unchanged, every file is reused.
pub proof fn lemma_unchanged_file_is_reused(previous: Seq<EntryView>, i: int)
    requires
        unique_names(previous),
        0 <= i < files_in(previous, Seq::<char>::empty()).len(),
    ensures
        can_reuse(
            blob_map_of(previous, Seq::<char>::empty()),
            files_in(previous, Seq::<char>::empty())[i].0,
            files_in(previous, Seq::<char>::empty())[i].1.blob.cid,
        ),
        blob_map_of(previous, Seq::<char>::empty())[files_in(
            previous,
            Seq::<char>::empty(),
        )[i].0].blob == files_in(previous, Seq::<char>::empty())[i].1.blob,
{
    lemma_files_in_blob_map(previous, Seq::<char>::empty(), i);
}

/// The file node of a blob that holds a file in its stored form.
pub open spec fn stored_file_view(blob: BlobRefView, mime_type: Seq<char>) -> FileView {
    FileView { blob, encoding: Some("gzip"@), mime_type: Some(mime_type), base64: Some(true) }
}

/// The file node for a file whose stored form is in `blob`.
pub fn stored_file(blob: BlobRef, file_mime: String) -> (file: File)
    ensures
        file@ == stored_file_view(blob@, file_mime@),
{
    File {
        blob,
        encoding: Some("gzip".to_owned()),
        mime_type: Some(file_mime),
        base64: Some(true),
    }
}

/// What became of a file: its node, or the bytes that have to be uploaded
/// first.
#[derive(Debug, PartialEq, Eq)]
pub enum FileOutcome {
    /// The previous deploy's blob stands for the file.
    Reused(File),
    /// The file is new or changed.
    NeedsUpload(PreparedFile),
}

/// What became of a file, as contracts see it.
pub enum OutcomeView {
    Reused(FileView),
    NeedsUpload(PreparedView),
}

impl View for FileOutcome {
    type V = OutcomeView;

    open spec fn view(&self) -> OutcomeView {
        match self {
            FileOutcome::Reused(file) => OutcomeView::Reused(file@),
            FileOutcome::NeedsUpload(ready) => OutcomeView::NeedsUpload(ready@),
        }
    }
}

/// What is decided for a file made ready: the blob of the previous deploy
/// stands for it where that deploy holds its content under its path; the
/// file goes to upload where not.
pub open spec fn decided(
    ready: PreparedView,
    path: Seq<char>,
    existing: Map<Seq<char>, BlobInfoView>,
) -> OutcomeView {
    if can_reuse(existing, path, ready.cid) {
        OutcomeView::Reused(stored_file_view(existing[path].blob, ready.mime_type))
    } else {
        OutcomeView::NeedsUpload(ready)
    }
}

/// Decide between reuse and upload for a file made ready.
pub fn decide_file(prepared: PreparedFile, file_path_key: &str, existing_blobs: &BlobMap) -> (outcome:
    FileOutcome)
    ensures
        outcome@ == decided(prepared@, file_path_key@, existing_blobs@),
        match outcome {
            FileOutcome::NeedsUpload(same) => same == prepared,
            FileOutcome::Reused(_) => true,
        },
{
    match reusable_blob(existing_blobs, file_path_key, prepared.cid.as_str()) {
        Some(blob) => FileOutcome::Reused(stored_file(blob.clone(), prepared.mime_type)),
        None => FileOutcome::NeedsUpload(prepared),
    }
}

/// What processing a file gives.
pub open spec fn processed(
    data: Seq<u8>,
    file_path: Seq<char>,
    key: Seq<char>,
    existing: Map<Seq<char>, BlobInfoView>,
) -> Result<OutcomeView, EncodingFailure> {
    match prepared(data, file_path) {
        Ok(ready) => Ok(decided(ready, key, existing)),
        Err(e) => Err(e),
    }
}

/// Process a single file: gzip, base64, then reuse of the existing blob or
/// the bytes to upload. `file_path_key` is the full path from the site
/// root, under which the previous deploy is looked up. A file whose stored
/// form has the content identifier that the previous deploy holds under
/// that path is never uploaded again.
pub fn process_file(
    file_data: &[u8],
    file_path: &str,
    file_path_key: &str,
    existing_blobs: &BlobMap,
) -> (result: Result<FileOutcome, EncodingFailure>)
    ensures
        match result {
            Ok(outcome) => processed(file_data@, file_path@, file_path_key@, existing_blobs@)
                == Ok::<OutcomeView, EncodingFailure>(outcome@),
            Err(e) => processed(file_data@, file_path@, file_path_key@, existing_blobs@) == Err::<
                OutcomeView,
                EncodingFailure,
            >(e),
        },
{
    match prepare_file(file_data, file_path) {
        Err(e) => Err(e),
        Ok(prepared) => Ok(decide_file(prepared, file_path_key, existing_blobs)),
    }
}

/// A file that is deployed is used again.
///
/// Let the previous deploy's tree be one where every path names one entry,
/// and let a local file have, in its stored form, the content identifier
/// of the blob that the tree holds under the file's path. Then processing
/// the file succeeds and reuses that blob: nothing is handed back for
/// upload.
pub proof fn lemma_redeploy_reuses(
    previous: Seq<EntryView>,
    i: int,
    data: Seq<u8>,
    file_path: Seq<char>,
)
    requires
        unique_names(previous),
        0 <= i < files_in(previous, Seq::<char>::empty()).len(),
        stored_form(data) is Ok,
        files_in(previous, Seq::<char>::empty())[i].1.blob.cid == cid_of(stored_form(data)->Ok_0),
    ensures
        processed(
            data,
            file_path,
            files_in(previous, Seq::<char>::empty())[i].0,
            blob_map_of(previous, Seq::<char>::empty()),
        ) == Ok::<OutcomeView, EncodingFailure>(
            OutcomeView::Reused(
                stored_file_view(
                    files_in(previous, Seq::<char>::empty())[i].1.blob,
                    guessed_mime(file_path),
                ),
            ),
        ),
{
    lemma_unchanged_file_is_reused(previous, i);
}

/// A directory built from local files, with its counts.
#[derive(Debug, PartialEq, Eq)]
pub struct BuiltDirectory {
    pub directory: Directory,
    /// Files in the directory, at any depth.
    pub total_files: usize,
    /// Those among them whose blobs were used again.
    pub reused_files: usize,
}

/// The entries of the files of a directory, in their order.
pub open spec fn file_entries(files: Seq<(Entry, bool)>) -> Seq<EntryView> {
    Seq::new(files.len(), |i: int| files[i].0@)
}

/// The entries of the subdirectories of a directory, in their order.
pub open spec fn subdirectory_entries(dirs: Seq<(String, BuiltDirectory)>) -> Seq<EntryView> {
    Seq::new(
        dirs.len(),
        |i: int| EntryView { name: dirs[i].0@, node: NodeView::Directory(dirs[i].1.directory@) },
    )
}

/// How many of the files were reused.
pub open spec fn reused_among(files: Seq<(Entry, bool)>) -> nat
    decreases files.len(),
{
    if files.len() == 0 {
        0
    } else {
        reused_among(files.drop_last()) + if files.last().1 {
            1nat
        } else {
            0nat
        }
    }
}

/// The files of the subdirectories together.
pub open spec fn total_below(dirs: Seq<(String, BuiltDirectory)>) -> nat
    decreases dirs.len(),
{
    if dirs.len() == 0 {
        0
    } else {
        total_below(dirs.drop_last()) + dirs.last().1.total_files as nat
    }
}

/// The reused files of the subdirectories together.
pub open spec fn reused_below(dirs: Seq<(String, BuiltDirectory)>) -> nat
    decreases dirs.len(),
{
    if dirs.len() == 0 {
        0
    } else {
        reused_below(dirs.drop_last()) + dirs.last().1.reused_files as nat
    }
}

/// Whether every file result is a file, and every subdirectory comes with
/// the number of its files.
pub open spec fn counted(files: Seq<(Entry, bool)>, dirs: Seq<(String, BuiltDirectory)>) -> bool {
    &&& forall|i: int| 0 <= i < files.len() ==> (#[trigger] files[i]).0@.node is File
    &&& forall|j: int|
        0 <= j < dirs.len() ==> (#[trigger] dirs[j]).1.total_files == clamp(
            file_count(dirs[j].1.directory@),
        )
}

/// A directory put together from counted parts has the count of its tree.
pub proof fn lemma_built_count(files: Seq<(Entry, bool)>, dirs: Seq<(String, BuiltDirectory)>)
    requires
        counted(files, dirs),
    ensures
        file_count(file_entries(files)) == files.len(),
        clamp(files.len() + total_below(dirs)) == clamp(
            file_count(file_entries(files) + subdirectory_entries(dirs)),
        ),
    decreases files.len() + dirs.len(),
{
    if dirs.len() > 0 {
        let earlier = dirs.drop_last();
        assert(counted(files, earlier)) by {
            assert forall|j: int| 0 <= j < earlier.len() implies (#[trigger] earlier[j]).1.total_files
                == clamp(file_count(earlier[j].1.directory@)) by {
                assert(earlier[j] == dirs[j]);
            }
        }
        lemma_built_count(files, earlier);
        let all = subdirectory_entries(dirs);
        assert(all.drop_last() =~= subdirectory_entries(earlier));
        assert(all.last().node == NodeView::Directory(dirs.last().1.directory@));
        assert(dirs[dirs.len() - 1].1.total_files == clamp(
            file_count(dirs[dirs.len() - 1].1.directory@),
        ));
        lemma_file_count_concat(file_entries(files), all);
        lemma_file_count_concat(file_entries(files), subdirectory_entries(earlier));
    } else if files.len() > 0 {
        let earlier = files.drop_last();
        assert(counted(earlier, dirs)) by {
            assert forall|i: int| 0 <= i < earlier.len() implies (#[trigger] earlier[i]).0@.node is File by {
                assert(earlier[i] == files[i]);
            }
        }
        lemma_built_count(earlier, dirs);
        assert(file_entries(files).drop_last() =~= file_entries(earlier));
        assert(file_entries(files).last() == files[files.len() - 1].0@);
        assert(subdirectory_entries(dirs) =~= Seq::empty());
        assert(file_entries(files) + subdirectory_entries(dirs) =~= file_entries(files));
    } else {
        assert(file_entries(files) + subdirectory_entries(dirs) =~= Seq::empty());
    }
}

/// Whether every file was reused, here and in every subdirectory.
pub open spec fn all_reused(files: Seq<(Entry, bool)>, dirs: Seq<(String, BuiltDirectory)>) -> bool {
    &&& forall|i: int| 0 <= i < files.len() ==> (#[trigger] files[i]).1
    &&& forall|j: int|
        0 <= j < dirs.len() ==> (#[trigger] dirs[j]).1.reused_files == dirs[j].1.total_files
}

/// Where every file was reused, as many files were reused as there are.
pub proof fn lemma_all_reused(files: Seq<(Entry, bool)>, dirs: Seq<(String, BuiltDirectory)>)
    requires
        all_reused(files, dirs),
    ensures
        reused_among(files) == files.len(),
        reused_below(dirs) == total_below(dirs),
    decreases files.len() + dirs.len(),
{
    if dirs.len() > 0 {
        let earlier = dirs.drop_last();
        assert(all_reused(files, earlier)) by {
            assert forall|j: int| 0 <= j < earlier.len() implies (#[trigger] earlier[j]).1.reused_files
                == earlier[j].1.total_files by {
                assert(earlier[j] == dirs[j]);
            }
        }
        lemma_all_reused(files, earlier);
        assert(dirs[dirs.len() - 1].1.reused_files == dirs[dirs.len() - 1].1.total_files);
    } else if files.len() > 0 {
        let earlier = files.drop_last();
        assert(all_reused(earlier, dirs)) by {
            assert forall|i: int| 0 <= i < earlier.len() implies (#[trigger] earlier[i]).1 by {
                assert(earlier[i] == files[i]);
            }
        }
        lemma_all_reused(earlier, dirs);
        assert(files[files.len() - 1].1);
    }
}

fn reversed<T>(v: Vec<T>) -> (r: Vec<T>)
    ensures
        r@.len() == v@.len(),
        forall|i: int| 0 <= i < r@.len() ==> r@[i] == v@[v@.len() - 1 - i],
{
    let mut source = v;
    let mut r: Vec<T> = Vec::new();
    while source.len() > 0
        invariant
            source@.len() + r@.len() == v@.len(),
            forall|i: int| 0 <= i < source@.len() ==> source@[i] == v@[i],
            forall|i: int| 0 <= i < r@.len() ==> r@[i] == v@[v@.len() - 1 - i],
        decreases source@.len(),
    {
        match source.pop() {
            Some(x) => {
                r.push(x);
            },
            None => {},
        }
    }
    r
}

/// Put a directory together from what became of its files and of its
/// subdirectories: the files' entries first, then one entry for each
/// subdirectory, and the counts added up from below.
pub fn build_directory(
    file_results: Vec<(Entry, bool)>,
    dir_results: Vec<(String, BuiltDirectory)>,
) -> (built: BuiltDirectory)
    ensures
        built.directory@ == file_entries(file_results@) + subdirectory_entries(dir_results@),
        built.total_files == clamp(file_results@.len() + total_below(dir_results@)),
        built.reused_files == clamp(reused_among(file_results@) + reused_below(dir_results@)),
        counted(file_results@, dir_results@) ==> built.total_files == clamp(
            file_count(built.directory@),
        ),
        all_reused(file_results@, dir_results@) ==> built.reused_files == built.total_files,
{
    proof {
        if all_reused(file_results@, dir_results@) {
            lemma_all_reused(file_results@, dir_results@);
        }
        if counted(file_results@, dir_results@) {
            lemma_built_count(file_results@, dir_results@);
        }
    }
    let mut entries: Vec<Entry> = Vec::new();
    let mut total_files: usize = 0;
    let mut reused_files: usize = 0;
    let n = file_results.len();
    let mut files = reversed(file_results);
    assert(entries_view(entries@) =~= file_entries(file_results@.take(0)));
    while files.len() > 0
        invariant
            n == file_results@.len(),
            files@.len() <= n,
            forall|i: int| 0 <= i < files@.len() ==> files@[i] == file_results@[n - 1 - i],
            entries_view(entries@) == file_entries(file_results@.take(n - files@.len())),
            total_files == clamp((n - files@.len()) as nat),
            reused_files == clamp(reused_among(file_results@.take(n - files@.len()))),
        decreases files@.len(),
    {
        let ghost done = n - files@.len();
        let ghost before = entries@;
        proof {
            assert(file_results@.take(done + 1).drop_last() == file_results@.take(done));
            assert(file_results@.take(done + 1).last() == file_results@[done]);
        }
        match files.pop() {
            Some(result) => {
                let (entry, reused) = result;
                entries.push(entry);
                total_files = total_files.saturating_add(1);
                if reused {
                    reused_files = reused_files.saturating_add(1);
                }
                proof {
                    assert(result == file_results@[done]);
                    assert(entries_view(entries@) =~= entries_view(before).push(entry@));
                    assert(file_entries(file_results@.take(done + 1)) =~= file_entries(
                        file_results@.take(done),
                    ).push(file_results@[done].0@));
                }
            },
            None => {},
        }
    }
    proof {
        assert(file_results@.take(n as int) == file_results@);
    }
    let m = dir_results.len();
    let mut dirs = reversed(dir_results);
    assert(subdirectory_entries(dir_results@.take(0)) =~= Seq::empty());
    assert(file_entries(file_results@) + Seq::empty() =~= file_entries(file_results@));
    while dirs.len() > 0
        invariant
            m == dir_results@.len(),
            dirs@.len() <= m,
            forall|i: int| 0 <= i < dirs@.len() ==> dirs@[i] == dir_results@[m - 1 - i],
            entries_view(entries@) == file_entries(file_results@) + subdirectory_entries(
                dir_results@.take(m - dirs@.len()),
            ),
            total_files == clamp(
                file_results@.len() + total_below(dir_results@.take(m - dirs@.len())),
            ),
            reused_files == clamp(
                reused_among(file_results@) + reused_below(dir_results@.take(m - dirs@.len())),
            ),
        decreases dirs@.len(),
    {
        let ghost done = m - dirs@.len();
        let ghost before = entries@;
        proof {
            assert(dir_results@.take(done + 1).drop_last() == dir_results@.take(done));
            assert(dir_results@.take(done + 1).last() == dir_results@[done]);
        }
        match dirs.pop() {
            Some(result) => {
                let (name, sub) = result;
                let BuiltDirectory { directory, total_files: sub_total, reused_files: sub_reused } =
                    sub;
                entries.push(Entry { name, node: EntryNode::Directory(Box::new(directory)) });
                total_files = total_files.saturating_add(sub_total);
                reused_files = reused_files.saturating_add(sub_reused);
                proof {
                    assert(result == dir_results@[done]);
                    let added = EntryView {
                        name: name@,
                        node: NodeView::Directory(directory@),
                    };
                    assert(entries_view(entries@) =~= entries_view(before).push(added));
                    assert(subdirectory_entries(dir_results@.take(done + 1))
                        =~= subdirectory_entries(dir_results@.take(done)).push(added));
                    assert(entries_view(entries@) =~= file_entries(file_results@)
                        + subdirectory_entries(dir_results@.take(done + 1)));
                }
            },
            None => {},
        }
    }
    proof {
        assert(dir_results@.take(m as int) == dir_results@);
    }
    BuiltDirectory { directory: Directory { entries }, total_files, reused_files }
}

/// The blobs of the shard records of the previous deploy, each record's
/// tree taken at the path where it is mounted, added to `blobs` in turn.
pub open spec fn merged_blobs(
    blobs: Map<Seq<char>, BlobInfoView>,
    records: Seq<(Directory, String)>,
) -> Map<Seq<char>, BlobInfoView>
    decreases records.len(),
{
    if records.len() == 0 {
        blobs
    } else {
        merged_blobs(blobs, records.drop_last()).union_prefer_right(
            blob_map_of(records.last().0@, records.last().1@),
        )
    }
}

/// The records as contracts see them.
pub open spec fn record_views(records: Seq<(Directory, String)>) -> Seq<
    (Seq<EntryView>, Seq<char>),
> {
    Seq::new(records.len(), |i: int| (records[i].0@, records[i].1@))
}

/// Merging the records into a blob map puts their blobs behind it.
pub proof fn lemma_merged_blobs(
    blobs: Map<Seq<char>, BlobInfoView>,
    records: Seq<(Directory, String)>,
)
    ensures
        merged_blobs(blobs, records) == blobs.union_prefer_right(blobs_of(record_views(records))),
    decreases records.len(),
{
    if records.len() == 0 {
        assert(blobs.union_prefer_right(blobs_of(record_views(records))) =~= blobs);
    } else {
        lemma_merged_blobs(blobs, records.drop_last());
        let views = record_views(records);
        assert(views.drop_last() == record_views(records.drop_last()));
        assert(views.last() == (records.last().0@, records.last().1@));
        let last = blob_map_of(records.last().0@, records.last().1@);
        assert(blobs.union_prefer_right(blobs_of(views.drop_last())).union_prefer_right(last)
            =~= blobs.union_prefer_right(blobs_of(views.drop_last()).union_prefer_right(last)));
    }
}

/// How many paths the shard records hold, record by record.
pub open spec fn merged_count(records: Seq<(Directory, String)>) -> nat
    decreases records.len(),
{
    if records.len() == 0 {
        0
    } else {
        merged_count(records.drop_last()) + blob_map_of(
            records.last().0@,
            records.last().1@,
        ).len()
    }
}

/// Merge blob maps from subfs records into the main blob map. Each record
/// comes with its mount path. Returns the total number of blobs merged from
/// all subfs records.
pub fn merge_subfs_blob_maps(records: &Vec<(Directory, String)>, main_blob_map: &mut BlobMap) -> (total_merged:
    usize)
    ensures
        final(main_blob_map)@ == merged_blobs(old(main_blob_map)@, records@),
        total_merged == clamp(merged_count(records@)),
        old(main_blob_map).wf() ==> final(main_blob_map).wf(),
{
    let mut total_merged: usize = 0;
    let ghost start = main_blob_map@;
    let mut i: usize = 0;
    while i < records.len()
        invariant
            i <= records.len(),
            main_blob_map@ == merged_blobs(start, records@.take(i as int)),
            total_merged == clamp(merged_count(records@.take(i as int))),
            old(main_blob_map).wf() ==> main_blob_map.wf(),
        decreases records.len() - i,
    {
        proof {
            assert(records@.take(i + 1).drop_last() == records@.take(i as int));
            assert(records@.take(i + 1).last() == records@[i as int]);
        }
        let subfs_blob_map = extract_subfs_blobs(&records[i].0, records[i].1.as_str());
        let count = subfs_blob_map.count();
        let ghost before = main_blob_map@;
        let mut j: usize = 0;
        while j < subfs_blob_map.len()
            invariant
                j <= subfs_blob_map.entries().len(),
                subfs_blob_map.wf(),
                main_blob_map@ == before.union_prefer_right(
                    crate::string_map::entries_map(subfs_blob_map.entries().take(j as int)),
                ),
                old(main_blob_map).wf() ==> main_blob_map.wf(),
            decreases subfs_blob_map.entries().len() - j,
        {
            proof {
                crate::string_map::lemma_entries_map_take(subfs_blob_map.entries(), j as int);
            }
            main_blob_map.insert(
                subfs_blob_map.key_at(j).clone(),
                subfs_blob_map.value_at(j).clone(),
            );
            j += 1;
        }
        proof {
            assert(subfs_blob_map.entries().take(j as int) == subfs_blob_map.entries());
        }
        total_merged = total_merged.saturating_add(count);
        i += 1;
    }
    proof {
        assert(records@.take(i as int) == records@);
    }
    total_merged
}

} // verus!
