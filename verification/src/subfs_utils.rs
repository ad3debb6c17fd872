//! Shard references in a tree: finding them, sizing directories, and putting
//! a reference in a directory's place.

use crate::error::{ReferenceFailure, ReferenceKind};
use crate::path::{child_path, join_path, split_path, split_segments};
use crate::text::{str_eq, texts};
use crate::tree::{
    clamp, count_files_in_directory, file_count, Directory, Entry, EntryNode, EntryView, File,
    FileView, NodeView, Subfs, SubfsView,
};
use vstd::prelude::*;
use vstd::string::*;
use vstd::utf8::encode_utf8;

verus! {

/// The shard references below `entries`, each as its address and its mount
/// path, in the order in which a walk that visits a directory's entries in
/// turn, and a subdirectory's content right after its entry, meets them.
pub open spec fn shard_refs(entries: Seq<EntryView>, prefix: Seq<char>) -> Seq<
    (Seq<char>, Seq<char>),
>
    decreases entries,
{
    if entries.len() == 0 {
        Seq::empty()
    } else {
        let path = child_path(prefix, entries.last().name);
        shard_refs(entries.drop_last(), prefix) + match entries.last().node {
            NodeView::Subfs(s) => seq![(s.subject, path)],
            NodeView::Directory(sub) => shard_refs(sub, path),
            NodeView::File(_) => Seq::empty(),
            NodeView::Unknown => Seq::empty(),
        }
    }
}

/// The views of a list of string pairs.
pub open spec fn pairs_view(v: Seq<(String, String)>) -> Seq<(Seq<char>, Seq<char>)> {
    Seq::new(v.len(), |i: int| (v[i].0@, v[i].1@))
}

/// Extract all subfs URIs from a directory tree with their mount paths.
pub fn extract_subfs_uris(directory: &Directory, current_path: String) -> (uris: Vec<
    (String, String),
>)
    ensures
        pairs_view(uris@) == shard_refs(directory@, current_path@),
    decreases directory,
{
    let mut uris: Vec<(String, String)> = Vec::new();
    let mut i: usize = 0;
    while i < directory.entries.len()
        invariant
            i <= directory.entries.len(),
            pairs_view(uris@) == shard_refs(directory@.take(i as int), current_path@),
        decreases directory.entries.len() - i,
    {
        let entry = &directory.entries[i];
        let full_path = join_path(current_path.as_str(), entry.name.as_str());
        proof {
            assert(directory@.take(i + 1).drop_last() == directory@.take(i as int));
            assert(directory@.take(i + 1).last() == directory@[i as int]);
        }
        let ghost before = uris@;
        match &entry.node {
            EntryNode::Subfs(subfs_node) => {
                let pair = (subfs_node.subject.clone(), full_path);
                uris.push(pair);
                assert(pairs_view(uris@) =~= pairs_view(before) + seq![
                    (subfs_node.subject@, full_path@),
                ]);
            },
            EntryNode::Directory(subdir) => {
                let mut sub_uris = extract_subfs_uris(subdir, full_path);
                let ghost found = sub_uris@;
                uris.append(&mut sub_uris);
                assert(pairs_view(uris@) =~= pairs_view(before) + pairs_view(found));
            },
            EntryNode::File(_) => {
                assert(pairs_view(uris@) =~= pairs_view(before) + Seq::empty());
            },
            EntryNode::Unknown => {
                assert(pairs_view(uris@) =~= pairs_view(before) + Seq::empty());
            },
        }
        i += 1;
    }
    proof {
        assert(directory@.take(i as int) == directory@);
    }
    uris
}

/// Bytes of JSON punctuation and field names around a directory's entries.
pub const DIRECTORY_OVERHEAD: usize = 33;

/// Bytes around an entry's name and node, with the comma after it.
pub const ENTRY_OVERHEAD: usize = 20;

/// Bytes around a file node's blob reference, with an allowance of eight
/// digits for the blob's size.
pub const FILE_OVERHEAD: usize = 117;

/// Bytes around the text of an optional field of a file node.
pub const FIELD_OVERHEAD: usize = 14;

/// Bytes around the address of a shard reference.
pub const SUBFS_OVERHEAD: usize = 72;

/// Length of a text in bytes, as the machine reports it.
pub open spec fn text_len(s: Seq<char>) -> nat {
    (encode_utf8(s).len() as usize) as nat
}

/// Estimated JSON size of a field that may be missing.
pub open spec fn opt_text_size(s: Option<Seq<char>>) -> nat {
    match s {
        Some(t) => FIELD_OVERHEAD as nat + text_len(t),
        None => 0,
    }
}

/// Estimated JSON size of a file node.
pub open spec fn file_size(f: FileView) -> nat {
    FILE_OVERHEAD as nat + text_len(f.blob.cid) + text_len(f.blob.mime_type) + opt_text_size(
        f.encoding,
    ) + opt_text_size(f.mime_type) + match f.base64 {
        Some(_) => FIELD_OVERHEAD as nat,
        None => 0,
    }
}

/// Estimated JSON size of a list of entries, without what stands around
/// the list. An entry counts with its name, its node and `ENTRY_OVERHEAD`;
/// an entry with an unknown node counts as nothing.
pub open spec fn entries_size(entries: Seq<EntryView>) -> nat
    decreases entries,
{
    if entries.len() == 0 {
        0
    } else {
        let last = entries.last();
        entries_size(entries.drop_last()) + match last.node {
            NodeView::File(f) => ENTRY_OVERHEAD as nat + text_len(last.name) + file_size(f),
            NodeView::Directory(sub) => ENTRY_OVERHEAD as nat + text_len(last.name)
                + DIRECTORY_OVERHEAD as nat + entries_size(sub),
            NodeView::Subfs(r) => ENTRY_OVERHEAD as nat + text_len(last.name)
                + SUBFS_OVERHEAD as nat + text_len(r.subject),
            NodeView::Unknown => 0,
        }
    }
}

/// Estimated JSON size of a directory: every text at its length in bytes,
/// every fixed part at the length of its JSON punctuation and field names.
pub open spec fn estimated_size(entries: Seq<EntryView>) -> nat {
    DIRECTORY_OVERHEAD as nat + entries_size(entries)
}

fn opt_text_bytes(s: &Option<String>) -> (n: usize)
    ensures
        n == clamp(opt_text_size(crate::tree::opt_text(*s))),
{
    match s {
        Some(t) => FIELD_OVERHEAD.saturating_add(t.as_str().len()),
        None => 0,
    }
}

fn file_bytes(f: &File) -> (n: usize)
    ensures
        n == clamp(file_size(f@)),
{
    let flag: usize = match f.base64 {
        Some(_) => FIELD_OVERHEAD,
        None => 0,
    };
    FILE_OVERHEAD.saturating_add(f.blob.cid.as_str().len()).saturating_add(
        f.blob.mime_type.as_str().len(),
    ).saturating_add(opt_text_bytes(&f.encoding)).saturating_add(
        opt_text_bytes(&f.mime_type),
    ).saturating_add(flag)
}

fn entries_bytes(directory: &Directory) -> (n: usize)
    ensures
        n == clamp(entries_size(directory@)),
    decreases directory,
{
    let mut n: usize = 0;
    let mut i: usize = 0;
    while i < directory.entries.len()
        invariant
            i <= directory.entries.len(),
            n == clamp(entries_size(directory@.take(i as int))),
        decreases directory.entries.len() - i,
    {
        let entry = &directory.entries[i];
        let named = ENTRY_OVERHEAD.saturating_add(entry.name.as_str().len());
        let part: usize = match &entry.node {
            EntryNode::File(f) => named.saturating_add(file_bytes(f)),
            EntryNode::Directory(subdir) => named.saturating_add(DIRECTORY_OVERHEAD).saturating_add(
                entries_bytes(subdir),
            ),
            EntryNode::Subfs(r) => named.saturating_add(SUBFS_OVERHEAD).saturating_add(
                r.subject.as_str().len(),
            ),
            EntryNode::Unknown => 0,
        };
        proof {
            assert(directory@.take(i + 1).drop_last() == directory@.take(i as int));
            assert(directory@.take(i + 1).last() == directory@[i as int]);
        }
        n = n.saturating_add(part);
        i += 1;
    }
    proof {
        assert(directory@.take(i as int) == directory@);
    }
    n
}

/// Estimate the JSON size of a directory tree. The result is
/// `estimated_size` of the tree, or the largest `usize` where that does
/// not fit.
pub fn estimate_directory_size(directory: &Directory) -> (size: usize)
    ensures
        size == clamp(estimated_size(directory@)),
{
    DIRECTORY_OVERHEAD.saturating_add(entries_bytes(directory))
}

/// Information about a directory that could be split into a subfs record.
#[derive(Debug, PartialEq, Eq)]
pub struct SplittableDirectory {
    pub path: String,
    pub directory: Directory,
    pub size: usize,
    pub file_count: usize,
}

/// A candidate as contracts see it.
pub struct SplittableView {
    pub path: Seq<char>,
    pub directory: Seq<EntryView>,
    pub size: usize,
    pub file_count: usize,
}

impl View for SplittableDirectory {
    type V = SplittableView;

    open spec fn view(&self) -> SplittableView {
        SplittableView {
            path: self.path@,
            directory: self.directory@,
            size: self.size,
            file_count: self.file_count,
        }
    }
}

/// The views of a list of candidates.
pub open spec fn candidates_view(v: Seq<SplittableDirectory>) -> Seq<SplittableView> {
    Seq::new(v.len(), |i: int| v[i]@)
}

/// What is known of the directory `sub` at `path`.
pub open spec fn candidate(path: Seq<char>, sub: Seq<EntryView>) -> SplittableView {
    SplittableView {
        path,
        directory: sub,
        size: clamp(estimated_size(sub)),
        file_count: clamp(file_count(sub)),
    }
}

/// Every directory below `entries`, at any depth, a directory before the
/// directories inside it.
pub open spec fn directories_in(entries: Seq<EntryView>, prefix: Seq<char>) -> Seq<SplittableView>
    decreases entries,
{
    if entries.len() == 0 {
        Seq::empty()
    } else {
        let path = child_path(prefix, entries.last().name);
        directories_in(entries.drop_last(), prefix) + match entries.last().node {
            NodeView::Directory(sub) => seq![candidate(path, sub)] + directories_in(sub, path),
            NodeView::File(_) => Seq::empty(),
            NodeView::Subfs(_) => Seq::empty(),
            NodeView::Unknown => Seq::empty(),
        }
    }
}

/// `sorted` with `item` put behind the last element that is at least as
/// large as it.
pub open spec fn insert_by_size(sorted: Seq<SplittableView>, item: SplittableView) -> Seq<
    SplittableView,
>
    decreases sorted.len(),
{
    if sorted.len() == 0 {
        seq![item]
    } else if sorted.last().size >= item.size {
        sorted.push(item)
    } else {
        insert_by_size(sorted.drop_last(), item).push(sorted.last())
    }
}

/// `sorted` after the elements of `items` have been put into it in turn.
pub open spec fn insert_all(sorted: Seq<SplittableView>, items: Seq<SplittableView>) -> Seq<
    SplittableView,
>
    decreases items.len(),
{
    if items.len() == 0 {
        sorted
    } else {
        insert_by_size(insert_all(sorted, items.drop_last()), items.last())
    }
}

/// `items` ordered by size, largest first; elements of one size keep their
/// order.
pub open spec fn largest_first(items: Seq<SplittableView>) -> Seq<SplittableView> {
    insert_all(Seq::empty(), items)
}

/// Whether no element is larger than one before it.
pub open spec fn descending(items: Seq<SplittableView>) -> bool {
    forall|i: int, j: int| 0 <= i < j < items.len() ==> items[i].size >= items[j].size
}

/// Putting in a joined list is putting in its parts in turn.
pub proof fn lemma_insert_all_concat(
    sorted: Seq<SplittableView>,
    a: Seq<SplittableView>,
    b: Seq<SplittableView>,
)
    ensures
        insert_all(sorted, a + b) == insert_all(insert_all(sorted, a), b),
    decreases b.len(),
{
    if b.len() == 0 {
        assert(a + b == a);
    } else {
        lemma_insert_all_concat(sorted, a, b.drop_last());
        assert((a + b).drop_last() == a + b.drop_last());
        assert((a + b).last() == b.last());
    }
}

/// Putting an element into a descending list keeps it descending, and adds
/// that element and nothing else.
pub proof fn lemma_insert_by_size(sorted: Seq<SplittableView>, item: SplittableView)
    requires
        descending(sorted),
    ensures
        descending(insert_by_size(sorted, item)),
        insert_by_size(sorted, item).len() == sorted.len() + 1,
        insert_by_size(sorted, item).to_multiset() == sorted.to_multiset().insert(item),
        forall|k: int|
            0 <= k < insert_by_size(sorted, item).len() ==> #[trigger] insert_by_size(
                sorted,
                item,
            )[k] == item || exists|m: int|
                0 <= m < sorted.len() && sorted[m] == insert_by_size(sorted, item)[k],
    decreases sorted.len(),
{
    broadcast use vstd::seq_lib::group_to_multiset_ensures;

    let result = insert_by_size(sorted, item);
    if sorted.len() == 0 {
        assert(sorted =~= Seq::empty());
        assert(result =~= Seq::<SplittableView>::empty().push(item));
    } else if sorted.last().size >= item.size {
        assert forall|k: int| 0 <= k < result.len() implies #[trigger] result[k] == item
            || exists|m: int| 0 <= m < sorted.len() && sorted[m] == result[k] by {
            if k < sorted.len() {
                assert(sorted[k] == result[k]);
            }
        }
    } else {
        let head = sorted.drop_last();
        let last = sorted.last();
        assert(descending(head)) by {
            assert forall|i: int, j: int| 0 <= i < j < head.len() implies head[i].size
                >= head[j].size by {
                assert(head[i] == sorted[i]);
                assert(head[j] == sorted[j]);
            }
        }
        lemma_insert_by_size(head, item);
        let inner = insert_by_size(head, item);
        assert(result == inner.push(last));
        assert(sorted =~= head.push(last));
        assert(result.to_multiset() =~= sorted.to_multiset().insert(item));
        assert forall|k: int| 0 <= k < result.len() implies #[trigger] result[k] == item
            || exists|m: int| 0 <= m < sorted.len() && sorted[m] == result[k] by {
            if k < inner.len() {
                assert(result[k] == inner[k]);
                if inner[k] != item {
                    let m = choose|m: int| 0 <= m < head.len() && head[m] == inner[k];
                    assert(sorted[m] == result[k]);
                }
            } else {
                assert(sorted[sorted.len() - 1] == result[k]);
            }
        }
        assert forall|i: int, j: int| 0 <= i < j < result.len() implies result[i].size
            >= result[j].size by {
            if j < inner.len() {
                assert(result[i] == inner[i] && result[j] == inner[j]);
            } else {
                assert(result[j] == last);
                assert(result[i] == inner[i]);
                if inner[i] != item {
                    let m = choose|m: int| 0 <= m < head.len() && head[m] == inner[i];
                    assert(sorted[m] == inner[i]);
                    assert(sorted[m].size >= sorted[sorted.len() - 1].size);
                }
            }
        }
    }
}

/// The order that `largest_first` gives: no element is larger than one
/// before it, and the elements are those that were given, each as often as
/// it was given.
pub proof fn lemma_largest_first(items: Seq<SplittableView>)
    ensures
        descending(largest_first(items)),
        largest_first(items).len() == items.len(),
        largest_first(items).to_multiset() == items.to_multiset(),
    decreases items.len(),
{
    broadcast use vstd::seq_lib::group_to_multiset_ensures;

    if items.len() == 0 {
        assert(items =~= Seq::empty());
    } else {
        lemma_largest_first(items.drop_last());
        lemma_insert_by_size(largest_first(items.drop_last()), items.last());
        assert(items =~= items.drop_last().push(items.last()));
    }
}

fn insert_candidate(sorted: &mut Vec<SplittableDirectory>, item: SplittableDirectory)
    ensures
        candidates_view(final(sorted)@) == insert_by_size(candidates_view(old(sorted)@), item@),
{
    let ghost before = candidates_view(sorted@);
    let mut at: usize = sorted.len();
    proof {
        assert(before.take(at as int) == before);
        assert(before.skip(at as int) == Seq::<SplittableView>::empty());
        assert(insert_by_size(before, item@) + Seq::<SplittableView>::empty() == insert_by_size(
            before,
            item@,
        ));
    }
    while at > 0 && sorted[at - 1].size < item.size
        invariant
            at <= sorted@.len(),
            before == candidates_view(sorted@),
            insert_by_size(before, item@) == insert_by_size(before.take(at as int), item@)
                + before.skip(at as int),
        decreases at,
    {
        proof {
            let head = before.take(at as int);
            assert(head.last() == before[at - 1]);
            assert(head.drop_last() == before.take(at - 1));
            assert(insert_by_size(head, item@) == insert_by_size(head.drop_last(), item@).push(
                head.last(),
            ));
            assert(insert_by_size(before.take(at - 1), item@).push(before[at - 1]) + before.skip(
                at as int,
            ) =~= insert_by_size(before.take(at - 1), item@) + before.skip(at - 1));
        }
        at -= 1;
    }
    proof {
        let head = before.take(at as int);
        if at > 0 {
            assert(head.last() == before[at - 1]);
        }
        assert(insert_by_size(head, item@) == head.push(item@));
        assert(before.skip(0) == before);
        assert(before.take(0) == Seq::<SplittableView>::empty());
    }
    let ghost item_view = item@;
    sorted.insert(at, item);
    proof {
        assert(candidates_view(sorted@) =~= before.take(at as int).push(item_view) + before.skip(
            at as int,
        ));
    }
}

fn collect_directories(
    directory: &Directory,
    current_path: &str,
    sorted: &mut Vec<SplittableDirectory>,
)
    ensures
        candidates_view(final(sorted)@) == insert_all(
            candidates_view(old(sorted)@),
            directories_in(directory@, current_path@),
        ),
    decreases directory,
{
    let ghost start = candidates_view(sorted@);
    let mut i: usize = 0;
    while i < directory.entries.len()
        invariant
            i <= directory.entries.len(),
            candidates_view(sorted@) == insert_all(
                start,
                directories_in(directory@.take(i as int), current_path@),
            ),
        decreases directory.entries.len() - i,
    {
        let entry = &directory.entries[i];
        proof {
            assert(directory@.take(i + 1).drop_last() == directory@.take(i as int));
            assert(directory@.take(i + 1).last() == directory@[i as int]);
        }
        let ghost seen = directories_in(directory@.take(i as int), current_path@);
        match &entry.node {
            EntryNode::Directory(subdir) => {
                let dir_path = join_path(current_path, entry.name.as_str());
                let size = estimate_directory_size(subdir);
                let file_count = count_files_in_directory(subdir);
                let item = SplittableDirectory {
                    path: dir_path.clone(),
                    directory: (**subdir).clone(),
                    size,
                    file_count,
                };
                proof {
                    assert(item@ == candidate(dir_path@, subdir@));
                    lemma_insert_all_concat(
                        start,
                        seen,
                        seq![item@] + directories_in(subdir@, dir_path@),
                    );
                    lemma_insert_all_concat(
                        insert_all(start, seen),
                        seq![item@],
                        directories_in(subdir@, dir_path@),
                    );
                    assert(seq![item@].drop_last() == Seq::<SplittableView>::empty());
                    assert(seq![item@].last() == item@);
                    assert(insert_all(insert_all(start, seen), seq![item@].drop_last())
                        == insert_all(start, seen));
                    assert(insert_all(insert_all(start, seen), seq![item@]) == insert_by_size(
                        insert_all(start, seen),
                        item@,
                    ));
                }
                insert_candidate(sorted, item);
                collect_directories(subdir, dir_path.as_str(), sorted);
            },
            _ => {
                assert(seen + Seq::<SplittableView>::empty() == seen);
            },
        }
        i += 1;
    }
    proof {
        assert(directory@.take(i as int) == directory@);
    }
}

/// Find large directories that could be split into subfs records: every
/// directory of the tree, at any depth, sorted by size, largest first.
pub fn find_large_directories(directory: &Directory, current_path: String) -> (result: Vec<
    SplittableDirectory,
>)
    ensures
        candidates_view(result@) == largest_first(directories_in(directory@, current_path@)),
        descending(candidates_view(result@)),
        candidates_view(result@).to_multiset() == directories_in(
            directory@,
            current_path@,
        ).to_multiset(),
{
    let mut result: Vec<SplittableDirectory> = Vec::new();
    assert(candidates_view(result@) =~= Seq::empty());
    collect_directories(directory, current_path.as_str(), &mut result);
    proof {
        lemma_largest_first(directories_in(directory@, current_path@));
    }
    result
}

/// Where a shard record lives: the repository and the record's key.
#[derive(Debug, PartialEq, Eq)]
pub struct SubfsAddress {
    pub did: String,
    pub rkey: String,
}

/// Whether `uri` begins with the scheme of record addresses.
pub open spec fn has_scheme(uri: Seq<char>) -> bool {
    uri.len() >= 5 && uri.subrange(0, 5) == "at://"@
}

/// The parts of an address behind its scheme: repository, collection,
/// record key.
pub open spec fn address_parts(uri: Seq<char>) -> Seq<Seq<char>> {
    split_path(uri.skip(5))
}

/// Why `uri` is no address of a shard record, if it is none. It is one if
/// it has the scheme `at://`, then a repository, the collection
/// `place.wisp.subfs` and a record key, the first and the last not empty.
pub open spec fn address_fault(uri: Seq<char>) -> Option<ReferenceKind> {
    let parts = address_parts(uri);
    if !has_scheme(uri) || parts.len() < 3 || parts[0].len() == 0 || parts[2].len() == 0 {
        Some(ReferenceKind::Malformed)
    } else if parts[1] != "place.wisp.subfs"@ {
        Some(ReferenceKind::WrongRecordKind)
    } else {
        None
    }
}

/// Take the address of a shard record apart.
pub fn parse_subfs_uri(uri: &str) -> (result: Result<SubfsAddress, ReferenceFailure>)
    ensures
        match result {
            Ok(address) => address_fault(uri@) is None && address.did@ == address_parts(uri@)[0]
                && address.rkey@ == address_parts(uri@)[2],
            Err(e) => address_fault(uri@) == Some(e.kind) && e.address@ == uri@,
        },
{
    let n = uri.unicode_len();
    if n < 5 || !str_eq(uri.substring_char(0, 5), "at://") {
        return Err(ReferenceFailure { kind: ReferenceKind::Malformed, address: uri.to_owned() });
    }
    let rest = uri.substring_char(5, n);
    assert(rest@ == uri@.skip(5));
    let parts = split_segments(rest);
    assert(forall|i: int| 0 <= i < parts@.len() ==> texts(parts@)[i] == (#[trigger] parts@[i])@);
    if parts.len() < 3 || parts[0].as_str().unicode_len() == 0 || parts[2].as_str().unicode_len()
        == 0 {
        return Err(ReferenceFailure { kind: ReferenceKind::Malformed, address: uri.to_owned() });
    }
    if !str_eq(parts[1].as_str(), "place.wisp.subfs") {
        return Err(
            ReferenceFailure { kind: ReferenceKind::WrongRecordKind, address: uri.to_owned() },
        );
    }
    Ok(SubfsAddress { did: parts[0].clone(), rkey: parts[2].clone() })
}

/// The repository of a record address: what stands between the scheme and
/// the next `/`, where the address has the scheme.
pub fn repository_of(uri: &str) -> (did: Option<String>)
    ensures
        match did {
            Some(d) => has_scheme(uri@) && d@ == address_parts(uri@)[0],
            None => !has_scheme(uri@),
        },
{
    let n = uri.unicode_len();
    if n < 5 || !str_eq(uri.substring_char(0, 5), "at://") {
        return None;
    }
    let rest = uri.substring_char(5, n);
    assert(rest@ == uri@.skip(5));
    let parts = split_segments(rest);
    assert(texts(parts@)[0] == parts@[0]@);
    Some(parts[0].clone())
}

/// The address of the manifest of the site `site` in the repository
/// `did`.
pub fn site_record_uri(did: &str, site: &str) -> (uri: String)
    ensures
        uri@ == "at://"@ + did@ + "/place.wisp.fs/"@ + site@,
{
    let mut uri = "at://".to_owned();
    uri.append(did);
    uri.append("/place.wisp.fs/");
    uri.append(site);
    uri
}

/// An entry that refers to the shard record at `uri`.
pub open spec fn shard_entry(name: Seq<char>, uri: Seq<char>, flat: bool) -> EntryView {
    EntryView { name, node: NodeView::Subfs(SubfsView { subject: uri, flat }) }
}

/// `entries` with the directory at the path `segments` replaced by a
/// reference to the shard record at `uri`. Entries that the path does not
/// name, and entries of its name that are no directories, stay as they are.
pub open spec fn split_at(
    entries: Seq<EntryView>,
    segments: Seq<Seq<char>>,
    uri: Seq<char>,
    flat: bool,
) -> Seq<EntryView>
    decreases entries,
{
    if entries.len() == 0 || segments.len() == 0 {
        entries
    } else {
        let last = entries.last();
        let rest = split_at(entries.drop_last(), segments, uri, flat);
        match last.node {
            NodeView::Directory(sub) => if last.name != segments[0] {
                rest.push(last)
            } else if segments.len() == 1 {
                rest.push(shard_entry(last.name, uri, flat))
            } else {
                rest.push(
                    EntryView {
                        name: last.name,
                        node: NodeView::Directory(split_at(sub, segments.skip(1), uri, flat)),
                    },
                )
            },
            NodeView::File(_) => rest.push(last),
            NodeView::Subfs(_) => rest.push(last),
            NodeView::Unknown => rest.push(last),
        }
    }
}

fn replace_at(directory: &Directory, segments: &Vec<String>, depth: usize, uri: &str, flat: bool) -> (result: Directory)
    requires
        depth < segments@.len(),
    ensures
        result@ == split_at(directory@, texts(segments@).skip(depth as int), uri@, flat),
    decreases directory,
{
    let ghost path = texts(segments@).skip(depth as int);
    let last_depth: usize = segments.len() - 1;
    let mut entries: Vec<Entry> = Vec::new();
    let mut i: usize = 0;
    assert(crate::tree::entries_view(entries@) =~= Seq::empty());
    while i < directory.entries.len()
        invariant
            i <= directory.entries.len(),
            depth <= last_depth == segments@.len() - 1,
            path == texts(segments@).skip(depth as int),
            crate::tree::entries_view(entries@) == split_at(
                directory@.take(i as int),
                path,
                uri@,
                flat,
            ),
        decreases directory.entries.len() - i,
    {
        let entry = &directory.entries[i];
        proof {
            assert(directory@.take(i + 1).drop_last() == directory@.take(i as int));
            assert(directory@.take(i + 1).last() == directory@[i as int]);
            assert(path[0] == segments@[depth as int]@);
            assert(path.skip(1) == texts(segments@).skip(depth + 1));
        }
        let replaced: Entry = match &entry.node {
            EntryNode::Directory(subdir) => {
                if !str_eq(entry.name.as_str(), segments[depth].as_str()) {
                    entry.clone()
                } else if depth == last_depth {
                    Entry {
                        name: entry.name.clone(),
                        node: EntryNode::Subfs(Box::new(Subfs { subject: uri.to_owned(), flat })),
                    }
                } else {
                    Entry {
                        name: entry.name.clone(),
                        node: EntryNode::Directory(
                            Box::new(replace_at(subdir, segments, depth + 1, uri, flat)),
                        ),
                    }
                }
            },
            _ => entry.clone(),
        };
        proof {
            assert(crate::tree::entries_view(entries@.push(replaced)) =~= crate::tree::entries_view(
                entries@,
            ).push(replaced@));
        }
        entries.push(replaced);
        i += 1;
    }
    proof {
        assert(directory@.take(i as int) == directory@);
    }
    Directory { entries }
}

/// Whether a text is a record address that the repository's library
/// accepts.
pub uninterp spec fn at_uri_valid(uri: Seq<char>) -> bool;

/// `AtStrError` of the crate jacquard_common: why a text is no address,
/// carried through and not looked into.
#[verifier::external_type_specification]
#[verifier::external_body]
pub struct ExAtStrError(jacquard_common::types::string::AtStrError);

/// `AtUri::new` of the crate jacquard_common. Trusted: whether a text is
/// accepted as an address depends on the text alone.
#[verifier::external_body]
fn at_uri_check(uri: &str) -> (result: Result<(), jacquard_common::types::string::AtStrError>)
    ensures
        result is Ok == at_uri_valid(uri@),
{
    match jacquard_common::types::string::AtUri::new(uri) {
        Ok(_) => Ok(()),
        Err(e) => Err(e),
    }
}

/// What replacing a directory by a reference gives: the tree with the
/// reference in the directory's place where `uri` is a record address, a
/// failure that names `uri` as malformed where it is none.
pub open spec fn replaced_or_refused(
    got: Result<Directory, ReferenceFailure>,
    directory: Seq<EntryView>,
    target_path: Seq<char>,
    uri: Seq<char>,
    flat: bool,
) -> bool {
    match got {
        Ok(replaced) => at_uri_valid(uri) && replaced@ == split_at(
            directory,
            split_path(target_path),
            uri,
            flat,
        ),
        Err(e) => !at_uri_valid(uri) && e.kind == ReferenceKind::Malformed && e.address@ == uri,
    }
}

/// `directory` with a subfs node in the place of the directory at
/// `target_path`, where `subfs_uri` is a record address.
pub fn with_subfs_at(directory: &Directory, target_path: &str, subfs_uri: &str, flat: bool) -> (result:
    Result<Directory, ReferenceFailure>)
    ensures
        replaced_or_refused(result, directory@, target_path@, subfs_uri@, flat),
{
    match at_uri_check(subfs_uri) {
        Err(_) => Err(
            ReferenceFailure { kind: ReferenceKind::Malformed, address: subfs_uri.to_owned() },
        ),
        Ok(_) => {
            let segments = split_segments(target_path);
            assert(texts(segments@).skip(0) == texts(segments@));
            Ok(replace_at(directory, &segments, 0, subfs_uri, flat))
        },
    }
}

/// Replace a directory with a subfs node in the tree. `target_path` is the
/// directory's path from the root of `directory`; `flat` is the merge mode
/// of the new reference. Fails where `subfs_uri` is no record address.
pub fn replace_directory_with_subfs(
    directory: Directory,
    target_path: &str,
    subfs_uri: &str,
    flat: bool,
) -> (result: Result<Directory, ReferenceFailure>)
    ensures
        replaced_or_refused(result, directory@, target_path@, subfs_uri@, flat),
{
    with_subfs_at(&directory, target_path, subfs_uri, flat)
}

} // verus!
