//! Splitting a tree into shards and expanding it again gives the tree back.

use crate::blob_map::blob_map_of;
use crate::expand::expand;
use crate::path::{base_segments, child_path, lemma_split_child, no_slash, split_path};
use crate::subfs_utils::{
    candidate, directories_in, largest_first, lemma_largest_first, shard_entry, split_at,
};
use crate::tree::{file_count, EntryView, NodeView};
use vstd::prelude::*;

verus! {

/// Whether a shard reference below `entries` holds the address `uri`.
pub open spec fn mentions(entries: Seq<EntryView>, uri: Seq<char>) -> bool
    decreases entries,
{
    if entries.len() == 0 {
        false
    } else {
        mentions(entries.drop_last(), uri) || match entries.last().node {
            NodeView::Subfs(r) => r.subject == uri,
            NodeView::Directory(sub) => mentions(sub, uri),
            NodeView::File(_) => false,
            NodeView::Unknown => false,
        }
    }
}

/// Whether there is no shard reference below `entries`.
pub open spec fn ref_free(entries: Seq<EntryView>) -> bool
    decreases entries,
{
    if entries.len() == 0 {
        true
    } else {
        ref_free(entries.drop_last()) && match entries.last().node {
            NodeView::Subfs(_) => false,
            NodeView::Directory(sub) => ref_free(sub),
            NodeView::File(_) => true,
            NodeView::Unknown => true,
        }
    }
}

/// Whether every shard of `store` that is reached from `entries` lies at
/// most `depth` shards deep.
pub open spec fn within_depth(
    entries: Seq<EntryView>,
    store: Map<Seq<char>, Seq<EntryView>>,
    depth: nat,
) -> bool
    decreases depth, entries,
{
    if entries.len() == 0 {
        true
    } else {
        within_depth(entries.drop_last(), store, depth) && match entries.last().node {
            NodeView::Subfs(r) => store.contains_key(r.subject) ==> depth > 0 && within_depth(
                store[r.subject],
                store,
                (depth - 1) as nat,
            ),
            NodeView::Directory(sub) => within_depth(sub, store, depth),
            NodeView::File(_) => true,
            NodeView::Unknown => true,
        }
    }
}

/// Whether `content` is what every directory at the path `segments` holds.
pub open spec fn holds_at(
    entries: Seq<EntryView>,
    segments: Seq<Seq<char>>,
    content: Seq<EntryView>,
) -> bool
    decreases entries,
{
    if entries.len() == 0 || segments.len() == 0 {
        true
    } else {
        let last = entries.last();
        holds_at(entries.drop_last(), segments, content) && match last.node {
            NodeView::Directory(sub) => if last.name != segments[0] {
                true
            } else if segments.len() == 1 {
                sub == content
            } else {
                holds_at(sub, segments.skip(1), content)
            },
            NodeView::File(_) => true,
            NodeView::Subfs(_) => true,
            NodeView::Unknown => true,
        }
    }
}

/// Whether the address `uri` is new to a tree and a store: no key of the
/// store and held by no reference in either.
pub open spec fn fresh(
    uri: Seq<char>,
    entries: Seq<EntryView>,
    store: Map<Seq<char>, Seq<EntryView>>,
) -> bool {
    &&& !store.contains_key(uri)
    &&& !mentions(entries, uri)
    &&& forall|a: Seq<char>| store.contains_key(a) ==> !mentions(#[trigger] store[a], uri)
}

/// Where a tree refers to a record of the store, the record lies one
/// shard less deep than the tree.
pub proof fn lemma_within_reference(
    entries: Seq<EntryView>,
    store: Map<Seq<char>, Seq<EntryView>>,
    depth: nat,
    uri: Seq<char>,
)
    requires
        mentions(entries, uri),
        store.contains_key(uri),
        within_depth(entries, store, depth),
    ensures
        depth > 0,
        within_depth(store[uri], store, (depth - 1) as nat),
    decreases entries,
{
    if mentions(entries.drop_last(), uri) {
        lemma_within_reference(entries.drop_last(), store, depth, uri);
    } else {
        match entries.last().node {
            NodeView::Directory(sub) => {
                lemma_within_reference(sub, store, depth, uri);
            },
            _ => {},
        }
    }
}

/// Shards that lead back to themselves lie within no depth.
///
/// Let a record refer to a second, and the second back to the first; the
/// two may be one. Then a tree that refers to the first resolves within no
/// depth, so that its expansion fails.
pub proof fn lemma_cycle_is_too_deep(
    entries: Seq<EntryView>,
    store: Map<Seq<char>, Seq<EntryView>>,
    depth: nat,
    first: Seq<char>,
    second: Seq<char>,
)
    requires
        store.contains_key(first),
        store.contains_key(second),
        mentions(store[first], second),
        mentions(store[second], first),
        mentions(entries, first),
    ensures
        !within_depth(entries, store, depth),
    decreases depth,
{
    if within_depth(entries, store, depth) {
        lemma_within_reference(entries, store, depth, first);
        lemma_within_reference(store[first], store, (depth - 1) as nat, second);
        lemma_cycle_is_too_deep(store[second], store, (depth - 2) as nat, first, second);
    }
}

/// A shard that nothing refers to changes no expansion.
pub proof fn lemma_unmentioned_shard(
    entries: Seq<EntryView>,
    store: Map<Seq<char>, Seq<EntryView>>,
    depth: nat,
    uri: Seq<char>,
    content: Seq<EntryView>,
)
    requires
        !mentions(entries, uri),
        forall|a: Seq<char>| store.contains_key(a) ==> !mentions(#[trigger] store[a], uri),
    ensures
        expand(entries, store.insert(uri, content), depth) == expand(entries, store, depth),
        within_depth(entries, store.insert(uri, content), depth) == within_depth(
            entries,
            store,
            depth,
        ),
    decreases depth, entries,
{
    if entries.len() > 0 {
        lemma_unmentioned_shard(entries.drop_last(), store, depth, uri, content);
        match entries.last().node {
            NodeView::Subfs(r) => {
                if depth > 0 && store.contains_key(r.subject) {
                    lemma_unmentioned_shard(
                        store[r.subject],
                        store,
                        (depth - 1) as nat,
                        uri,
                        content,
                    );
                }
            },
            NodeView::Directory(sub) => {
                lemma_unmentioned_shard(sub, store, depth, uri, content);
            },
            NodeView::File(_) => {},
            NodeView::Unknown => {},
        }
    }
}

/// Where every shard is reached within `depth`, a greater depth changes
/// nothing.
pub proof fn lemma_deeper(
    entries: Seq<EntryView>,
    store: Map<Seq<char>, Seq<EntryView>>,
    depth: nat,
)
    requires
        within_depth(entries, store, depth),
    ensures
        expand(entries, store, depth + 1) == expand(entries, store, depth),
        within_depth(entries, store, depth + 1),
    decreases depth, entries,
{
    if entries.len() > 0 {
        lemma_deeper(entries.drop_last(), store, depth);
        match entries.last().node {
            NodeView::Subfs(r) => {
                if store.contains_key(r.subject) {
                    lemma_deeper(store[r.subject], store, (depth - 1) as nat);
                }
            },
            NodeView::Directory(sub) => {
                lemma_deeper(sub, store, depth);
            },
            NodeView::File(_) => {},
            NodeView::Unknown => {},
        }
    }
}

/// A tree without shard references is its own expansion.
pub proof fn lemma_ref_free(
    entries: Seq<EntryView>,
    store: Map<Seq<char>, Seq<EntryView>>,
    depth: nat,
    uri: Seq<char>,
)
    requires
        ref_free(entries),
    ensures
        expand(entries, store, depth) == entries,
        within_depth(entries, store, depth),
        !mentions(entries, uri),
    decreases entries,
{
    if entries.len() > 0 {
        lemma_ref_free(entries.drop_last(), store, depth, uri);
        match entries.last().node {
            NodeView::Directory(sub) => {
                lemma_ref_free(sub, store, depth, uri);
            },
            _ => {},
        }
        assert(entries.drop_last() + seq![entries.last()] == entries);
    }
}

/// One split, then expansion: the tree that stood before the split.
///
/// Let a shard record at a new address hold what the directory at a path
/// holds, and let a reference to it, not flat, take the directory's place.
/// Then expanding the new tree with the new record in the store gives what
/// expanding the old tree gave.
pub proof fn lemma_split_then_expand(
    entries: Seq<EntryView>,
    segments: Seq<Seq<char>>,
    uri: Seq<char>,
    content: Seq<EntryView>,
    store: Map<Seq<char>, Seq<EntryView>>,
    depth: nat,
)
    requires
        holds_at(entries, segments, content),
        fresh(uri, entries, store),
        within_depth(entries, store, depth),
    ensures
        expand(split_at(entries, segments, uri, false), store.insert(uri, content), depth + 1)
            == expand(entries, store, depth),
        within_depth(split_at(entries, segments, uri, false), store.insert(uri, content), depth + 1),
    decreases entries,
{
    let after = store.insert(uri, content);
    if entries.len() == 0 || segments.len() == 0 {
        lemma_unmentioned_shard(entries, store, depth + 1, uri, content);
        lemma_deeper(entries, store, depth);
    } else {
        let last = entries.last();
        let rest = entries.drop_last();
        lemma_split_then_expand(rest, segments, uri, content, store, depth);
        let new_rest = split_at(rest, segments, uri, false);
        let changed = split_at(entries, segments, uri, false);
        assert(changed.drop_last() == new_rest);
        match last.node {
            NodeView::Directory(sub) => {
                if last.name != segments[0] {
                    lemma_unmentioned_shard(sub, store, depth + 1, uri, content);
                    lemma_deeper(sub, store, depth);
                } else if segments.len() == 1 {
                    assert(changed.last() == shard_entry(last.name, uri, false));
                    assert(after.contains_key(uri) && after[uri] == sub);
                    lemma_unmentioned_shard(sub, store, depth, uri, content);
                } else {
                    lemma_split_then_expand(sub, segments.skip(1), uri, content, store, depth);
                }
            },
            NodeView::Subfs(r) => {
                assert(changed.last() == last);
                if store.contains_key(r.subject) {
                    lemma_unmentioned_shard(store[r.subject], store, depth, uri, content);
                    lemma_deeper(store[r.subject], store, (depth - 1) as nat);
                }
            },
            NodeView::File(_) => {
                assert(changed.last() == last);
            },
            NodeView::Unknown => {
                assert(changed.last() == last);
            },
        }
    }
}

/// One split of a shard whose own content is reached one level less deep
/// than the tree: the depth that served the old tree serves the new one.
pub proof fn lemma_split_keeps_depth(
    entries: Seq<EntryView>,
    segments: Seq<Seq<char>>,
    uri: Seq<char>,
    content: Seq<EntryView>,
    store: Map<Seq<char>, Seq<EntryView>>,
    depth: nat,
)
    requires
        holds_at(entries, segments, content),
        fresh(uri, entries, store),
        within_depth(entries, store, depth),
        depth > 0,
        within_depth(content, store, (depth - 1) as nat),
    ensures
        expand(split_at(entries, segments, uri, false), store.insert(uri, content), depth)
            == expand(entries, store, depth),
        within_depth(split_at(entries, segments, uri, false), store.insert(uri, content), depth),
    decreases entries,
{
    let after = store.insert(uri, content);
    if entries.len() == 0 || segments.len() == 0 {
        lemma_unmentioned_shard(entries, store, depth, uri, content);
    } else {
        let last = entries.last();
        let rest = entries.drop_last();
        lemma_split_keeps_depth(rest, segments, uri, content, store, depth);
        let changed = split_at(entries, segments, uri, false);
        assert(changed.drop_last() == split_at(rest, segments, uri, false));
        match last.node {
            NodeView::Directory(sub) => {
                if last.name != segments[0] {
                    lemma_unmentioned_shard(sub, store, depth, uri, content);
                } else if segments.len() == 1 {
                    assert(changed.last() == shard_entry(last.name, uri, false));
                    assert(after.contains_key(uri) && after[uri] == sub);
                    lemma_unmentioned_shard(sub, store, (depth - 1) as nat, uri, content);
                    lemma_deeper(sub, store, (depth - 1) as nat);
                } else {
                    lemma_split_keeps_depth(sub, segments.skip(1), uri, content, store, depth);
                }
            },
            NodeView::Subfs(r) => {
                assert(changed.last() == last);
                if store.contains_key(r.subject) {
                    lemma_unmentioned_shard(
                        store[r.subject],
                        store,
                        (depth - 1) as nat,
                        uri,
                        content,
                    );
                }
            },
            NodeView::File(_) => {
                assert(changed.last() == last);
            },
            NodeView::Unknown => {
                assert(changed.last() == last);
            },
        }
    }
}

/// Where every shard is reached within `depth`, any greater depth changes
/// nothing.
pub proof fn lemma_any_deeper(
    entries: Seq<EntryView>,
    store: Map<Seq<char>, Seq<EntryView>>,
    depth: nat,
    deeper: nat,
)
    requires
        within_depth(entries, store, depth),
        deeper >= depth,
    ensures
        expand(entries, store, deeper) == expand(entries, store, depth),
        within_depth(entries, store, deeper),
    decreases deeper - depth,
{
    if deeper > depth {
        lemma_any_deeper(entries, store, depth, (deeper - 1) as nat);
        lemma_deeper(entries, store, (deeper - 1) as nat);
    }
}

/// Whether a directory entry of the name `name` is among `entries`.
pub open spec fn has_directory(entries: Seq<EntryView>, name: Seq<char>) -> bool
    decreases entries.len(),
{
    if entries.len() == 0 {
        false
    } else {
        has_directory(entries.drop_last(), name) || (entries.last().node is Directory
            && entries.last().name == name)
    }
}

/// Whether a tree's names can stand in paths: none is empty or holds `/`,
/// and no two directories of one directory share a name.
pub open spec fn well_named(entries: Seq<EntryView>) -> bool
    decreases entries,
{
    if entries.len() == 0 {
        true
    } else {
        let last = entries.last();
        &&& well_named(entries.drop_last())
        &&& last.name.len() > 0
        &&& no_slash(last.name)
        &&& match last.node {
            NodeView::Directory(sub) => well_named(sub) && !has_directory(
                entries.drop_last(),
                last.name,
            ),
            NodeView::File(_) => true,
            NodeView::Subfs(_) => true,
            NodeView::Unknown => true,
        }
    }
}

/// A path whose first segment names no directory addresses nothing.
pub proof fn lemma_holds_where_unnamed(
    entries: Seq<EntryView>,
    segments: Seq<Seq<char>>,
    content: Seq<EntryView>,
)
    requires
        segments.len() > 0,
        !has_directory(entries, segments[0]),
    ensures
        holds_at(entries, segments, content),
    decreases entries.len(),
{
    if entries.len() > 0 {
        lemma_holds_where_unnamed(entries.drop_last(), segments, content);
    }
}

/// A candidate's path leads to the candidate.
///
/// In a tree whose names can stand in paths, let a directory be listed
/// with its path and its content. Then the path is the path of the
/// directory that is walked, `prefix`, and at least one segment more, and
/// those further segments lead from `entries` to directories of that
/// content alone.
pub proof fn lemma_candidate_path(entries: Seq<EntryView>, prefix: Seq<char>, i: int)
    requires
        well_named(entries),
        0 <= i < directories_in(entries, prefix).len(),
    ensures
        ({
            let found = directories_in(entries, prefix)[i];
            let rest = split_path(found.path).skip(base_segments(prefix).len() as int);
            &&& split_path(found.path) == base_segments(prefix) + rest
            &&& rest.len() >= 1
            &&& has_directory(entries, rest[0])
            &&& holds_at(entries, rest, found.directory)
        }),
    decreases entries,
{
    let found = directories_in(entries, prefix)[i];
    let base = base_segments(prefix);
    let rest = split_path(found.path).skip(base.len() as int);
    let earlier = entries.drop_last();
    let last = entries.last();
    let before = directories_in(earlier, prefix);
    if i < before.len() {
        lemma_candidate_path(earlier, prefix, i);
        assert(found == before[i]);
        if last.node is Directory {
            assert(last.name != rest[0]);
        }
    } else {
        let path = child_path(prefix, last.name);
        match last.node {
            NodeView::Directory(sub) => {
                lemma_split_child(prefix, last.name);
                assert(path.len() > 0);
                assert(base_segments(path) == base + seq![last.name]);
                if i == before.len() {
                    assert(found == candidate(path, sub));
                    assert(split_path(found.path).skip(base.len() as int) == seq![last.name]);
                    lemma_holds_where_unnamed(earlier, rest, found.directory);
                } else {
                    let inner = directories_in(sub, path);
                    let j = i - before.len() - 1;
                    assert(found == inner[j]);
                    lemma_candidate_path(sub, path, j);
                    let deeper = split_path(found.path).skip(base_segments(path).len() as int);
                    assert(split_path(found.path) == base + seq![last.name] + deeper);
                    assert(rest == seq![last.name] + deeper);
                    assert(rest.skip(1) == deeper);
                    lemma_holds_where_unnamed(earlier, rest, found.directory);
                }
            },
            _ => {},
        }
    }
}

/// The directory that a split takes is the one at its path.
///
/// In a tree whose names can stand in paths, the first of the directories
/// ordered by size has a path that leads to directories of its content
/// alone: the shard record that is made of it holds what the reference
/// will stand for.
pub proof fn lemma_largest_candidate(entries: Seq<EntryView>)
    requires
        well_named(entries),
        directories_in(entries, Seq::<char>::empty()).len() > 0,
    ensures
        largest_first(directories_in(entries, Seq::<char>::empty())).len() > 0,
        ({
            let first = largest_first(directories_in(entries, Seq::<char>::empty()))[0];
            holds_at(entries, split_path(first.path), first.directory)
        }),
{
    broadcast use vstd::seq_lib::group_to_multiset_ensures;

    let all = directories_in(entries, Seq::<char>::empty());
    let sorted = largest_first(all);
    lemma_largest_first(all);
    let first = sorted[0];
    assert(sorted.to_multiset().count(first) > 0);
    assert(all.contains(first));
    let i = choose|i: int| 0 <= i < all.len() && all[i] == first;
    lemma_candidate_path(entries, Seq::<char>::empty(), i);
    assert(split_path(first.path).skip(0) == split_path(first.path));
}

/// A split makes no directory where there was none.
pub proof fn lemma_split_adds_no_directory(
    entries: Seq<EntryView>,
    segments: Seq<Seq<char>>,
    uri: Seq<char>,
    flat: bool,
    name: Seq<char>,
)
    requires
        !has_directory(entries, name),
    ensures
        !has_directory(split_at(entries, segments, uri, flat), name),
        split_at(entries, segments, uri, flat).len() == entries.len(),
    decreases entries.len(),
{
    if entries.len() > 0 && segments.len() > 0 {
        lemma_split_adds_no_directory(entries.drop_last(), segments, uri, flat, name);
        let changed = split_at(entries, segments, uri, flat);
        assert(changed.drop_last() == split_at(entries.drop_last(), segments, uri, flat));
    }
}

/// A split keeps a tree's names fit for paths.
pub proof fn lemma_split_keeps_names(
    entries: Seq<EntryView>,
    segments: Seq<Seq<char>>,
    uri: Seq<char>,
    flat: bool,
)
    requires
        well_named(entries),
    ensures
        well_named(split_at(entries, segments, uri, flat)),
    decreases entries,
{
    if entries.len() > 0 && segments.len() > 0 {
        let last = entries.last();
        let rest = entries.drop_last();
        lemma_split_keeps_names(rest, segments, uri, flat);
        let changed = split_at(entries, segments, uri, flat);
        assert(changed.drop_last() == split_at(rest, segments, uri, flat));
        assert(changed.last().name == last.name);
        match last.node {
            NodeView::Directory(sub) => {
                lemma_split_adds_no_directory(rest, segments, uri, flat, last.name);
                if last.name == segments[0] && segments.len() > 1 {
                    lemma_split_keeps_names(sub, segments.skip(1), uri, flat);
                }
            },
            _ => {
                assert(changed.last() == last);
            },
        }
    }
}

/// Whether a directory stands at the path `segments`.
pub open spec fn directory_at(entries: Seq<EntryView>, segments: Seq<Seq<char>>) -> bool
    decreases entries,
{
    if entries.len() == 0 || segments.len() == 0 {
        false
    } else {
        let last = entries.last();
        directory_at(entries.drop_last(), segments) || match last.node {
            NodeView::Directory(sub) => last.name == segments[0] && (segments.len() == 1
                || directory_at(sub, segments.skip(1))),
            NodeView::File(_) => false,
            NodeView::Subfs(_) => false,
            NodeView::Unknown => false,
        }
    }
}

/// A split at a path whose first segment names no directory changes
/// nothing.
pub proof fn lemma_split_where_unnamed(
    entries: Seq<EntryView>,
    segments: Seq<Seq<char>>,
    uri: Seq<char>,
    flat: bool,
)
    requires
        segments.len() > 0,
        !has_directory(entries, segments[0]),
    ensures
        split_at(entries, segments, uri, flat) == entries,
        !directory_at(entries, segments),
    decreases entries.len(),
{
    if entries.len() > 0 {
        lemma_split_where_unnamed(entries.drop_last(), segments, uri, flat);
        assert(entries.drop_last().push(entries.last()) == entries);
    }
}

/// A split takes out of the tree the files of the directory it moves.
///
/// In a tree whose names can stand in paths, the files left in the tree
/// after a split and the files of the directory that was moved out are
/// together the files that the tree had: each file is counted in one
/// record. A split at a path where no directory stands takes nothing.
pub proof fn lemma_split_keeps_files(
    entries: Seq<EntryView>,
    segments: Seq<Seq<char>>,
    uri: Seq<char>,
    flat: bool,
    content: Seq<EntryView>,
)
    requires
        well_named(entries),
        holds_at(entries, segments, content),
    ensures
        file_count(entries) == file_count(split_at(entries, segments, uri, flat)) + if directory_at(
            entries,
            segments,
        ) {
            file_count(content)
        } else {
            0
        },
    decreases entries,
{
    if entries.len() > 0 && segments.len() > 0 {
        let last = entries.last();
        let rest = entries.drop_last();
        let changed = split_at(entries, segments, uri, flat);
        assert(changed.drop_last() == split_at(rest, segments, uri, flat));
        match last.node {
            NodeView::Directory(sub) => {
                if last.name != segments[0] {
                    lemma_split_keeps_files(rest, segments, uri, flat, content);
                } else {
                    lemma_split_where_unnamed(rest, segments, uri, flat);
                    if segments.len() > 1 {
                        lemma_split_keeps_files(sub, segments.skip(1), uri, flat, content);
                    }
                }
            },
            _ => {
                lemma_split_keeps_files(rest, segments, uri, flat, content);
                assert(changed.last() == last);
            },
        }
    }
}

/// One split of a deploy, as the store and the tree see it: the path of
/// the directory that was moved out, the address of its shard record, and
/// what the record holds.
pub struct SplitRecord {
    pub path: Seq<char>,
    pub uri: Seq<char>,
    pub content: Seq<EntryView>,
}

/// The tree after the splits, a reference in the place of each directory
/// that was moved out.
pub open spec fn tree_after(tree: Seq<EntryView>, splits: Seq<SplitRecord>) -> Seq<EntryView>
    decreases splits.len(),
{
    if splits.len() == 0 {
        tree
    } else {
        split_at(
            tree_after(tree, splits.drop_last()),
            split_path(splits.last().path),
            splits.last().uri,
            false,
        )
    }
}

/// The shard records that the splits have stored, by address.
pub open spec fn store_after(splits: Seq<SplitRecord>) -> Map<Seq<char>, Seq<EntryView>>
    decreases splits.len(),
{
    if splits.len() == 0 {
        Map::empty()
    } else {
        store_after(splits.drop_last()).insert(splits.last().uri, splits.last().content)
    }
}

/// Whether each split stored what the directory at its path held when it
/// was made, under an address that was new then.
pub open spec fn valid_splits(tree: Seq<EntryView>, splits: Seq<SplitRecord>) -> bool
    decreases splits.len(),
{
    if splits.len() == 0 {
        true
    } else {
        let earlier = splits.drop_last();
        &&& valid_splits(tree, earlier)
        &&& holds_at(tree_after(tree, earlier), split_path(splits.last().path), splits.last().content)
        &&& fresh(splits.last().uri, tree_after(tree, earlier), store_after(earlier))
    }
}

/// Whether no shard record of the splits holds a shard reference.
pub open spec fn shallow_splits(splits: Seq<SplitRecord>) -> bool {
    forall|i: int| 0 <= i < splits.len() ==> ref_free(#[trigger] splits[i].content)
}

/// Splitting, then expanding, gives the tree back.
///
/// Take a tree without shard references and split it any number of times,
/// each split storing what the directory at its path holds under a new
/// address. Expanding the result with the records stored, to a depth of at
/// least the number of splits, gives the first tree, and so the same blob
/// under every path.
pub proof fn theorem_round_trip(tree: Seq<EntryView>, splits: Seq<SplitRecord>, depth: nat)
    requires
        ref_free(tree),
        valid_splits(tree, splits),
        depth >= splits.len(),
    ensures
        within_depth(tree_after(tree, splits), store_after(splits), splits.len()),
        expand(tree_after(tree, splits), store_after(splits), depth) == tree,
        blob_map_of(
            expand(tree_after(tree, splits), store_after(splits), depth),
            Seq::<char>::empty(),
        ) == blob_map_of(tree, Seq::<char>::empty()),
    decreases splits.len(),
{
    if splits.len() == 0 {
        lemma_ref_free(tree, Map::empty(), 0, Seq::empty());
        lemma_ref_free(tree, Map::empty(), depth, Seq::empty());
    } else {
        let earlier = splits.drop_last();
        let made = (splits.len() - 1) as nat;
        theorem_round_trip(tree, earlier, made);
        lemma_split_then_expand(
            tree_after(tree, earlier),
            split_path(splits.last().path),
            splits.last().uri,
            splits.last().content,
            store_after(earlier),
            made,
        );
        lemma_any_deeper(tree_after(tree, splits), store_after(splits), splits.len(), depth);
    }
}

/// Splitting whole directories, then expanding to any depth, gives the tree
/// back.
///
/// Where no shard record holds a shard reference, as when only directories
/// of the tree's first level are moved out, a depth of one is enough
/// whatever the number of splits.
pub proof fn theorem_round_trip_shallow(
    tree: Seq<EntryView>,
    splits: Seq<SplitRecord>,
    depth: nat,
)
    requires
        ref_free(tree),
        valid_splits(tree, splits),
        shallow_splits(splits),
        depth >= 1,
    ensures
        within_depth(tree_after(tree, splits), store_after(splits), 1),
        expand(tree_after(tree, splits), store_after(splits), depth) == tree,
        blob_map_of(
            expand(tree_after(tree, splits), store_after(splits), depth),
            Seq::<char>::empty(),
        ) == blob_map_of(tree, Seq::<char>::empty()),
    decreases splits.len(),
{
    if splits.len() == 0 {
        lemma_ref_free(tree, Map::empty(), 1, Seq::empty());
        lemma_ref_free(tree, Map::empty(), depth, Seq::empty());
    } else {
        let earlier = splits.drop_last();
        assert(shallow_splits(earlier)) by {
            assert forall|i: int| 0 <= i < earlier.len() implies ref_free(
                #[trigger] earlier[i].content,
            ) by {
                assert(earlier[i] == splits[i]);
            }
        }
        theorem_round_trip_shallow(tree, earlier, 1);
        assert(ref_free(splits.last().content));
        lemma_ref_free(splits.last().content, store_after(earlier), 0, Seq::empty());
        lemma_split_keeps_depth(
            tree_after(tree, earlier),
            split_path(splits.last().path),
            splits.last().uri,
            splits.last().content,
            store_after(earlier),
            1,
        );
        lemma_any_deeper(tree_after(tree, splits), store_after(splits), 1, depth);
    }
}

} // verus!
