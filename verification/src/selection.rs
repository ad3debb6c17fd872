//! Which directory a split takes: the first of the largest, which is a
//! directory of the tree's first level.

use crate::blob_map::blob_map_of;
use crate::expand::expand;
use crate::path::{child_path, lemma_split_child, no_slash, split_path};
use crate::round_trip::{
    directory_at, fresh, holds_at, lemma_any_deeper, lemma_largest_candidate, lemma_ref_free,
    lemma_split_keeps_names, lemma_split_where_unnamed, mentions, ref_free, shallow_splits,
    store_after, theorem_round_trip_shallow, tree_after, valid_splits, well_named, within_depth,
    SplitRecord,
};
use crate::subfs_utils::{
    candidate, descending, directories_in, entries_size, estimated_size, insert_by_size,
    largest_first, lemma_largest_first, shard_entry, shard_refs, split_at, DIRECTORY_OVERHEAD,
    ENTRY_OVERHEAD, SplittableView,
};
use crate::tree::{clamp, EntryView, NodeView};
use vstd::prelude::*;

verus! {

/// The place, among the first `n` items, of the first of the largest.
pub open spec fn first_largest(items: Seq<SplittableView>, n: int) -> int
    decreases n,
{
    if n <= 1 || n > items.len() {
        0
    } else {
        let before = first_largest(items, n - 1);
        if items[n - 1].size > items[before].size {
            n - 1
        } else {
            before
        }
    }
}

/// What `first_largest` finds: an item that none is larger than, and that
/// every item before it is smaller than.
pub proof fn lemma_first_largest(items: Seq<SplittableView>, n: int)
    requires
        1 <= n <= items.len(),
    ensures
        0 <= first_largest(items, n) < n,
        forall|j: int| 0 <= j < n ==> (#[trigger] items[j]).size <= items[first_largest(items, n)].size,
        forall|j: int|
            0 <= j < first_largest(items, n) ==> (#[trigger] items[j]).size < items[first_largest(
                items,
                n,
            )].size,
    decreases n,
{
    if n > 1 {
        lemma_first_largest(items, n - 1);
    }
}

/// What stands first once an item is put into a descending list: the item
/// if it is larger than all, what stood first if not.
pub proof fn lemma_first_after_insert(sorted: Seq<SplittableView>, item: SplittableView)
    requires
        descending(sorted),
    ensures
        insert_by_size(sorted, item).len() > 0,
        insert_by_size(sorted, item)[0] == if sorted.len() > 0 && sorted[0].size >= item.size {
            sorted[0]
        } else {
            item
        },
    decreases sorted.len(),
{
    if sorted.len() > 0 {
        if sorted.last().size >= item.size {
            assert(sorted[0].size >= sorted[sorted.len() - 1].size);
        } else {
            let head = sorted.drop_last();
            assert(descending(head)) by {
                assert forall|i: int, j: int| 0 <= i < j < head.len() implies head[i].size
                    >= head[j].size by {
                    assert(head[i] == sorted[i]);
                    assert(head[j] == sorted[j]);
                }
            }
            lemma_first_after_insert(head, item);
            if head.len() > 0 {
                assert(head[0] == sorted[0]);
            }
        }
    }
}

/// The first of `largest_first` is the first of the largest.
pub proof fn lemma_first_of_sorted(items: Seq<SplittableView>)
    requires
        items.len() > 0,
    ensures
        largest_first(items).len() > 0,
        largest_first(items)[0] == items[first_largest(items, items.len() as int)],
{
    lemma_first_of_sorted_upto(items, items.len() as int);
    assert(items.take(items.len() as int) == items);
}

/// The first of the order of the first `n` items is the first of their
/// largest.
pub proof fn lemma_first_of_sorted_upto(items: Seq<SplittableView>, n: int)
    requires
        1 <= n <= items.len(),
    ensures
        largest_first(items.take(n)).len() > 0,
        largest_first(items.take(n))[0] == items[first_largest(items, n)],
    decreases n,
{
    let now = items.take(n);
    let earlier = items.take(n - 1);
    assert(now.drop_last() == earlier);
    assert(now.last() == items[n - 1]);
    lemma_largest_first(earlier);
    lemma_first_after_insert(largest_first(earlier), items[n - 1]);
    if n > 1 {
        lemma_first_of_sorted_upto(items, n - 1);
        lemma_first_largest(items, n - 1);
    } else {
        assert(earlier.len() == 0);
    }
}

/// A directory among `entries` is no larger than all of them.
pub proof fn lemma_member_size(entries: Seq<EntryView>, j: int)
    requires
        0 <= j < entries.len(),
        entries[j].node is Directory,
    ensures
        entries_size(entries) >= ENTRY_OVERHEAD + DIRECTORY_OVERHEAD + entries_size(
            entries[j].node->Directory_0,
        ),
    decreases entries.len(),
{
    if j < entries.len() - 1 {
        lemma_member_size(entries.drop_last(), j);
        assert(entries.drop_last()[j] == entries[j]);
    }
}

/// Whether `found` is a directory of the first level of `entries`.
pub open spec fn top_level(entries: Seq<EntryView>, prefix: Seq<char>, found: SplittableView) -> bool {
    exists|j: int|
        0 <= j < entries.len() && (#[trigger] entries[j]).node == NodeView::Directory(
            found.directory,
        ) && found == candidate(child_path(prefix, entries[j].name), found.directory)
}

/// No directory of a tree is larger than the tree.
pub proof fn lemma_not_larger(entries: Seq<EntryView>, prefix: Seq<char>, i: int)
    requires
        0 <= i < directories_in(entries, prefix).len(),
    ensures
        directories_in(entries, prefix)[i].size <= clamp(estimated_size(entries)),
    decreases entries,
{
    let earlier = entries.drop_last();
    let last = entries.last();
    let before = directories_in(earlier, prefix);
    if i < before.len() {
        lemma_not_larger(earlier, prefix, i);
    } else {
        let path = child_path(prefix, last.name);
        match last.node {
            NodeView::Directory(sub) => {
                lemma_member_size(entries, entries.len() - 1);
                if i > before.len() {
                    lemma_not_larger(sub, path, i - before.len() - 1);
                }
            },
            _ => {},
        }
    }
}

/// Every directory has, at or before its place in the walk, a directory
/// of the first level that is at least as large.
pub proof fn lemma_top_ancestor(entries: Seq<EntryView>, prefix: Seq<char>, i: int) -> (k: int)
    requires
        0 <= i < directories_in(entries, prefix).len(),
    ensures
        0 <= k <= i,
        top_level(entries, prefix, directories_in(entries, prefix)[k]),
        directories_in(entries, prefix)[k].size >= directories_in(entries, prefix)[i].size,
    decreases entries.len(),
{
    let earlier = entries.drop_last();
    let last = entries.last();
    let before = directories_in(earlier, prefix);
    if i < before.len() {
        let k = lemma_top_ancestor(earlier, prefix, i);
        let j = choose|j: int|
            0 <= j < earlier.len() && (#[trigger] earlier[j]).node == NodeView::Directory(
                before[k].directory,
            ) && before[k] == candidate(child_path(prefix, earlier[j].name), before[k].directory);
        assert(entries[j] == earlier[j]);
        k
    } else {
        let path = child_path(prefix, last.name);
        match last.node {
            NodeView::Directory(sub) => {
                let k = before.len() as int;
                assert(entries[entries.len() - 1].node == NodeView::Directory(sub));
                assert(directories_in(entries, prefix)[k] == candidate(path, sub));
                if i > k {
                    lemma_not_larger(sub, path, i - k - 1);
                }
                k
            },
            _ => 0,
        }
    }
}

/// Whether shard references stand at the first level alone: the
/// directories of the first level hold none.
pub open spec fn flat_refs(entries: Seq<EntryView>) -> bool
    decreases entries.len(),
{
    if entries.len() == 0 {
        true
    } else {
        flat_refs(entries.drop_last()) && match entries.last().node {
            NodeView::Directory(sub) => ref_free(sub),
            NodeView::File(_) => true,
            NodeView::Subfs(_) => true,
            NodeView::Unknown => true,
        }
    }
}

/// A tree without shard references has none below its first level.
pub proof fn lemma_ref_free_is_flat(entries: Seq<EntryView>)
    requires
        ref_free(entries),
    ensures
        flat_refs(entries),
    decreases entries.len(),
{
    if entries.len() > 0 {
        lemma_ref_free_is_flat(entries.drop_last());
    }
}

/// The directories of the first level of such a tree hold no references.
pub proof fn lemma_flat_member(entries: Seq<EntryView>, j: int)
    requires
        flat_refs(entries),
        0 <= j < entries.len(),
        entries[j].node is Directory,
    ensures
        ref_free(entries[j].node->Directory_0),
    decreases entries.len(),
{
    if j < entries.len() - 1 {
        lemma_flat_member(entries.drop_last(), j);
        assert(entries.drop_last()[j] == entries[j]);
    }
}

/// A split at the first level leaves the references at the first level.
pub proof fn lemma_split_keeps_flat(
    entries: Seq<EntryView>,
    name: Seq<char>,
    uri: Seq<char>,
    flat: bool,
)
    requires
        flat_refs(entries),
    ensures
        flat_refs(split_at(entries, seq![name], uri, flat)),
    decreases entries.len(),
{
    if entries.len() > 0 {
        lemma_split_keeps_flat(entries.drop_last(), name, uri, flat);
        let changed = split_at(entries, seq![name], uri, flat);
        assert(changed.drop_last() == split_at(entries.drop_last(), seq![name], uri, flat));
    }
}

/// The directory that a split takes stands at the first level.
///
/// The first of a tree's directories in the order of their sizes is a
/// directory of the tree's first level: no directory is larger than the
/// one that holds it, and of two of one size the outer one is met first.
/// So where references stand at the first level alone, as they do while a
/// tree that had none is split, what a split moves out holds none.
pub proof fn lemma_largest_is_top_level(entries: Seq<EntryView>)
    requires
        directories_in(entries, Seq::<char>::empty()).len() > 0,
    ensures
        largest_first(directories_in(entries, Seq::<char>::empty())).len() > 0,
        top_level(
            entries,
            Seq::<char>::empty(),
            largest_first(directories_in(entries, Seq::<char>::empty()))[0],
        ),
        flat_refs(entries) ==> ref_free(
            largest_first(directories_in(entries, Seq::<char>::empty()))[0].directory,
        ),
{
    let prefix = Seq::<char>::empty();
    let all = directories_in(entries, prefix);
    lemma_first_of_sorted(all);
    let m = first_largest(all, all.len() as int);
    lemma_first_largest(all, all.len() as int);
    let k = lemma_top_ancestor(entries, prefix, m);
    assert(k == m);
    if flat_refs(entries) {
        let j = choose|j: int|
            0 <= j < entries.len() && (#[trigger] entries[j]).node == NodeView::Directory(
                all[m].directory,
            ) && all[m] == candidate(child_path(prefix, entries[j].name), all[m].directory);
        lemma_flat_member(entries, j);
    }
}

/// What a split of the largest directory keeps.
///
/// Let a tree have names that can stand in paths, and shard references at
/// its first level alone. Then the directory that a split takes holds no
/// reference, its path leads to it alone, and the tree after the split is
/// of the same kind: the next split finds what this one found.
pub proof fn lemma_split_at_largest(entries: Seq<EntryView>, uri: Seq<char>)
    requires
        well_named(entries),
        flat_refs(entries),
        directories_in(entries, Seq::<char>::empty()).len() > 0,
    ensures
        ({
            let found = largest_first(directories_in(entries, Seq::<char>::empty()))[0];
            let after = split_at(entries, split_path(found.path), uri, false);
            &&& ref_free(found.directory)
            &&& holds_at(entries, split_path(found.path), found.directory)
            &&& well_named(after)
            &&& flat_refs(after)
        }),
{
    let prefix = Seq::<char>::empty();
    let found = largest_first(directories_in(entries, prefix))[0];
    lemma_largest_is_top_level(entries);
    lemma_largest_candidate(entries);
    lemma_split_keeps_names(entries, split_path(found.path), uri, false);
    let j = choose|j: int|
        0 <= j < entries.len() && (#[trigger] entries[j]).node == NodeView::Directory(
            found.directory,
        ) && found == candidate(child_path(prefix, entries[j].name), found.directory);
    lemma_named_member(entries, j);
    lemma_split_child(prefix, entries[j].name);
    assert(split_path(found.path) == seq![entries[j].name]);
    lemma_split_keeps_flat(entries, entries[j].name, uri, false);
}

/// The names of a tree whose names can stand in paths hold no `/`.
pub proof fn lemma_named_member(entries: Seq<EntryView>, j: int)
    requires
        well_named(entries),
        0 <= j < entries.len(),
    ensures
        no_slash(entries[j].name),
        entries[j].name.len() > 0,
    decreases entries.len(),
{
    if j < entries.len() - 1 {
        lemma_named_member(entries.drop_last(), j);
        assert(entries.drop_last()[j] == entries[j]);
    }
}

/// The splits of a deploy that moves out, `k` times, the largest directory
/// of the tree as it then stands, the shard records getting the addresses
/// `uris` in turn.
pub open spec fn largest_splits(tree: Seq<EntryView>, uris: Seq<Seq<char>>, k: int) -> Seq<
    SplitRecord,
>
    decreases k,
{
    if k <= 0 || k > uris.len() {
        Seq::empty()
    } else {
        let earlier = largest_splits(tree, uris, k - 1);
        let found = largest_first(
            directories_in(tree_after(tree, earlier), Seq::<char>::empty()),
        )[0];
        earlier.push(
            SplitRecord {
                path: found.path,
                uri: uris[k - 1],
                content: found.directory,
            },
        )
    }
}

/// Whether each of the first `k` splits finds a directory to move out.
pub open spec fn can_split(tree: Seq<EntryView>, uris: Seq<Seq<char>>, k: int) -> bool
    decreases k,
{
    if k <= 0 || k > uris.len() {
        true
    } else {
        can_split(tree, uris, k - 1) && directories_in(
            tree_after(tree, largest_splits(tree, uris, k - 1)),
            Seq::<char>::empty(),
        ).len() > 0
    }
}

/// Whether no address occurs twice.
pub open spec fn distinct(uris: Seq<Seq<char>>) -> bool {
    forall|i: int, j: int| 0 <= i < j < uris.len() ==> uris[i] != uris[j]
}

/// A split brings no reference but its own.
pub proof fn lemma_mentions_after_split(
    entries: Seq<EntryView>,
    segments: Seq<Seq<char>>,
    uri: Seq<char>,
    flat: bool,
    other: Seq<char>,
)
    requires
        other != uri,
        !mentions(entries, other),
    ensures
        !mentions(split_at(entries, segments, uri, flat), other),
    decreases entries,
{
    if entries.len() > 0 && segments.len() > 0 {
        lemma_mentions_after_split(entries.drop_last(), segments, uri, flat, other);
        let changed = split_at(entries, segments, uri, flat);
        assert(changed.drop_last() == split_at(entries.drop_last(), segments, uri, flat));
        match entries.last().node {
            NodeView::Directory(sub) => {
                if entries.last().name == segments[0] && segments.len() > 1 {
                    lemma_mentions_after_split(sub, segments.skip(1), uri, flat, other);
                }
            },
            _ => {
                assert(changed.last() == entries.last());
            },
        }
    }
}

/// What holds after `k` splits of the largest directory.
pub proof fn lemma_largest_splits(tree: Seq<EntryView>, uris: Seq<Seq<char>>, k: int)
    requires
        ref_free(tree),
        well_named(tree),
        distinct(uris),
        0 <= k <= uris.len(),
        can_split(tree, uris, k),
    ensures
        largest_splits(tree, uris, k).len() == k,
        valid_splits(tree, largest_splits(tree, uris, k)),
        shallow_splits(largest_splits(tree, uris, k)),
        well_named(tree_after(tree, largest_splits(tree, uris, k))),
        flat_refs(tree_after(tree, largest_splits(tree, uris, k))),
        forall|u: Seq<char>|
            mentions(tree_after(tree, largest_splits(tree, uris, k)), u) ==> exists|i: int|
                0 <= i < k && #[trigger] uris[i] == u,
        forall|a: Seq<char>|
            store_after(largest_splits(tree, uris, k)).contains_key(a) ==> ref_free(
                #[trigger] store_after(largest_splits(tree, uris, k))[a],
            ) && exists|i: int| 0 <= i < k && #[trigger] uris[i] == a,
    decreases k,
{
    let now = largest_splits(tree, uris, k);
    if k == 0 {
        lemma_ref_free_is_flat(tree);
        assert forall|u: Seq<char>| !mentions(tree, u) by {
            lemma_ref_free(tree, Map::empty(), 0, u);
        }
    } else {
        let earlier = largest_splits(tree, uris, k - 1);
        lemma_largest_splits(tree, uris, k - 1);
        let before = tree_after(tree, earlier);
        let store = store_after(earlier);
        let found = largest_first(directories_in(before, Seq::<char>::empty()))[0];
        let uri = uris[k - 1];
        lemma_split_at_largest(before, uri);
        assert(now.drop_last() == earlier);
        assert(now.last().content == found.directory);
        assert(shallow_splits(now)) by {
            assert forall|i: int| 0 <= i < now.len() implies ref_free(#[trigger] now[i].content) by {
                if i < earlier.len() {
                    assert(now[i] == earlier[i]);
                }
            }
        }
        assert(fresh(uri, before, store)) by {
            if mentions(before, uri) {
                let i = choose|i: int| 0 <= i < k - 1 && #[trigger] uris[i] == uri;
                assert(uris[i] != uris[k - 1]);
            }
            if store.contains_key(uri) {
                assert(ref_free(store[uri]));
                let i = choose|i: int| 0 <= i < k - 1 && #[trigger] uris[i] == uri;
                assert(uris[i] != uris[k - 1]);
            }
            assert forall|a: Seq<char>| store.contains_key(a) implies !mentions(
                #[trigger] store[a],
                uri,
            ) by {
                assert(ref_free(store[a]));
                lemma_ref_free(store[a], Map::empty(), 0, uri);
            }
        }
        let after = tree_after(tree, now);
        assert forall|u: Seq<char>| mentions(after, u) implies exists|i: int|
            0 <= i < k && #[trigger] uris[i] == u by {
            if u == uri {
                assert(uris[k - 1] == u);
            } else {
                if !mentions(before, u) {
                    lemma_mentions_after_split(before, split_path(found.path), uri, false, u);
                }
                let i = choose|i: int| 0 <= i < k - 1 && #[trigger] uris[i] == u;
                assert(uris[i] == u);
            }
        }
        assert forall|a: Seq<char>| store_after(now).contains_key(a) implies ref_free(
            #[trigger] store_after(now)[a],
        ) && exists|i: int| 0 <= i < k && #[trigger] uris[i] == a by {
            if a == uri {
                assert(uris[k - 1] == a);
            } else {
                assert(store.contains_key(a));
                assert(ref_free(store[a]));
                let i = choose|i: int| 0 <= i < k - 1 && #[trigger] uris[i] == a;
                assert(uris[i] == a);
            }
        }
    }
}

/// The shards that the splits made, each as its address and the path it
/// stands for, in the order of the splits.
pub open spec fn recorded(splits: Seq<SplitRecord>) -> Seq<(Seq<char>, Seq<char>)> {
    Seq::new(splits.len(), |i: int| (splits[i].uri, splits[i].path))
}

/// A tree without shard references lists none.
pub proof fn lemma_no_refs(entries: Seq<EntryView>, prefix: Seq<char>)
    requires
        ref_free(entries),
    ensures
        shard_refs(entries, prefix) == Seq::<(Seq<char>, Seq<char>)>::empty(),
    decreases entries,
{
    if entries.len() > 0 {
        lemma_no_refs(entries.drop_last(), prefix);
        match entries.last().node {
            NodeView::Directory(sub) => {
                lemma_no_refs(sub, child_path(prefix, entries.last().name));
            },
            _ => {},
        }
        assert(Seq::<(Seq<char>, Seq<char>)>::empty() + Seq::<(Seq<char>, Seq<char>)>::empty()
            == Seq::<(Seq<char>, Seq<char>)>::empty());
    }
}

/// A directory of the first level stands at the path of its name.
pub proof fn lemma_member_stands(entries: Seq<EntryView>, j: int)
    requires
        0 <= j < entries.len(),
        entries[j].node is Directory,
    ensures
        directory_at(entries, seq![entries[j].name]),
    decreases entries.len(),
{
    if j < entries.len() - 1 {
        lemma_member_stands(entries.drop_last(), j);
        assert(entries.drop_last()[j] == entries[j]);
    }
}

/// A split at the first level adds one reference and takes none away.
pub proof fn lemma_refs_after_split(
    entries: Seq<EntryView>,
    prefix: Seq<char>,
    name: Seq<char>,
    uri: Seq<char>,
)
    requires
        flat_refs(entries),
        well_named(entries),
        directory_at(entries, seq![name]),
    ensures
        shard_refs(split_at(entries, seq![name], uri, false), prefix).to_multiset() == shard_refs(
            entries,
            prefix,
        ).to_multiset().insert((uri, child_path(prefix, name))),
    decreases entries.len(),
{
    broadcast use vstd::seq_lib::group_to_multiset_ensures;

    let rest = entries.drop_last();
    let last = entries.last();
    let path = child_path(prefix, last.name);
    let changed = split_at(entries, seq![name], uri, false);
    assert(changed.drop_last() == split_at(rest, seq![name], uri, false));
    let old_rest = shard_refs(rest, prefix);
    let new_rest = shard_refs(changed.drop_last(), prefix);
    let added = (uri, child_path(prefix, name));
    if last.node is Directory && last.name == name {
        lemma_split_where_unnamed(rest, seq![name], uri, false);
        lemma_no_refs(last.node->Directory_0, path);
        assert(changed.last() == shard_entry(last.name, uri, false));
        assert(old_rest + Seq::<(Seq<char>, Seq<char>)>::empty() == old_rest);
        assert(old_rest + seq![added] == old_rest.push(added));
    } else {
        assert(changed.last() == last);
        lemma_refs_after_split(rest, prefix, name, uri);
        let tail = match last.node {
            NodeView::Subfs(r) => seq![(r.subject, path)],
            NodeView::Directory(sub) => shard_refs(sub, path),
            NodeView::File(_) => Seq::empty(),
            NodeView::Unknown => Seq::empty(),
        };
        vstd::seq_lib::lemma_multiset_commutative(new_rest, tail);
        vstd::seq_lib::lemma_multiset_commutative(old_rest, tail);
        assert(new_rest.to_multiset().add(tail.to_multiset()) =~= old_rest.to_multiset().add(
            tail.to_multiset(),
        ).insert(added));
    }
}

/// The manifest holds one reference for each shard.
///
/// After a tree without shard references was split by moving out its
/// largest directory any number of times, the references of the tree that
/// is left are those of the shards that were made, no more and no fewer:
/// each shard's address stands once, at the path of the directory that
/// the shard holds.
pub proof fn lemma_one_reference_per_shard(tree: Seq<EntryView>, uris: Seq<Seq<char>>, k: int)
    requires
        ref_free(tree),
        well_named(tree),
        distinct(uris),
        0 <= k <= uris.len(),
        can_split(tree, uris, k),
    ensures
        shard_refs(
            tree_after(tree, largest_splits(tree, uris, k)),
            Seq::<char>::empty(),
        ).to_multiset() == recorded(largest_splits(tree, uris, k)).to_multiset(),
        shard_refs(tree_after(tree, largest_splits(tree, uris, k)), Seq::<char>::empty()).len()
            == k,
    decreases k,
{
    broadcast use vstd::seq_lib::group_to_multiset_ensures;

    let prefix = Seq::<char>::empty();
    let now = largest_splits(tree, uris, k);
    lemma_largest_splits(tree, uris, k);
    if k == 0 {
        lemma_no_refs(tree, prefix);
        assert(recorded(now) =~= Seq::empty());
    } else {
        let earlier = largest_splits(tree, uris, k - 1);
        lemma_one_reference_per_shard(tree, uris, k - 1);
        lemma_largest_splits(tree, uris, k - 1);
        let before = tree_after(tree, earlier);
        let found = largest_first(directories_in(before, prefix))[0];
        lemma_largest_is_top_level(before);
        let j = choose|j: int|
            0 <= j < before.len() && (#[trigger] before[j]).node == NodeView::Directory(
                found.directory,
            ) && found == candidate(child_path(prefix, before[j].name), found.directory);
        lemma_named_member(before, j);
        lemma_split_child(prefix, before[j].name);
        assert(split_path(found.path) == seq![before[j].name]);
        lemma_member_stands(before, j);
        lemma_refs_after_split(before, prefix, before[j].name, uris[k - 1]);
        assert(now.drop_last() == earlier);
        assert(recorded(now) =~= recorded(earlier).push((uris[k - 1], found.path)));
    }
    vstd::seq_lib::to_multiset_len(shard_refs(tree_after(tree, now), prefix));
    vstd::seq_lib::to_multiset_len(recorded(now));
}

/// A deploy that splits, then a pull that expands, gives the tree back.
///
/// Take a tree without shard references whose names can stand in paths,
/// and move out its largest directory any number of times, each shard
/// record under an address of its own. Expanding the result with the
/// records stored, to any depth of at least one, gives the first tree, and
/// so the same blob under every path.
pub proof fn theorem_deploy_then_pull(
    tree: Seq<EntryView>,
    uris: Seq<Seq<char>>,
    k: int,
    depth: nat,
)
    requires
        ref_free(tree),
        well_named(tree),
        distinct(uris),
        0 <= k <= uris.len(),
        can_split(tree, uris, k),
        depth >= 1,
    ensures
        within_depth(
            tree_after(tree, largest_splits(tree, uris, k)),
            store_after(largest_splits(tree, uris, k)),
            depth,
        ),
        expand(
            tree_after(tree, largest_splits(tree, uris, k)),
            store_after(largest_splits(tree, uris, k)),
            depth,
        ) == tree,
        blob_map_of(
            expand(
                tree_after(tree, largest_splits(tree, uris, k)),
                store_after(largest_splits(tree, uris, k)),
                depth,
            ),
            Seq::<char>::empty(),
        ) == blob_map_of(tree, Seq::<char>::empty()),
{
    lemma_largest_splits(tree, uris, k);
    theorem_round_trip_shallow(tree, largest_splits(tree, uris, k), depth);
    lemma_any_deeper(
        tree_after(tree, largest_splits(tree, uris, k)),
        store_after(largest_splits(tree, uris, k)),
        1,
        depth,
    );
}

} // verus!
