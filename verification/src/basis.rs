//! The blobs that a deploy can use again: those of the previous manifest
//! and of the shard records it refers to are the blobs of the expanded
//! tree.

use crate::blob_map::{blob_map_of, has_name, lemma_paths_below, unique_names, BlobInfoView};
use crate::expand::{directory_entry, expand};
use crate::path::{base_segments, child_path, lemma_split_child, split_path};
use crate::round_trip::{
    has_directory, lemma_ref_free, ref_free, store_after, tree_after, well_named,
};
use crate::selection::{
    can_split, distinct, largest_splits, lemma_largest_is_top_level, lemma_largest_splits,
    lemma_split_at_largest, theorem_deploy_then_pull,
};
use crate::subfs_utils::{candidate, directories_in, largest_first, split_at};
use crate::tree::{EntryView, NodeView};
use vstd::prelude::*;

verus! {

/// The shard records that the references below `entries` lead to, each
/// with the path of its reference, in the order of the references.
pub open spec fn mounted(
    entries: Seq<EntryView>,
    prefix: Seq<char>,
    store: Map<Seq<char>, Seq<EntryView>>,
) -> Seq<(Seq<EntryView>, Seq<char>)>
    decreases entries,
{
    if entries.len() == 0 {
        Seq::empty()
    } else {
        let path = child_path(prefix, entries.last().name);
        mounted(entries.drop_last(), prefix, store) + match entries.last().node {
            NodeView::Subfs(r) => if store.contains_key(r.subject) {
                seq![(store[r.subject], path)]
            } else {
                Seq::empty()
            },
            NodeView::Directory(sub) => mounted(sub, path, store),
            NodeView::File(_) => Seq::empty(),
            NodeView::Unknown => Seq::empty(),
        }
    }
}

/// The blobs of a list of records, each record's tree taken at its path,
/// a later record's blob in the place of an earlier one of the same path.
pub open spec fn blobs_of(records: Seq<(Seq<EntryView>, Seq<char>)>) -> Map<Seq<char>, BlobInfoView>
    decreases records.len(),
{
    if records.len() == 0 {
        Map::empty()
    } else {
        blobs_of(records.drop_last()).union_prefer_right(
            blob_map_of(records.last().0, records.last().1),
        )
    }
}

/// Whether no shard reference below `entries` is flat.
pub open spec fn nested_refs(entries: Seq<EntryView>) -> bool
    decreases entries,
{
    if entries.len() == 0 {
        true
    } else {
        nested_refs(entries.drop_last()) && match entries.last().node {
            NodeView::Subfs(r) => !r.flat,
            NodeView::Directory(sub) => nested_refs(sub),
            NodeView::File(_) => true,
            NodeView::Unknown => true,
        }
    }
}

/// Whether every record of the store is a tree of its own: without shard
/// references, and with names that tell its paths apart.
pub open spec fn plain_store(store: Map<Seq<char>, Seq<EntryView>>) -> bool {
    forall|a: Seq<char>|
        store.contains_key(a) ==> ref_free(#[trigger] store[a]) && unique_names(store[a])
}

/// The blobs of one record.
pub proof fn lemma_blobs_of_one(content: Seq<EntryView>, path: Seq<char>)
    ensures
        blobs_of(seq![(content, path)]) == blob_map_of(content, path),
{
    let one = seq![(content, path)];
    assert(one.drop_last() == Seq::<(Seq<EntryView>, Seq<char>)>::empty());
    assert(one.last() == (content, path));
    assert(blobs_of(one.drop_last()) == Map::<Seq<char>, BlobInfoView>::empty());
    assert(blobs_of(one) =~= blob_map_of(content, path));
}

/// The blobs of one entry.
pub proof fn lemma_blob_map_one(entry: EntryView, prefix: Seq<char>)
    ensures
        blob_map_of(seq![entry], prefix) == match entry.node {
            NodeView::File(f) => Map::<Seq<char>, BlobInfoView>::empty().insert(
                child_path(prefix, entry.name),
                crate::blob_map::info_of(f),
            ),
            NodeView::Directory(sub) => blob_map_of(sub, child_path(prefix, entry.name)),
            NodeView::Subfs(_) => Map::<Seq<char>, BlobInfoView>::empty(),
            NodeView::Unknown => Map::<Seq<char>, BlobInfoView>::empty(),
        },
{
    let one = seq![entry];
    assert(one.drop_last() == Seq::<EntryView>::empty());
    assert(one.last() == entry);
    assert(blob_map_of(one.drop_last(), prefix) == Map::<Seq<char>, BlobInfoView>::empty());
    match entry.node {
        NodeView::Directory(sub) => {
            assert(Map::<Seq<char>, BlobInfoView>::empty().union_prefer_right(
                blob_map_of(sub, child_path(prefix, entry.name)),
            ) =~= blob_map_of(sub, child_path(prefix, entry.name)));
        },
        _ => {},
    }
}

/// The blobs of a joined list of records are those of its parts.
pub proof fn lemma_blobs_of_concat(
    a: Seq<(Seq<EntryView>, Seq<char>)>,
    b: Seq<(Seq<EntryView>, Seq<char>)>,
)
    ensures
        blobs_of(a + b) == blobs_of(a).union_prefer_right(blobs_of(b)),
    decreases b.len(),
{
    if b.len() == 0 {
        assert(a + b == a);
        assert(blobs_of(a).union_prefer_right(blobs_of(b)) =~= blobs_of(a));
    } else {
        lemma_blobs_of_concat(a, b.drop_last());
        assert((a + b).drop_last() == a + b.drop_last());
        assert((a + b).last() == b.last());
        let last = blob_map_of(b.last().0, b.last().1);
        assert(blobs_of(a).union_prefer_right(blobs_of(b.drop_last())).union_prefer_right(last)
            =~= blobs_of(a).union_prefer_right(blobs_of(b.drop_last()).union_prefer_right(last)));
    }
}

/// The blobs of a joined list of entries are those of its parts.
pub proof fn lemma_blob_map_concat(a: Seq<EntryView>, b: Seq<EntryView>, prefix: Seq<char>)
    ensures
        blob_map_of(a + b, prefix) == blob_map_of(a, prefix).union_prefer_right(
            blob_map_of(b, prefix),
        ),
    decreases b.len(),
{
    if b.len() == 0 {
        assert(a + b == a);
        assert(blob_map_of(a, prefix).union_prefer_right(blob_map_of(b, prefix)) =~= blob_map_of(
            a,
            prefix,
        ));
    } else {
        lemma_blob_map_concat(a, b.drop_last(), prefix);
        assert((a + b).drop_last() == a + b.drop_last());
        assert((a + b).last() == b.last());
        let head = blob_map_of(a, prefix);
        let mid = blob_map_of(b.drop_last(), prefix);
        let path = child_path(prefix, b.last().name);
        match b.last().node {
            NodeView::File(f) => {
                assert(head.union_prefer_right(mid).insert(path, crate::blob_map::info_of(f))
                    =~= head.union_prefer_right(mid.insert(path, crate::blob_map::info_of(f))));
            },
            NodeView::Directory(sub) => {
                let inner = blob_map_of(sub, path);
                assert(head.union_prefer_right(mid).union_prefer_right(inner)
                    =~= head.union_prefer_right(mid.union_prefer_right(inner)));
            },
            _ => {},
        }
    }
}

/// Every path of the records mounted below a directory lies below that
/// directory, in one of its entries.
pub proof fn lemma_mounted_below(
    entries: Seq<EntryView>,
    prefix: Seq<char>,
    store: Map<Seq<char>, Seq<EntryView>>,
    path: Seq<char>,
)
    requires
        unique_names(entries),
        plain_store(store),
        blobs_of(mounted(entries, prefix, store)).contains_key(path),
    ensures
        split_path(path).len() > base_segments(prefix).len(),
        split_path(path).take(base_segments(prefix).len() as int) == base_segments(prefix),
        has_name(entries, split_path(path)[base_segments(prefix).len() as int]),
    decreases entries,
{
    let base = base_segments(prefix);
    let last = entries.last();
    let own = child_path(prefix, last.name);
    let earlier = mounted(entries.drop_last(), prefix, store);
    lemma_split_child(prefix, last.name);
    assert(base_segments(own) == base + seq![last.name]);
    match last.node {
        NodeView::Subfs(r) => {
            if store.contains_key(r.subject) {
                let one = seq![(store[r.subject], own)];
                lemma_blobs_of_concat(earlier, one);
                lemma_blobs_of_one(store[r.subject], own);
                if blob_map_of(store[r.subject], own).contains_key(path) {
                    lemma_paths_below(store[r.subject], own, path);
                    let longer = split_path(path).take(base_segments(own).len() as int);
                    assert(split_path(path).take(base.len() as int) == longer.take(
                        base.len() as int,
                    ));
                    assert(longer.take(base.len() as int) == base);
                    assert(split_path(path)[base.len() as int] == longer[base.len() as int]);
                } else {
                    lemma_mounted_below(entries.drop_last(), prefix, store, path);
                }
            } else {
                assert(earlier + Seq::empty() == earlier);
                lemma_mounted_below(entries.drop_last(), prefix, store, path);
            }
        },
        NodeView::Directory(sub) => {
            let inner = mounted(sub, own, store);
            lemma_blobs_of_concat(earlier, inner);
            if blobs_of(inner).contains_key(path) {
                lemma_mounted_below(sub, own, store, path);
                let longer = split_path(path).take(base_segments(own).len() as int);
                assert(split_path(path).take(base.len() as int) == longer.take(base.len() as int));
                assert(longer.take(base.len() as int) == base);
                assert(split_path(path)[base.len() as int] == longer[base.len() as int]);
            } else {
                lemma_mounted_below(entries.drop_last(), prefix, store, path);
            }
        },
        _ => {
            assert(earlier + Seq::empty() == earlier);
            lemma_mounted_below(entries.drop_last(), prefix, store, path);
        },
    }
}

/// The blobs of an expanded tree are the blobs of the tree and of its
/// shards.
///
/// Let no reference of a tree be flat, let names tell the tree's paths
/// apart, and let every shard record be a tree of its own. Then the blobs
/// found under the paths of the expanded tree are those of the tree itself
/// together with those of each shard record taken at the path of its
/// reference: what a deploy gathers of the deploy before it is what a
/// pull would bring to disk.
pub proof fn lemma_basis_is_expansion(
    entries: Seq<EntryView>,
    prefix: Seq<char>,
    store: Map<Seq<char>, Seq<EntryView>>,
)
    requires
        unique_names(entries),
        nested_refs(entries),
        plain_store(store),
    ensures
        blob_map_of(expand(entries, store, 1), prefix) == blob_map_of(
            entries,
            prefix,
        ).union_prefer_right(blobs_of(mounted(entries, prefix, store))),
    decreases entries,
{
    if entries.len() == 0 {
        assert(blob_map_of(entries, prefix).union_prefer_right(
            blobs_of(mounted(entries, prefix, store)),
        ) =~= blob_map_of(expand(entries, store, 1), prefix));
    } else {
        let rest = entries.drop_last();
        let last = entries.last();
        let own = child_path(prefix, last.name);
        let base = base_segments(prefix);
        lemma_basis_is_expansion(rest, prefix, store);
        lemma_split_child(prefix, last.name);
        let b_rest = blob_map_of(rest, prefix);
        let m_rest = blobs_of(mounted(rest, prefix, store));
        let e_rest = expand(rest, store, 1);
        assert forall|k: Seq<char>| m_rest.contains_key(k) implies split_path(k).len() > base.len()
            && split_path(k)[base.len() as int] != last.name by {
            lemma_mounted_below(rest, prefix, store, k);
        }
        assert((base + seq![last.name])[base.len() as int] == last.name);
        match last.node {
            NodeView::File(f) => {
                let added = seq![last];
                lemma_blob_map_concat(e_rest, added, prefix);
                lemma_blob_map_one(last, prefix);
                assert(mounted(rest, prefix, store) + Seq::empty() == mounted(rest, prefix, store));
                assert(!m_rest.contains_key(own));
                assert(blob_map_of(expand(entries, store, 1), prefix) =~= blob_map_of(
                    entries,
                    prefix,
                ).union_prefer_right(blobs_of(mounted(entries, prefix, store))));
            },
            NodeView::Unknown => {
                let added = seq![last];
                lemma_blob_map_concat(e_rest, added, prefix);
                lemma_blob_map_one(last, prefix);
                assert(mounted(rest, prefix, store) + Seq::empty() == mounted(rest, prefix, store));
                assert(blob_map_of(expand(entries, store, 1), prefix) =~= blob_map_of(
                    entries,
                    prefix,
                ).union_prefer_right(blobs_of(mounted(entries, prefix, store))));
            },
            NodeView::Subfs(r) => {
                if store.contains_key(r.subject) {
                    let content = store[r.subject];
                    lemma_ref_free(content, store, 0, Seq::empty());
                    let added = seq![directory_entry(last.name, content)];
                    assert(expand(entries, store, 1) == e_rest + added);
                    lemma_blob_map_concat(e_rest, added, prefix);
                    lemma_blob_map_one(directory_entry(last.name, content), prefix);
                    let one = seq![(content, own)];
                    lemma_blobs_of_concat(mounted(rest, prefix, store), one);
                    lemma_blobs_of_one(content, own);
                    assert(b_rest.union_prefer_right(m_rest).union_prefer_right(
                        blob_map_of(content, own),
                    ) =~= b_rest.union_prefer_right(
                        m_rest.union_prefer_right(blob_map_of(content, own)),
                    ));
                } else {
                    assert(expand(entries, store, 1) == e_rest + Seq::empty());
                    assert(e_rest + Seq::<EntryView>::empty() == e_rest);
                    assert(mounted(rest, prefix, store) + Seq::empty() == mounted(
                        rest,
                        prefix,
                        store,
                    ));
                }
            },
            NodeView::Directory(sub) => {
                lemma_basis_is_expansion(sub, own, store);
                let inner = expand(sub, store, 1);
                let added = seq![directory_entry(last.name, inner)];
                lemma_blob_map_concat(e_rest, added, prefix);
                lemma_blob_map_one(directory_entry(last.name, inner), prefix);
                let b_sub = blob_map_of(sub, own);
                let m_sub = blobs_of(mounted(sub, own, store));
                lemma_blobs_of_concat(mounted(rest, prefix, store), mounted(sub, own, store));
                assert forall|k: Seq<char>| b_sub.contains_key(k) implies !m_rest.contains_key(
                    k,
                ) by {
                    lemma_paths_below(sub, own, k);
                    assert(base_segments(own) == base + seq![last.name]);
                    let longer = split_path(k).take(base_segments(own).len() as int);
                    assert(split_path(k)[base.len() as int] == longer[base.len() as int]);
                }
                assert(b_rest.union_prefer_right(m_rest).union_prefer_right(
                    b_sub.union_prefer_right(m_sub),
                ) =~= b_rest.union_prefer_right(b_sub).union_prefer_right(
                    m_rest.union_prefer_right(m_sub),
                ));
            },
        }
    }
}

/// A tree without shard references has no flat one.
pub proof fn lemma_ref_free_is_nested(entries: Seq<EntryView>)
    requires
        ref_free(entries),
    ensures
        nested_refs(entries),
    decreases entries,
{
    if entries.len() > 0 {
        lemma_ref_free_is_nested(entries.drop_last());
        match entries.last().node {
            NodeView::Directory(sub) => {
                lemma_ref_free_is_nested(sub);
            },
            _ => {},
        }
    }
}

/// A split that is not flat brings no flat reference.
pub proof fn lemma_split_keeps_nested(
    entries: Seq<EntryView>,
    segments: Seq<Seq<char>>,
    uri: Seq<char>,
)
    requires
        nested_refs(entries),
    ensures
        nested_refs(split_at(entries, segments, uri, false)),
    decreases entries,
{
    if entries.len() > 0 && segments.len() > 0 {
        lemma_split_keeps_nested(entries.drop_last(), segments, uri);
        let changed = split_at(entries, segments, uri, false);
        assert(changed.drop_last() == split_at(entries.drop_last(), segments, uri, false));
        match entries.last().node {
            NodeView::Directory(sub) => {
                if entries.last().name == segments[0] && segments.len() > 1 {
                    lemma_split_keeps_nested(sub, segments.skip(1), uri);
                }
            },
            _ => {
                assert(changed.last() == entries.last());
            },
        }
    }
}

/// A split changes no name.
pub proof fn lemma_split_keeps_name(
    entries: Seq<EntryView>,
    segments: Seq<Seq<char>>,
    uri: Seq<char>,
    flat: bool,
    name: Seq<char>,
)
    ensures
        has_name(split_at(entries, segments, uri, flat), name) == has_name(entries, name),
    decreases entries.len(),
{
    if entries.len() > 0 && segments.len() > 0 {
        lemma_split_keeps_name(entries.drop_last(), segments, uri, flat, name);
        let changed = split_at(entries, segments, uri, flat);
        assert(changed.drop_last() == split_at(entries.drop_last(), segments, uri, flat));
        assert(changed.last().name == entries.last().name);
    }
}

/// A split leaves names telling paths apart.
pub proof fn lemma_split_keeps_unique(
    entries: Seq<EntryView>,
    segments: Seq<Seq<char>>,
    uri: Seq<char>,
    flat: bool,
)
    requires
        unique_names(entries),
    ensures
        unique_names(split_at(entries, segments, uri, flat)),
    decreases entries,
{
    if entries.len() > 0 && segments.len() > 0 {
        let rest = entries.drop_last();
        let last = entries.last();
        lemma_split_keeps_unique(rest, segments, uri, flat);
        lemma_split_keeps_name(rest, segments, uri, flat, last.name);
        let changed = split_at(entries, segments, uri, flat);
        assert(changed.drop_last() == split_at(rest, segments, uri, flat));
        assert(changed.last().name == last.name);
        match last.node {
            NodeView::Directory(sub) => {
                if last.name == segments[0] && segments.len() > 1 {
                    lemma_split_keeps_unique(sub, segments.skip(1), uri, flat);
                }
            },
            _ => {
                assert(changed.last() == last);
            },
        }
    }
}

/// Names that tell paths apart can stand in paths.
pub proof fn lemma_unique_is_well_named(entries: Seq<EntryView>)
    requires
        unique_names(entries),
    ensures
        well_named(entries),
    decreases entries,
{
    if entries.len() > 0 {
        lemma_unique_is_well_named(entries.drop_last());
        match entries.last().node {
            NodeView::Directory(sub) => {
                lemma_unique_is_well_named(sub);
                if has_directory(entries.drop_last(), entries.last().name) {
                    lemma_named_directory(entries.drop_last(), entries.last().name);
                }
            },
            _ => {},
        }
    }
}

/// A directory of a name is an entry of that name.
pub proof fn lemma_named_directory(entries: Seq<EntryView>, name: Seq<char>)
    requires
        has_directory(entries, name),
    ensures
        has_name(entries, name),
    decreases entries.len(),
{
    if entries.len() > 0 && has_directory(entries.drop_last(), name) {
        lemma_named_directory(entries.drop_last(), name);
    }
}

/// The directories of a tree whose names tell paths apart are such trees.
pub proof fn lemma_unique_member(entries: Seq<EntryView>, j: int)
    requires
        unique_names(entries),
        0 <= j < entries.len(),
        entries[j].node is Directory,
    ensures
        unique_names(entries[j].node->Directory_0),
    decreases entries.len(),
{
    if j < entries.len() - 1 {
        lemma_unique_member(entries.drop_last(), j);
        assert(entries.drop_last()[j] == entries[j]);
    }
}

/// What the splits of the largest directory keep of a tree whose names
/// tell its paths apart.
pub proof fn lemma_largest_splits_plain(tree: Seq<EntryView>, uris: Seq<Seq<char>>, k: int)
    requires
        ref_free(tree),
        unique_names(tree),
        distinct(uris),
        0 <= k <= uris.len(),
        can_split(tree, uris, k),
    ensures
        unique_names(tree_after(tree, largest_splits(tree, uris, k))),
        nested_refs(tree_after(tree, largest_splits(tree, uris, k))),
        plain_store(store_after(largest_splits(tree, uris, k))),
    decreases k,
{
    if k == 0 {
        lemma_ref_free_is_nested(tree);
    } else {
        let earlier = largest_splits(tree, uris, k - 1);
        lemma_largest_splits_plain(tree, uris, k - 1);
        lemma_unique_is_well_named(tree);
        lemma_largest_splits(tree, uris, k - 1);
        let before = tree_after(tree, earlier);
        let found = largest_first(directories_in(before, Seq::<char>::empty()))[0];
        lemma_largest_is_top_level(before);
        let j = choose|j: int|
            0 <= j < before.len() && (#[trigger] before[j]).node == NodeView::Directory(
                found.directory,
            ) && found == candidate(
                child_path(Seq::<char>::empty(), before[j].name),
                found.directory,
            );
        lemma_unique_member(before, j);
        lemma_split_keeps_unique(before, split_path(found.path), uris[k - 1], false);
        lemma_split_keeps_nested(before, split_path(found.path), uris[k - 1]);
        let now = largest_splits(tree, uris, k);
        assert(now.drop_last() == earlier);
        assert(now.last().content == found.directory);
        assert(now.last().uri == uris[k - 1]);
        assert(now.last().path == found.path);
        lemma_split_at_largest(before, uris[k - 1]);
        assert forall|a: Seq<char>| store_after(now).contains_key(a) implies ref_free(
            #[trigger] store_after(now)[a],
        ) && unique_names(store_after(now)[a]) by {
            if a != uris[k - 1] {
                assert(store_after(earlier).contains_key(a));
                assert(ref_free(store_after(earlier)[a]));
            }
        }
    }
}

/// After a deploy that split the tree, the next deploy finds every blob.
///
/// Take a tree without shard references whose names tell its paths apart,
/// and move out its largest directory any number of times. The blobs of
/// the manifest that is left, together with those of the shard records
/// taken at the paths of their references, are the blobs of the first
/// tree, each under its path: a deploy of the same files uploads nothing.
pub proof fn theorem_basis_after_splits(tree: Seq<EntryView>, uris: Seq<Seq<char>>, k: int)
    requires
        ref_free(tree),
        unique_names(tree),
        distinct(uris),
        0 <= k <= uris.len(),
        can_split(tree, uris, k),
    ensures
        blob_map_of(
            tree_after(tree, largest_splits(tree, uris, k)),
            Seq::<char>::empty(),
        ).union_prefer_right(
            blobs_of(
                mounted(
                    tree_after(tree, largest_splits(tree, uris, k)),
                    Seq::<char>::empty(),
                    store_after(largest_splits(tree, uris, k)),
                ),
            ),
        ) == blob_map_of(tree, Seq::<char>::empty()),
{
    lemma_unique_is_well_named(tree);
    lemma_largest_splits_plain(tree, uris, k);
    theorem_deploy_then_pull(tree, uris, k, 1);
    lemma_basis_is_expansion(
        tree_after(tree, largest_splits(tree, uris, k)),
        Seq::<char>::empty(),
        store_after(largest_splits(tree, uris, k)),
    );
}

} // verus!
