//! The rounds of an expansion reach every shard that can be reached.

use crate::expand::{expand, failed_among, pending_after, refs_inside, resolved_after, OutcomeView};
use crate::subfs_utils::shard_refs;
use crate::tree::{EntryView, NodeView};
use vstd::prelude::*;

verus! {

/// Whether every shard reference below `entries` holds an address of
/// `known`.
pub open spec fn refers_within(entries: Seq<EntryView>, known: Set<Seq<char>>) -> bool
    decreases entries,
{
    if entries.len() == 0 {
        true
    } else {
        refers_within(entries.drop_last(), known) && match entries.last().node {
            NodeView::Subfs(r) => known.contains(r.subject),
            NodeView::Directory(sub) => refers_within(sub, known),
            NodeView::File(_) => true,
            NodeView::Unknown => true,
        }
    }
}

/// The addresses of a list of references.
pub open spec fn addresses(refs: Seq<(Seq<char>, Seq<char>)>) -> Set<Seq<char>> {
    Set::new(|a: Seq<char>| exists|i: int| 0 <= i < refs.len() && (#[trigger] refs[i]).0 == a)
}

/// The addresses that an expansion has met: those resolved, those pending
/// and those that failed.
pub open spec fn met(
    resolved: Map<Seq<char>, Seq<EntryView>>,
    pending: Map<Seq<char>, Seq<char>>,
    failed: Seq<(Seq<char>, Seq<char>)>,
) -> Set<Seq<char>> {
    resolved.dom() + pending.dom() + addresses(failed)
}

/// Whether the tree and every record resolved refer to nothing but
/// addresses of `known`.
pub open spec fn closed(
    root: Seq<EntryView>,
    resolved: Map<Seq<char>, Seq<EntryView>>,
    known: Set<Seq<char>>,
) -> bool {
    &&& refers_within(root, known)
    &&& forall|a: Seq<char>| resolved.contains_key(a) ==> refers_within(#[trigger] resolved[a], known)
}

/// Whether a round brought an outcome for every pending address.
pub open spec fn covers(outcomes: Seq<OutcomeView>, pending: Map<Seq<char>, Seq<char>>) -> bool {
    forall|a: Seq<char>|
        pending.contains_key(a) ==> exists|i: int|
            0 <= i < outcomes.len() && (#[trigger] outcomes[i]).uri == a
}

/// Whether two stores hold the same for every address of `known`.
pub open spec fn agree(
    one: Map<Seq<char>, Seq<EntryView>>,
    other: Map<Seq<char>, Seq<EntryView>>,
    known: Set<Seq<char>>,
) -> bool {
    forall|a: Seq<char>| #[trigger]
        known.contains(a) ==> one.contains_key(a) == other.contains_key(a) && (one.contains_key(a)
            ==> one[a] == other[a])
}

/// The addresses of a joined list are those of its parts.
pub proof fn lemma_addresses_concat(a: Seq<(Seq<char>, Seq<char>)>, b: Seq<(Seq<char>, Seq<char>)>)
    ensures
        addresses(a + b) == addresses(a) + addresses(b),
{
    assert forall|x: Seq<char>| addresses(a + b).contains(x) == (addresses(a) + addresses(
        b,
    )).contains(x) by {
        if addresses(a + b).contains(x) {
            let i = choose|i: int| 0 <= i < (a + b).len() && (#[trigger] (a + b)[i]).0 == x;
            if i < a.len() {
                assert(a[i].0 == x);
            } else {
                assert(b[i - a.len()].0 == x);
            }
        }
        if addresses(a).contains(x) {
            let i = choose|i: int| 0 <= i < a.len() && (#[trigger] a[i]).0 == x;
            assert((a + b)[i].0 == x);
        }
        if addresses(b).contains(x) {
            let i = choose|i: int| 0 <= i < b.len() && (#[trigger] b[i]).0 == x;
            assert((a + b)[i + a.len()].0 == x);
        }
    }
    assert(addresses(a + b) =~= addresses(a) + addresses(b));
}

/// A tree refers within a set exactly if the addresses of its references
/// lie in the set.
pub proof fn lemma_refers_within(entries: Seq<EntryView>, prefix: Seq<char>, known: Set<Seq<char>>)
    ensures
        refers_within(entries, known) == addresses(shard_refs(entries, prefix)).subset_of(known),
    decreases entries,
{
    if entries.len() == 0 {
        assert(addresses(shard_refs(entries, prefix)) =~= Set::empty());
    } else {
        let last = entries.last();
        let path = crate::path::child_path(prefix, last.name);
        let before = shard_refs(entries.drop_last(), prefix);
        lemma_refers_within(entries.drop_last(), prefix, known);
        match last.node {
            NodeView::Subfs(r) => {
                let one = seq![(r.subject, path)];
                lemma_addresses_concat(before, one);
                assert(one[0].0 == r.subject);
                assert(addresses(one) =~= set![r.subject]);
            },
            NodeView::Directory(sub) => {
                lemma_refers_within(sub, path, known);
                lemma_addresses_concat(before, shard_refs(sub, path));
            },
            _ => {
                assert(before + Seq::empty() == before);
            },
        }
    }
}

/// A tree that refers within a set refers within every greater set.
pub proof fn lemma_refers_within_more(
    entries: Seq<EntryView>,
    known: Set<Seq<char>>,
    more: Set<Seq<char>>,
)
    requires
        refers_within(entries, known),
        known.subset_of(more),
    ensures
        refers_within(entries, more),
    decreases entries,
{
    if entries.len() > 0 {
        lemma_refers_within_more(entries.drop_last(), known, more);
        match entries.last().node {
            NodeView::Directory(sub) => {
                lemma_refers_within_more(sub, known, more);
            },
            _ => {},
        }
    }
}

/// What a round adds to the store: the records that came, and nothing
/// else.
pub proof fn lemma_resolved_after(
    resolved: Map<Seq<char>, Seq<EntryView>>,
    outcomes: Seq<OutcomeView>,
)
    ensures
        forall|a: Seq<char>|
            resolved.contains_key(a) ==> #[trigger] resolved_after(resolved, outcomes).contains_key(
                a,
            ),
        forall|i: int|
            0 <= i < outcomes.len() && (#[trigger] outcomes[i]).root is Some ==> resolved_after(
                resolved,
                outcomes,
            ).contains_key(outcomes[i].uri),
        forall|a: Seq<char>| #[trigger]
            resolved_after(resolved, outcomes).contains_key(a) ==> (resolved.contains_key(a)
                && resolved_after(resolved, outcomes)[a] == resolved[a]) || exists|i: int|
                0 <= i < outcomes.len() && (#[trigger] outcomes[i]).uri == a && outcomes[i].root
                    == Some(resolved_after(resolved, outcomes)[a]),
    decreases outcomes.len(),
{
    if outcomes.len() > 0 {
        let earlier = outcomes.drop_last();
        let last = outcomes.last();
        lemma_resolved_after(resolved, earlier);
        let before = resolved_after(resolved, earlier);
        let after = resolved_after(resolved, outcomes);
        assert forall|i: int| 0 <= i < outcomes.len() && (#[trigger] outcomes[i]).root
            is Some implies after.contains_key(outcomes[i].uri) by {
            if i < earlier.len() {
                assert(earlier[i] == outcomes[i]);
            }
        }
        assert forall|a: Seq<char>| #[trigger] after.contains_key(a) implies (resolved.contains_key(
            a,
        ) && after[a] == resolved[a]) || exists|i: int|
            0 <= i < outcomes.len() && (#[trigger] outcomes[i]).uri == a && outcomes[i].root
                == Some(after[a]) by {
            if last.root is Some && a == last.uri {
                assert(outcomes[outcomes.len() - 1].uri == a);
            } else {
                assert(before.contains_key(a));
                if !(resolved.contains_key(a) && before[a] == resolved[a]) {
                    let i = choose|i: int|
                        0 <= i < earlier.len() && (#[trigger] earlier[i]).uri == a
                            && earlier[i].root == Some(before[a]);
                    assert(outcomes[i] == earlier[i]);
                }
            }
        }
    }
}

/// The references inside a record that came are among those of the round.
pub proof fn lemma_refs_inside(outcomes: Seq<OutcomeView>, i: int)
    requires
        0 <= i < outcomes.len(),
        outcomes[i].root is Some,
    ensures
        addresses(shard_refs(outcomes[i].root->0, outcomes[i].path)).subset_of(
            addresses(refs_inside(outcomes)),
        ),
    decreases outcomes.len(),
{
    let earlier = outcomes.drop_last();
    let last = outcomes.last();
    let added = match last.root {
        Some(root) => shard_refs(root, last.path),
        None => Seq::empty(),
    };
    lemma_addresses_concat(refs_inside(earlier), added);
    if i < earlier.len() {
        assert(earlier[i] == outcomes[i]);
        lemma_refs_inside(earlier, i);
    }
}

/// The addresses that failed in a round are those of the records that did
/// not come.
pub proof fn lemma_failed_among(outcomes: Seq<OutcomeView>, i: int)
    requires
        0 <= i < outcomes.len(),
        outcomes[i].root is None,
    ensures
        addresses(failed_among(outcomes)).contains(outcomes[i].uri),
    decreases outcomes.len(),
{
    let earlier = outcomes.drop_last();
    let last = outcomes.last();
    let added = match last.root {
        Some(_) => Seq::empty(),
        None => seq![(last.uri, last.path)],
    };
    lemma_addresses_concat(failed_among(earlier), added);
    if i < earlier.len() {
        assert(earlier[i] == outcomes[i]);
        lemma_failed_among(earlier, i);
    } else {
        assert(added[0].0 == last.uri);
    }
}

/// What is pending after a round: the addresses of its references that the
/// store lacks.
pub proof fn lemma_pending_after(
    refs: Seq<(Seq<char>, Seq<char>)>,
    resolved: Map<Seq<char>, Seq<EntryView>>,
)
    ensures
        pending_after(refs, resolved).dom() == addresses(refs).difference(resolved.dom()),
    decreases refs.len(),
{
    if refs.len() == 0 {
        assert(addresses(refs) =~= Set::empty());
        assert(pending_after(refs, resolved).dom() =~= addresses(refs).difference(resolved.dom()));
    } else {
        let earlier = refs.drop_last();
        lemma_pending_after(earlier, resolved);
        assert(refs == earlier + seq![refs.last()]);
        lemma_addresses_concat(earlier, seq![refs.last()]);
        assert(seq![refs.last()][0].0 == refs.last().0);
        assert(addresses(seq![refs.last()]) =~= set![refs.last().0]);
        assert(pending_after(refs, resolved).dom() =~= addresses(refs).difference(resolved.dom()));
    }
}

/// Before the first round, every reference of the tree is pending.
pub proof fn lemma_start_is_closed(root: Seq<EntryView>)
    ensures
        closed(
            root,
            Map::empty(),
            met(
                Map::empty(),
                pending_after(shard_refs(root, Seq::<char>::empty()), Map::empty()),
                Seq::empty(),
            ),
        ),
{
    let refs = shard_refs(root, Seq::<char>::empty());
    let nothing = Map::<Seq<char>, Seq<EntryView>>::empty();
    lemma_pending_after(refs, nothing);
    lemma_refers_within(
        root,
        Seq::<char>::empty(),
        met(nothing, pending_after(refs, nothing), Seq::empty()),
    );
}

/// A round keeps the expansion closed.
///
/// Let the tree and the records resolved refer to nothing but addresses
/// that are resolved, pending or failed, and let a round bring an outcome
/// for every pending address. Then the same holds after the round. So once
/// nothing is pending, every reference leads to a record that was fetched
/// or to one that could not be.
pub proof fn lemma_round_keeps_closed(
    root: Seq<EntryView>,
    resolved: Map<Seq<char>, Seq<EntryView>>,
    pending: Map<Seq<char>, Seq<char>>,
    failed: Seq<(Seq<char>, Seq<char>)>,
    outcomes: Seq<OutcomeView>,
)
    requires
        closed(root, resolved, met(resolved, pending, failed)),
        covers(outcomes, pending),
    ensures
        closed(
            root,
            resolved_after(resolved, outcomes),
            met(
                resolved_after(resolved, outcomes),
                pending_after(refs_inside(outcomes), resolved_after(resolved, outcomes)),
                failed + failed_among(outcomes),
            ),
        ),
{
    let before = met(resolved, pending, failed);
    let store = resolved_after(resolved, outcomes);
    let next = pending_after(refs_inside(outcomes), store);
    let after = met(store, next, failed + failed_among(outcomes));
    lemma_resolved_after(resolved, outcomes);
    lemma_pending_after(refs_inside(outcomes), store);
    lemma_addresses_concat(failed, failed_among(outcomes));
    assert forall|a: Seq<char>| before.contains(a) implies after.contains(a) by {
        if pending.contains_key(a) {
            let i = choose|i: int| 0 <= i < outcomes.len() && (#[trigger] outcomes[i]).uri == a;
            if outcomes[i].root is None {
                lemma_failed_among(outcomes, i);
            }
        }
    }
    lemma_refers_within_more(root, before, after);
    assert forall|a: Seq<char>| store.contains_key(a) implies refers_within(
        #[trigger] store[a],
        after,
    ) by {
        if resolved.contains_key(a) && store[a] == resolved[a] {
            lemma_refers_within_more(resolved[a], before, after);
        } else {
            let i = choose|i: int|
                0 <= i < outcomes.len() && (#[trigger] outcomes[i]).uri == a && outcomes[i].root
                    == Some(store[a]);
            lemma_refs_inside(outcomes, i);
            lemma_refers_within(store[a], outcomes[i].path, after);
        }
    }
}

/// Stores that agree on what a closed tree refers to expand it alike.
///
/// With nothing pending, the expansion is that of the remote store itself,
/// the records that could not be fetched taken as missing.
pub proof fn lemma_expand_closed(
    entries: Seq<EntryView>,
    resolved: Map<Seq<char>, Seq<EntryView>>,
    store: Map<Seq<char>, Seq<EntryView>>,
    known: Set<Seq<char>>,
    depth: nat,
)
    requires
        closed(entries, resolved, known),
        agree(resolved, store, known),
    ensures
        expand(entries, resolved, depth) == expand(entries, store, depth),
    decreases depth, entries,
{
    if entries.len() > 0 {
        lemma_expand_closed(entries.drop_last(), resolved, store, known, depth);
        match entries.last().node {
            NodeView::Subfs(r) => {
                assert(known.contains(r.subject));
                if depth > 0 && resolved.contains_key(r.subject) {
                    lemma_expand_closed(
                        resolved[r.subject],
                        resolved,
                        store,
                        known,
                        (depth - 1) as nat,
                    );
                }
            },
            NodeView::Directory(sub) => {
                lemma_expand_closed(sub, resolved, store, known, depth);
            },
            _ => {},
        }
    }
}

} // verus!
