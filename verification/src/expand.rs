//! Resolving shard references: the rounds of fetching and the rewrite that
//! puts each shard's content where its reference stood.

use crate::error::{ReferenceFailure, ReferenceKind, TooDeep};
use crate::resolution::{closed, lemma_start_is_closed, met};
use crate::round_trip::{lemma_ref_free, ref_free, within_depth};
use crate::string_map::StringMap;
use crate::subfs_utils::{extract_subfs_uris, pairs_view, shard_refs};
use crate::tree::{clamp, entries_view, Directory, Entry, EntryNode, EntryView, NodeView, SubfsView};
use vstd::prelude::*;
use vstd::string::*;

verus! {

/// Rounds of fetching after which shards that are still unresolved make
/// the expansion fail.
pub const MAX_EXPANSION_ROUNDS: usize = 10;

/// A directory entry named `name` with the content `inner`.
pub open spec fn directory_entry(name: Seq<char>, inner: Seq<EntryView>) -> EntryView {
    EntryView { name, node: NodeView::Directory(inner) }
}

/// `entries` with every shard reference replaced by the content that
/// `store` holds for its address, references inside that content too, down
/// to `depth` shards inside one another. A flat reference gives way to the
/// shard's entries themselves, any other to one directory of the
/// reference's name that holds them. A reference whose address `store`
/// lacks, or that lies deeper than `depth`, is left out.
pub open spec fn expand(
    entries: Seq<EntryView>,
    store: Map<Seq<char>, Seq<EntryView>>,
    depth: nat,
) -> Seq<EntryView>
    decreases depth, entries,
{
    if entries.len() == 0 {
        entries
    } else {
        let last = entries.last();
        expand(entries.drop_last(), store, depth) + match last.node {
            NodeView::Subfs(r) => if depth > 0 && store.contains_key(r.subject) {
                let inner = expand(store[r.subject], store, (depth - 1) as nat);
                if r.flat {
                    inner
                } else {
                    seq![directory_entry(last.name, inner)]
                }
            } else {
                Seq::empty()
            },
            NodeView::Directory(sub) => seq![directory_entry(last.name, expand(sub, store, depth))],
            NodeView::File(_) => seq![last],
            NodeView::Unknown => seq![last],
        }
    }
}

/// The expansion of a joined list is that of its parts, joined.
pub proof fn lemma_expand_concat(
    a: Seq<EntryView>,
    b: Seq<EntryView>,
    store: Map<Seq<char>, Seq<EntryView>>,
    depth: nat,
)
    ensures
        expand(a + b, store, depth) == expand(a, store, depth) + expand(b, store, depth),
    decreases b.len(),
{
    if b.len() == 0 {
        assert(a + b == a);
        assert(expand(a, store, depth) + expand(b, store, depth) == expand(a, store, depth));
    } else {
        lemma_expand_concat(a, b.drop_last(), store, depth);
        assert((a + b).drop_last() == a + b.drop_last());
        assert((a + b).last() == b.last());
        let head = expand(a, store, depth);
        let mid = expand(b.drop_last(), store, depth);
        let tail = expand(b, store, depth).skip(mid.len() as int);
        assert(expand(b, store, depth) == mid + tail);
        assert(head + mid + tail == head + (mid + tail));
    }
}

/// What takes the place of a reference whose record the store holds: the
/// record's entries themselves for a flat reference, one directory of the
/// reference's name that holds them for any other.
pub open spec fn merged_in(
    name: Seq<char>,
    uri: Seq<char>,
    flat: bool,
    store: Map<Seq<char>, Seq<EntryView>>,
    depth: nat,
) -> Seq<EntryView> {
    let inner = expand(store[uri], store, (depth - 1) as nat);
    if flat {
        inner
    } else {
        seq![directory_entry(name, inner)]
    }
}

/// The two ways of merging a shard.
///
/// Let a reference stand between the entries `before` and `after`, and let
/// the store hold a record for its address. Expanded, a flat reference
/// gives way to the record's entries themselves, which then stand among
/// the entries around them with no directory of the reference's name; any
/// other gives way to one directory of its name that holds them. Where
/// neither the entries around nor the record hold references, they stand
/// as they are.
pub proof fn lemma_merge_modes(
    before: Seq<EntryView>,
    name: Seq<char>,
    uri: Seq<char>,
    flat: bool,
    after: Seq<EntryView>,
    store: Map<Seq<char>, Seq<EntryView>>,
    depth: nat,
)
    requires
        depth > 0,
        store.contains_key(uri),
    ensures
        expand(
            before + seq![
                EntryView { name, node: NodeView::Subfs(SubfsView { subject: uri, flat }) },
            ] + after,
            store,
            depth,
        ) == expand(before, store, depth) + merged_in(name, uri, flat, store, depth) + expand(
            after,
            store,
            depth,
        ),
        ref_free(before) && ref_free(after) && ref_free(store[uri]) ==> expand(
            before + seq![
                EntryView { name, node: NodeView::Subfs(SubfsView { subject: uri, flat }) },
            ] + after,
            store,
            depth,
        ) == before + (if flat {
            store[uri]
        } else {
            seq![directory_entry(name, store[uri])]
        }) + after,
{
    let reference = EntryView { name, node: NodeView::Subfs(SubfsView { subject: uri, flat }) };
    let alone = seq![reference];
    assert(alone.drop_last() == Seq::<EntryView>::empty());
    assert(alone.last() == reference);
    assert(expand(alone.drop_last(), store, depth) == Seq::<EntryView>::empty());
    assert(Seq::<EntryView>::empty() + merged_in(name, uri, flat, store, depth) == merged_in(
        name,
        uri,
        flat,
        store,
        depth,
    ));
    assert(expand(alone, store, depth) == merged_in(name, uri, flat, store, depth));
    lemma_expand_concat(before, alone, store, depth);
    lemma_expand_concat(before + alone, after, store, depth);
    if ref_free(before) && ref_free(after) && ref_free(store[uri]) {
        lemma_ref_free(before, store, depth, uri);
        lemma_ref_free(after, store, depth, uri);
        lemma_ref_free(store[uri], store, (depth - 1) as nat, uri);
    }
}

/// Whether every record of `subfs_map` that is reached from `directory`
/// lies at most `depth` shards deep. Shards that lead back to themselves
/// lie within no depth.
pub fn resolves_within(directory: &Directory, subfs_map: &StringMap<Directory>, depth: usize) -> (within:
    bool)
    ensures
        within == within_depth(directory@, subfs_map@, depth as nat),
    decreases depth, directory,
{
    let mut within = true;
    let mut i: usize = 0;
    while i < directory.entries.len()
        invariant
            i <= directory.entries.len(),
            within == within_depth(directory@.take(i as int), subfs_map@, depth as nat),
        decreases directory.entries.len() - i,
    {
        let entry = &directory.entries[i];
        proof {
            assert(directory@.take(i + 1).drop_last() == directory@.take(i as int));
            assert(directory@.take(i + 1).last() == directory@[i as int]);
        }
        if within {
            within = match &entry.node {
                EntryNode::Subfs(subfs_node) => match subfs_map.get(subfs_node.subject.as_str()) {
                    Some(subfs_dir) => depth > 0 && resolves_within(
                        subfs_dir,
                        subfs_map,
                        depth - 1,
                    ),
                    None => true,
                },
                EntryNode::Directory(dir) => resolves_within(dir, subfs_map, depth),
                _ => true,
            };
        }
        i += 1;
    }
    proof {
        assert(directory@.take(i as int) == directory@);
    }
    within
}

/// Recursively replace subfs nodes with their actual content.
pub fn replace_subfs_with_content(
    directory: &Directory,
    subfs_map: &StringMap<Directory>,
    depth: usize,
) -> (expanded: Directory)
    ensures
        expanded@ == expand(directory@, subfs_map@, depth as nat),
    decreases depth, directory,
{
    let mut entries: Vec<Entry> = Vec::new();
    let mut i: usize = 0;
    assert(entries_view(entries@) =~= Seq::empty());
    while i < directory.entries.len()
        invariant
            i <= directory.entries.len(),
            entries_view(entries@) == expand(directory@.take(i as int), subfs_map@, depth as nat),
        decreases directory.entries.len() - i,
    {
        let entry = &directory.entries[i];
        proof {
            assert(directory@.take(i + 1).drop_last() == directory@.take(i as int));
            assert(directory@.take(i + 1).last() == directory@[i as int]);
        }
        let ghost before = entries@;
        match &entry.node {
            EntryNode::Subfs(subfs_node) => {
                let found = if depth > 0 {
                    subfs_map.get(subfs_node.subject.as_str())
                } else {
                    None
                };
                match found {
                    Some(subfs_dir) => {
                        let inner = replace_subfs_with_content(subfs_dir, subfs_map, depth - 1);
                        if subfs_node.flat {
                            let Directory { entries: mut hoisted } = inner;
                            let ghost added = hoisted@;
                            entries.append(&mut hoisted);
                            assert(entries_view(entries@) =~= entries_view(before) + entries_view(
                                added,
                            ));
                        } else {
                            let wrapped = Entry {
                                name: entry.name.clone(),
                                node: EntryNode::Directory(Box::new(inner)),
                            };
                            entries.push(wrapped);
                            assert(entries_view(entries@) =~= entries_view(before) + seq![
                                wrapped@,
                            ]);
                        }
                    },
                    None => {
                        assert(entries_view(entries@) =~= entries_view(before) + Seq::empty());
                    },
                }
            },
            EntryNode::Directory(dir) => {
                let rewritten = Entry {
                    name: entry.name.clone(),
                    node: EntryNode::Directory(
                        Box::new(replace_subfs_with_content(dir, subfs_map, depth)),
                    ),
                };
                entries.push(rewritten);
                assert(entries_view(entries@) =~= entries_view(before) + seq![rewritten@]);
            },
            _ => {
                let kept = entry.clone();
                entries.push(kept);
                assert(entries_view(entries@) =~= entries_view(before) + seq![kept@]);
            },
        }
        i += 1;
    }
    proof {
        assert(directory@.take(i as int) == directory@);
    }
    Directory { entries }
}

/// What became of fetching one shard record.
#[derive(Debug, PartialEq, Eq)]
pub struct FetchOutcome {
    /// Address of the record.
    pub uri: String,
    /// Path of the reference that asked for it.
    pub path: String,
    /// The record's tree, or nothing where it could not be fetched.
    pub root: Option<Directory>,
}

/// The outcome of a fetch as contracts see it.
pub struct OutcomeView {
    pub uri: Seq<char>,
    pub path: Seq<char>,
    pub root: Option<Seq<EntryView>>,
}

impl View for FetchOutcome {
    type V = OutcomeView;

    open spec fn view(&self) -> OutcomeView {
        OutcomeView {
            uri: self.uri@,
            path: self.path@,
            root: match self.root {
                Some(d) => Some(d@),
                None => None,
            },
        }
    }
}

/// The views of a list of outcomes.
pub open spec fn outcomes_view(v: Seq<FetchOutcome>) -> Seq<OutcomeView> {
    Seq::new(v.len(), |i: int| v[i]@)
}

/// The store after the records that were fetched have been added to it.
pub open spec fn resolved_after(
    resolved: Map<Seq<char>, Seq<EntryView>>,
    outcomes: Seq<OutcomeView>,
) -> Map<Seq<char>, Seq<EntryView>>
    decreases outcomes.len(),
{
    if outcomes.len() == 0 {
        resolved
    } else {
        let before = resolved_after(resolved, outcomes.drop_last());
        match outcomes.last().root {
            Some(root) => before.insert(outcomes.last().uri, root),
            None => before,
        }
    }
}

/// The shard references inside the records that were fetched, each with
/// its path below the reference that led to its record.
pub open spec fn refs_inside(outcomes: Seq<OutcomeView>) -> Seq<(Seq<char>, Seq<char>)>
    decreases outcomes.len(),
{
    if outcomes.len() == 0 {
        Seq::empty()
    } else {
        refs_inside(outcomes.drop_last()) + match outcomes.last().root {
            Some(root) => shard_refs(root, outcomes.last().path),
            None => Seq::empty(),
        }
    }
}

/// The references whose records could not be fetched.
pub open spec fn failed_among(outcomes: Seq<OutcomeView>) -> Seq<(Seq<char>, Seq<char>)>
    decreases outcomes.len(),
{
    if outcomes.len() == 0 {
        Seq::empty()
    } else {
        failed_among(outcomes.drop_last()) + match outcomes.last().root {
            Some(_) => Seq::empty(),
            None => seq![(outcomes.last().uri, outcomes.last().path)],
        }
    }
}

/// The addresses among `refs` that `resolved` lacks, each with the path of
/// the last reference that holds it.
pub open spec fn pending_after(
    refs: Seq<(Seq<char>, Seq<char>)>,
    resolved: Map<Seq<char>, Seq<EntryView>>,
) -> Map<Seq<char>, Seq<char>>
    decreases refs.len(),
{
    if refs.len() == 0 {
        Map::empty()
    } else {
        let before = pending_after(refs.drop_last(), resolved);
        if resolved.contains_key(refs.last().0) {
            before
        } else {
            before.insert(refs.last().0, refs.last().1)
        }
    }
}

/// What to do next in an expansion.
#[derive(Clone, Copy, Debug, PartialEq, Eq, Structural)]
pub enum ExpansionStep {
    /// Nothing is pending: rewrite the tree.
    Done,
    /// Fetch the pending records and hand in what came of it.
    Fetch,
    /// Records are pending after the last round that is allowed: give up.
    TooDeep,
}

/// The state of an expansion between rounds of fetching.
#[derive(Debug)]
pub struct Expansion {
    /// The records fetched so far, by address.
    pub resolved: StringMap<Directory>,
    /// The addresses to fetch next, each with the path of a reference to it.
    pub pending: StringMap<String>,
    /// Rounds of fetching made.
    pub rounds: usize,
    /// References whose records could not be fetched, for the user to see.
    pub unavailable: Vec<(String, String)>,
}

fn pending_among(refs: &Vec<(String, String)>, resolved: &StringMap<Directory>) -> (pending:
    StringMap<String>)
    ensures
        pending@ == pending_after(pairs_view(refs@), resolved@),
        pending.wf(),
{
    let mut pending: StringMap<String> = StringMap::new();
    let mut i: usize = 0;
    while i < refs.len()
        invariant
            i <= refs.len(),
            pending@ == pending_after(pairs_view(refs@).take(i as int), resolved@),
            pending.wf(),
        decreases refs.len() - i,
    {
        proof {
            assert(pairs_view(refs@).take(i + 1).drop_last() == pairs_view(refs@).take(i as int));
            assert(pairs_view(refs@).take(i + 1).last() == (refs@[i as int].0@, refs@[i as int].1@));
        }
        if !resolved.contains_key(refs[i].0.as_str()) {
            pending.insert(refs[i].0.clone(), refs[i].1.clone());
        }
        i += 1;
    }
    proof {
        assert(pairs_view(refs@).take(i as int) == pairs_view(refs@));
    }
    pending
}

impl Expansion {
    /// The state before the first round: every shard reference of `root` is
    /// pending.
    pub fn start(root: &Directory) -> (state: Self)
        ensures
            state.resolved@ == Map::<Seq<char>, Seq<EntryView>>::empty(),
            state.pending@ == pending_after(
                shard_refs(root@, Seq::<char>::empty()),
                Map::<Seq<char>, Seq<EntryView>>::empty(),
            ),
            state.rounds == 0,
            state.unavailable@.len() == 0,
            state.is_closed(root@),
    {
        let refs = extract_subfs_uris(root, String::new());
        let resolved: StringMap<Directory> = StringMap::new();
        let pending = pending_among(&refs, &resolved);
        let state = Expansion { resolved, pending, rounds: 0, unavailable: Vec::new() };
        proof {
            lemma_start_is_closed(root@);
            assert(pairs_view(state.unavailable@) =~= Seq::empty());
        }
        state
    }

    /// Whether the tree `root` and every record resolved refer to nothing
    /// but addresses that are resolved, pending or noted as unavailable.
    pub open spec fn is_closed(&self, root: Seq<EntryView>) -> bool {
        closed(
            root,
            self.resolved@,
            met(self.resolved@, self.pending@, pairs_view(self.unavailable@)),
        )
    }

    /// What the state asks for.
    pub open spec fn step(&self) -> ExpansionStep {
        if self.pending.entries().len() == 0 {
            ExpansionStep::Done
        } else if self.rounds >= MAX_EXPANSION_ROUNDS {
            ExpansionStep::TooDeep
        } else {
            ExpansionStep::Fetch
        }
    }

    /// What to do next: finish where nothing is pending, give up where
    /// records are pending after `MAX_EXPANSION_ROUNDS` rounds, fetch else.
    pub fn next_step(&self) -> (step: ExpansionStep)
        ensures
            step == self.step(),
    {
        if self.pending.len() == 0 {
            ExpansionStep::Done
        } else if self.rounds >= MAX_EXPANSION_ROUNDS {
            ExpansionStep::TooDeep
        } else {
            ExpansionStep::Fetch
        }
    }

    /// Take in one round of fetching. The records that came are added to
    /// the store; the references inside them whose addresses the store
    /// still lacks are pending next; the references whose records did not
    /// come are noted, and their subtrees will be missing.
    pub fn record_round(&mut self, outcomes: &Vec<FetchOutcome>)
        ensures
            final(self).resolved@ == resolved_after(old(self).resolved@, outcomes_view(outcomes@)),
            final(self).pending@ == pending_after(
                refs_inside(outcomes_view(outcomes@)),
                final(self).resolved@,
            ),
            final(self).rounds == clamp((old(self).rounds + 1) as nat),
            pairs_view(final(self).unavailable@) == pairs_view(old(self).unavailable@)
                + failed_among(outcomes_view(outcomes@)),
    {
        let ghost results = outcomes_view(outcomes@);
        let ghost start = self.resolved@;
        let ghost failed_before = pairs_view(self.unavailable@);
        let mut refs: Vec<(String, String)> = Vec::new();
        let mut i: usize = 0;
        assert(pairs_view(refs@) =~= Seq::empty());
        assert(failed_before + Seq::empty() =~= failed_before);
        while i < outcomes.len()
            invariant
                i <= outcomes.len(),
                results == outcomes_view(outcomes@),
                self.resolved@ == resolved_after(start, results.take(i as int)),
                self.rounds == old(self).rounds,
                pairs_view(refs@) == refs_inside(results.take(i as int)),
                pairs_view(self.unavailable@) == failed_before + failed_among(
                    results.take(i as int),
                ),
            decreases outcomes.len() - i,
        {
            let outcome = &outcomes[i];
            proof {
                assert(results.take(i + 1).drop_last() == results.take(i as int));
                assert(results.take(i + 1).last() == outcome@);
            }
            let ghost refs_before = refs@;
            let ghost failed_so_far = self.unavailable@;
            match &outcome.root {
                Some(root) => {
                    let mut nested = extract_subfs_uris(root, outcome.path.clone());
                    let ghost found = nested@;
                    refs.append(&mut nested);
                    self.resolved.insert(outcome.uri.clone(), root.clone());
                    proof {
                        assert(pairs_view(refs@) =~= pairs_view(refs_before) + pairs_view(found));
                        assert(pairs_view(self.unavailable@) + Seq::empty() =~= pairs_view(
                            self.unavailable@,
                        ));
                    }
                },
                None => {
                    self.unavailable.push((outcome.uri.clone(), outcome.path.clone()));
                    proof {
                        assert(pairs_view(refs@) + Seq::empty() =~= pairs_view(refs@));
                        assert(pairs_view(self.unavailable@) =~= pairs_view(failed_so_far) + seq![
                            (outcome.uri@, outcome.path@),
                        ]);
                    }
                },
            }
            i += 1;
        }
        proof {
            assert(results.take(i as int) == results);
        }
        self.pending = pending_among(&refs, &self.resolved);
        self.rounds = self.rounds.saturating_add(1);
    }

    /// The references that could not be followed, as failures to show: the
    /// subtree of each is missing from the expanded tree.
    pub fn failures(&self) -> (failures: Vec<ReferenceFailure>)
        ensures
            failures@.len() == self.unavailable@.len(),
            forall|i: int|
                0 <= i < failures@.len() ==> (#[trigger] failures@[i]).kind
                    == ReferenceKind::Unavailable && failures@[i].address@
                    == self.unavailable@[i].0@,
    {
        let mut failures: Vec<ReferenceFailure> = Vec::new();
        let mut i: usize = 0;
        while i < self.unavailable.len()
            invariant
                i <= self.unavailable@.len(),
                failures@.len() == i,
                forall|j: int|
                    0 <= j < i ==> (#[trigger] failures@[j]).kind == ReferenceKind::Unavailable
                        && failures@[j].address@ == self.unavailable@[j].0@,
            decreases self.unavailable@.len() - i,
        {
            failures.push(
                ReferenceFailure {
                    kind: ReferenceKind::Unavailable,
                    address: self.unavailable[i].0.clone(),
                },
            );
            i += 1;
        }
        failures
    }

    /// The tree with the records that were fetched in the place of their
    /// references. Fails where a record that was fetched lies more than
    /// `MAX_EXPANSION_ROUNDS` shards deep, as it does in every cycle of
    /// shards: no tree is made of those.
    pub fn finish(&self, root: &Directory) -> (result: Result<Directory, TooDeep>)
        ensures
            match result {
                Ok(expanded) => within_depth(
                    root@,
                    self.resolved@,
                    MAX_EXPANSION_ROUNDS as nat,
                ) && expanded@ == expand(root@, self.resolved@, MAX_EXPANSION_ROUNDS as nat),
                Err(e) => !within_depth(root@, self.resolved@, MAX_EXPANSION_ROUNDS as nat)
                    && e.depth == MAX_EXPANSION_ROUNDS,
            },
    {
        if resolves_within(root, &self.resolved, MAX_EXPANSION_ROUNDS) {
            Ok(replace_subfs_with_content(root, &self.resolved, MAX_EXPANSION_ROUNDS))
        } else {
            Err(TooDeep { depth: MAX_EXPANSION_ROUNDS })
        }
    }
}

} // verus!
