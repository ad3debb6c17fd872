//! Keeping a manifest within its budget by moving directories into shard
//! records of their own.

use crate::error::{BudgetExceeded, ReferenceFailure, ReferenceKind};
use crate::path::split_path;
use crate::round_trip::{holds_at, lemma_largest_candidate, ref_free, well_named};
use crate::selection::{flat_refs, lemma_largest_is_top_level};
use crate::subfs_utils::{
    at_uri_valid, directories_in, estimate_directory_size, estimated_size, find_large_directories,
    largest_first, lemma_largest_first, pairs_view, split_at, with_subfs_at, SplittableDirectory,
    SplittableView,
};
use crate::text::{str_eq, texts};
use crate::tree::{clamp, count_files_in_directory, file_count, Directory};
use vstd::prelude::*;
use vstd::string::*;

verus! {

/// Largest estimated size of a manifest, in bytes.
pub const MAX_MANIFEST_SIZE: usize = 143360;

/// A site with more files than this is split.
pub const FILE_COUNT_THRESHOLD: usize = 250;

/// Most files that a manifest keeps once its site is split.
pub const TARGET_FILE_COUNT: usize = 200;

/// Most splits of one deploy.
pub const MAX_SPLIT_ATTEMPTS: usize = 50;

/// The limits that a manifest is held to.
#[derive(Clone, Copy, Debug, PartialEq, Eq, Structural)]
pub struct Budgets {
    /// Splitting starts above this many files.
    pub file_count_threshold: usize,
    /// Splitting goes on until the manifest holds at most this many files.
    pub target_file_count: usize,
    /// Splitting starts, and goes on, above this estimated size.
    pub max_manifest_bytes: usize,
    /// Splitting gives up after this many splits.
    pub max_split_attempts: usize,
}

impl Budgets {
    /// The limits of the remote store.
    pub fn standard() -> (budgets: Budgets)
        ensures
            budgets == (Budgets {
                file_count_threshold: FILE_COUNT_THRESHOLD,
                target_file_count: TARGET_FILE_COUNT,
                max_manifest_bytes: MAX_MANIFEST_SIZE,
                max_split_attempts: MAX_SPLIT_ATTEMPTS,
            }),
    {
        Budgets {
            file_count_threshold: FILE_COUNT_THRESHOLD,
            target_file_count: TARGET_FILE_COUNT,
            max_manifest_bytes: MAX_MANIFEST_SIZE,
            max_split_attempts: MAX_SPLIT_ATTEMPTS,
        }
    }

    /// Whether a tree of this many files and this size has to be split.
    pub open spec fn triggers(&self, files: usize, size: usize) -> bool {
        files > self.file_count_threshold || size > self.max_manifest_bytes
    }

    /// Whether a manifest of this many files and this size is small enough
    /// for splitting to stop.
    pub open spec fn fits(&self, files: usize, size: usize) -> bool {
        size <= self.max_manifest_bytes && files <= self.target_file_count
    }
}

/// A tree on its way into its budget.
#[derive(Debug)]
pub struct SplitState {
    /// The tree as it stands, shard references in the place of the
    /// directories that were moved out.
    pub working: Directory,
    /// Files in `working` itself.
    pub file_count: usize,
    /// Estimated size of `working`.
    pub manifest_size: usize,
    /// Whether the tree was over its trigger when it came.
    pub splitting: bool,
    /// Splits made.
    pub attempts: usize,
    /// The shard records made, each with the path it stands for.
    pub shards: Vec<(String, String)>,
}

/// What to do next with a tree.
#[derive(Debug, PartialEq, Eq)]
pub enum SplitStep {
    /// The tree is within budget: store it as the manifest.
    Commit,
    /// Store this directory as a shard record, then hand in its address.
    /// The directory's own size is not held against the budget; it comes
    /// with the directory for the caller to see.
    Split(SplittableDirectory),
    /// The tree cannot be brought within budget.
    Fail(BudgetExceeded),
}

/// A step as contracts see it.
pub enum SplitStepView {
    Commit,
    Split(SplittableView),
    Fail(BudgetExceeded),
}

impl View for SplitStep {
    type V = SplitStepView;

    open spec fn view(&self) -> SplitStepView {
        match self {
            SplitStep::Commit => SplitStepView::Commit,
            SplitStep::Split(c) => SplitStepView::Split(c@),
            SplitStep::Fail(e) => SplitStepView::Fail(*e),
        }
    }
}

impl SplitState {
    /// Whether the numbers of the state are those of its tree.
    pub open spec fn wf(&self) -> bool {
        &&& self.file_count == clamp(file_count(self.working@))
        &&& self.manifest_size == clamp(estimated_size(self.working@))
    }

    /// What is known when the state fails.
    pub open spec fn shortfall(&self) -> BudgetExceeded {
        BudgetExceeded {
            attempts: self.attempts,
            manifest_size: self.manifest_size,
            file_count: self.file_count,
        }
    }

    /// The directories that could be moved out, largest first.
    pub open spec fn candidates(&self) -> Seq<SplittableView> {
        largest_first(directories_in(self.working@, Seq::<char>::empty()))
    }

    /// What the state asks for under `budgets`. A tree that came under its
    /// trigger, or that now fits, is stored. Otherwise its largest directory
    /// is moved out, unless the splits are used up or no directory is left:
    /// then it fails.
    pub open spec fn step(&self, budgets: Budgets) -> SplitStepView {
        if !self.splitting || budgets.fits(self.file_count, self.manifest_size) {
            SplitStepView::Commit
        } else if self.attempts >= budgets.max_split_attempts || self.candidates().len() == 0 {
            SplitStepView::Fail(self.shortfall())
        } else {
            SplitStepView::Split(self.candidates()[0])
        }
    }

    /// Take a freshly built tree in.
    pub fn start(tree: Directory, budgets: &Budgets) -> (state: Self)
        ensures
            state.wf(),
            state.working == tree,
            state.splitting == budgets.triggers(state.file_count, state.manifest_size),
            state.attempts == 0,
            state.shards@.len() == 0,
    {
        let file_count = count_files_in_directory(&tree);
        let manifest_size = estimate_directory_size(&tree);
        let splitting = file_count > budgets.file_count_threshold || manifest_size
            > budgets.max_manifest_bytes;
        SplitState {
            working: tree,
            file_count,
            manifest_size,
            splitting,
            attempts: 0,
            shards: Vec::new(),
        }
    }

    /// What to do next. In a tree whose names can stand in paths, the path
    /// of a directory to move out leads to that directory alone; and where
    /// shard references stand at the tree's first level alone, that
    /// directory holds none.
    pub fn next_step(&self, budgets: &Budgets) -> (step: SplitStep)
        ensures
            step@ == self.step(*budgets),
            well_named(self.working@) ==> match step {
                SplitStep::Split(found) => holds_at(
                    self.working@,
                    split_path(found.path@),
                    found.directory@,
                ),
                _ => true,
            },
            flat_refs(self.working@) ==> match step {
                SplitStep::Split(found) => ref_free(found.directory@),
                _ => true,
            },
    {
        if !self.splitting || (self.manifest_size <= budgets.max_manifest_bytes && self.file_count
            <= budgets.target_file_count) {
            return SplitStep::Commit;
        }
        let failure = BudgetExceeded {
            attempts: self.attempts,
            manifest_size: self.manifest_size,
            file_count: self.file_count,
        };
        if self.attempts >= budgets.max_split_attempts {
            return SplitStep::Fail(failure);
        }
        let mut directories = find_large_directories(&self.working, String::new());
        proof {
            if directories@.len() > 0 {
                lemma_largest_first(directories_in(self.working@, Seq::<char>::empty()));
                lemma_largest_is_top_level(self.working@);
                if well_named(self.working@) {
                    lemma_largest_candidate(self.working@);
                }
            }
        }
        if directories.len() == 0 {
            SplitStep::Fail(failure)
        } else {
            let largest = directories.swap_remove(0);
            SplitStep::Split(largest)
        }
    }

    /// Take in that the directory at `path` now stands in a shard record at
    /// `uri`: a reference takes its place, not flat, so that its path stays.
    /// Fails, with nothing changed, where `uri` is no record address.
    pub fn record_split(&mut self, path: &str, uri: &str) -> (result: Result<(), ReferenceFailure>)
        ensures
            match result {
                Ok(_) => {
                    &&& at_uri_valid(uri@)
                    &&& final(self).wf()
                    &&& final(self).working@ == split_at(
                        old(self).working@,
                        split_path(path@),
                        uri@,
                        false,
                    )
                    &&& final(self).splitting == old(self).splitting
                    &&& final(self).attempts == clamp((old(self).attempts + 1) as nat)
                    &&& pairs_view(final(self).shards@) == pairs_view(old(self).shards@).push(
                        (uri@, path@),
                    )
                },
                Err(e) => !at_uri_valid(uri@) && e.kind == ReferenceKind::Malformed && e.address@
                    == uri@ && *final(self)
                    == *old(self),
            },
    {
        match with_subfs_at(&self.working, path, uri, false) {
            Err(e) => Err(e),
            Ok(replaced) => {
                let ghost before = self.shards@;
                self.shards.push((uri.to_owned(), path.to_owned()));
                assert(pairs_view(self.shards@) =~= pairs_view(before).push((uri@, path@)));
                self.file_count = count_files_in_directory(&replaced);
                self.manifest_size = estimate_directory_size(&replaced);
                self.working = replaced;
                self.attempts = self.attempts.saturating_add(1);
                Ok(())
            },
        }
    }
}

/// The splits of a deploy are counted and bounded.
///
/// A state asks for a split only while fewer splits were made than the
/// budget allows, and a split that is recorded counts as one more. So a
/// deploy that follows the steps makes at most `max_split_attempts` splits
/// and then ends, in a commit or in a failure.
pub proof fn lemma_splits_are_bounded(state: SplitState, budgets: Budgets)
    ensures
        state.step(budgets) is Split ==> state.attempts < budgets.max_split_attempts,
        state.step(budgets) is Split ==> state.splitting && !budgets.fits(
            state.file_count,
            state.manifest_size,
        ),
        state.step(budgets) is Commit ==> !state.splitting || budgets.fits(
            state.file_count,
            state.manifest_size,
        ),
        state.attempts >= budgets.max_split_attempts ==> !(state.step(budgets) is Split),
{
}

/// The addresses among `previous` that `current` lacks, in their order.
pub open spec fn orphans_among(
    previous: Seq<(Seq<char>, Seq<char>)>,
    current: Seq<(Seq<char>, Seq<char>)>,
) -> Seq<Seq<char>>
    decreases previous.len(),
{
    if previous.len() == 0 {
        Seq::empty()
    } else {
        let before = orphans_among(previous.drop_last(), current);
        if exists|j: int| 0 <= j < current.len() && current[j].0 == previous.last().0 {
            before
        } else {
            before.push(previous.last().0)
        }
    }
}

fn has_address(list: &Vec<(String, String)>, uri: &str) -> (found: bool)
    ensures
        found == exists|j: int| 0 <= j < list@.len() && pairs_view(list@)[j].0 == uri@,
{
    let mut j: usize = 0;
    while j < list.len()
        invariant
            j <= list.len(),
            forall|k: int| 0 <= k < j ==> (#[trigger] pairs_view(list@)[k]).0 != uri@,
        decreases list.len() - j,
    {
        if str_eq(list[j].0.as_str(), uri) {
            assert(pairs_view(list@)[j as int].0 == uri@);
            return true;
        }
        j += 1;
    }
    false
}

/// The shard records that the previous manifest referred to and the new one
/// does not: they can be deleted once the new manifest is stored.
pub fn orphaned_shards(previous: &Vec<(String, String)>, current: &Vec<(String, String)>) -> (orphans:
    Vec<String>)
    ensures
        texts(orphans@) == orphans_among(pairs_view(previous@), pairs_view(current@)),
{
    let mut orphans: Vec<String> = Vec::new();
    let mut i: usize = 0;
    assert(texts(orphans@) =~= Seq::empty());
    while i < previous.len()
        invariant
            i <= previous.len(),
            texts(orphans@) == orphans_among(
                pairs_view(previous@).take(i as int),
                pairs_view(current@),
            ),
        decreases previous.len() - i,
    {
        proof {
            assert(pairs_view(previous@).take(i + 1).drop_last() == pairs_view(previous@).take(
                i as int,
            ));
            assert(pairs_view(previous@).take(i + 1).last() == (
                previous@[i as int].0@,
                previous@[i as int].1@,
            ));
        }
        let kept = has_address(current, previous[i].0.as_str());
        if !kept {
            let ghost before = orphans@;
            orphans.push(previous[i].0.clone());
            assert(texts(orphans@) =~= texts(before).push(
                previous@[i as int].0@,
            ));
        }
        i += 1;
    }
    proof {
        assert(pairs_view(previous@).take(i as int) == pairs_view(previous@));
    }
    orphans
}

} // verus!
