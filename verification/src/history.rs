//! The decisions of a walk over the first-parent history of a repository:
//! how the chain of commits is followed, which commits are skipped, what each
//! commit is compared against, how its rev-list count follows from the
//! previous one and which of its changed paths are recorded. Reading the
//! repository is left to the caller.

use vstd::prelude::*;

verus! {

/// What to do after looking at a commit while following the chain back from HEAD
#[derive(Clone, Copy, Debug, PartialEq, Eq, Structural)]
pub enum ChainStep {
    /// The commit is the checkpoint of an earlier walk: stop, it was reached
    Reached,
    /// The commit is already on the chain: stop
    Cycle,
    /// A root commit: continue through the predecessor that re-imports its files, if any
    Predecessor,
    /// Continue through the first parent
    FirstParent,
}

/// The step after a commit, given whether it is the checkpoint, whether it is
/// already on the chain and its number of parents
pub fn chain_step(is_checkpoint: bool, on_chain: bool, parent_count: usize) -> (s: ChainStep)
    ensures
        s == if is_checkpoint {
            ChainStep::Reached
        } else if on_chain {
            ChainStep::Cycle
        } else if parent_count == 0 {
            ChainStep::Predecessor
        } else {
            ChainStep::FirstParent
        },
{
    if is_checkpoint {
        ChainStep::Reached
    } else if on_chain {
        ChainStep::Cycle
    } else if parent_count == 0 {
        ChainStep::Predecessor
    } else {
        ChainStep::FirstParent
    }
}

/// Whether a commit may be the predecessor of a root: one not already walked
/// and no newer than the root
pub fn predecessor_candidate(on_chain: bool, time: i64, root_time: i64) -> (r: bool)
    ensures
        r == (!on_chain && time <= root_time),
{
    !on_chain && time <= root_time
}

/// Whether a commit's changes are left out: only when the checkpoint of the
/// earlier walk was not found and the commit is older than the fallback time
pub fn skip_commit(reached_checkpoint: bool, since_time: Option<i64>, commit_time: i64) -> (skip: bool)
    ensures
        skip == (!reached_checkpoint && (since_time matches Some(t) && commit_time < t)),
{
    match since_time {
        Some(t) => !reached_checkpoint && commit_time < t,
        None => false,
    }
}

/// The tree a walked commit's changes are read against
#[derive(Clone, Copy, Debug, PartialEq, Eq, Structural)]
pub enum DiffBase {
    /// The previous commit walked
    Previous,
    /// The commit's first parent, at the start of the walk
    FirstParent,
    /// An empty tree, for a root at the start of the walk
    Empty,
}

/// What a commit is compared against: the previous commit walked, else its
/// first parent, else an empty tree
pub fn diff_base(has_previous: bool, has_parent: bool) -> (b: DiffBase)
    ensures
        b == if has_previous {
            DiffBase::Previous
        } else if has_parent {
            DiffBase::FirstParent
        } else {
            DiffBase::Empty
        },
{
    if has_previous {
        DiffBase::Previous
    } else if has_parent {
        DiffBase::FirstParent
    } else {
        DiffBase::Empty
    }
}

/// How a commit's rev-list count is found
#[derive(Clone, Copy, Debug, PartialEq, Eq, Structural)]
pub enum CountStep {
    /// One more than the previous commit's count
    Increment,
    /// One more than the previous commit's count, plus the commits a merge
    /// brings in that its first parent lacks
    Merge,
    /// Counted afresh: the start of the walk, or a root continuing from its
    /// predecessor
    Recount,
}

/// How to count a commit, given whether its first parent is the previous
/// commit walked and how many parents it has
pub fn count_step(first_parent_is_previous: bool, parent_count: usize) -> (s: CountStep)
    ensures
        s == if first_parent_is_previous && parent_count > 0 {
            if parent_count == 1 {
                CountStep::Increment
            } else {
                CountStep::Merge
            }
        } else {
            CountStep::Recount
        },
{
    if first_parent_is_previous && parent_count > 0 {
        if parent_count == 1 {
            CountStep::Increment
        } else {
            CountStep::Merge
        }
    } else {
        CountStep::Recount
    }
}

/// The rev-list count of a commit that follows one counted `count`, a merge
/// bringing in `merged` commits of its other parents
pub fn next_count(count: u64, merged: u64) -> (r: u64)
    requires
        count + 1 + merged <= u64::MAX,
    ensures
        r == count + 1 + merged,
{
    count + 1 + merged
}

/// The paths a commit's diff keeps, in order: each entry is whether the file
/// was deleted and the path of its new side, if it has one; deleted files
/// and entries without a path are dropped
pub open spec fn kept_paths<T>(entries: Seq<(bool, Option<T>)>) -> Seq<T>
    decreases entries.len(),
{
    if entries.len() == 0 {
        Seq::empty()
    } else {
        let e = entries.last();
        let before = kept_paths(entries.drop_last());
        if !e.0 && e.1 is Some { before.push(e.1->0) } else { before }
    }
}

/// The batch of changed paths a walk records for a commit: none when the
/// commit is skipped or keeps no path; otherwise the kept paths, in order
pub fn commit_batch<T>(skipped: bool, entries: Vec<(bool, Option<T>)>) -> (r: Option<Vec<T>>)
    ensures
        r is Some <==> !skipped && kept_paths(entries@).len() > 0,
        r matches Some(v) ==> v@ == kept_paths(entries@),
{
    if skipped {
        return None;
    }
    let mut kept: Vec<T> = Vec::new();
    let mut rest = entries;
    let ghost all = rest@;
    while rest.len() > 0
        invariant
            rest@.len() <= all.len(),
            rest@ == all.subrange(all.len() - rest@.len(), all.len() as int),
            kept@ == kept_paths(all.subrange(0, all.len() - rest@.len())),
        decreases rest.len(),
    {
        let ghost done = all.len() - rest@.len();
        let e = rest.remove(0);
        assert(e == all[done]);
        assert(all.subrange(0, done + 1).drop_last() == all.subrange(0, done));
        assert(all.subrange(0, done + 1).last() == all[done]);
        let (deleted, path) = e;
        if !deleted {
            match path {
                Some(p) => kept.push(p),
                None => {},
            }
        }
        assert(rest@ =~= all.subrange(all.len() - rest@.len(), all.len() as int));
    }
    assert(all.subrange(0, all.len() as int) == all);
    if kept.len() > 0 {
        Some(kept)
    } else {
        None
    }
}

} // verus!
