//! Summaries of a walk: the paths of a diff by kind, and the conflicts of a tree.

use vstd::prelude::*;
use vstd::seq_lib::{to_multiset_build, to_multiset_insert};
use crate::diff::{Diff, PathDiff};
use crate::entries::PathValue;
use crate::repo_path::{lemma_path_lt_irreflexive, lemma_path_lt_transitive, path_lt, RepoPath};
use crate::values::{ConflictId, ValueView};

verus! {

/// The three kinds of difference.
pub enum DiffKind {
    Modified,
    Added,
    Removed,
}

/// The kind of a difference.
pub open spec fn kind_of<T>(diff: Diff<T>) -> DiffKind {
    match diff {
        Diff::Modified(_, _) => DiffKind::Modified,
        Diff::Added(_) => DiffKind::Added,
        Diff::Removed(_) => DiffKind::Removed,
    }
}

/// The paths of the differences of the given kind, in the order of the walk.
pub open spec fn paths_of_kind(items: Seq<PathDiff>, kind: DiffKind) -> Seq<Seq<Seq<u8>>>
    decreases items.len(),
{
    if items.len() == 0 {
        Seq::empty()
    } else if kind_of(items.last().1) == kind {
        paths_of_kind(items.drop_last(), kind).push(items.last().0)
    } else {
        paths_of_kind(items.drop_last(), kind)
    }
}

/// How often the items hold the path.
pub open spec fn occurrences(items: Seq<PathDiff>, path: Seq<Seq<u8>>) -> nat
    decreases items.len(),
{
    if items.len() == 0 {
        0
    } else if items.last().0 == path {
        occurrences(items.drop_last(), path) + 1
    } else {
        occurrences(items.drop_last(), path)
    }
}

/// A path stands in the lists of the three kinds together as often as the items hold it.
pub proof fn lemma_kinds_count(items: Seq<PathDiff>, path: Seq<Seq<u8>>)
    ensures
        paths_of_kind(items, DiffKind::Modified).to_multiset().count(path) + paths_of_kind(
            items,
            DiffKind::Added,
        ).to_multiset().count(path) + paths_of_kind(items, DiffKind::Removed).to_multiset().count(
            path,
        ) == occurrences(items, path),
    decreases items.len(),
{
    if items.len() == 0 {
        Seq::<Seq<Seq<u8>>>::empty().to_multiset_ensures();
    } else {
        lemma_kinds_count(items.drop_last(), path);
        to_multiset_build(paths_of_kind(items.drop_last(), DiffKind::Modified), items.last().0);
        to_multiset_build(paths_of_kind(items.drop_last(), DiffKind::Added), items.last().0);
        to_multiset_build(paths_of_kind(items.drop_last(), DiffKind::Removed), items.last().0);
    }
}

/// Items no two of which hold the same path hold no path more than once.
pub proof fn lemma_occurs_once(items: Seq<PathDiff>, path: Seq<Seq<u8>>)
    requires
        forall|i: int, j: int|
            0 <= i < items.len() && 0 <= j < items.len() && i != j ==> (#[trigger] items[i]).0
                != (#[trigger] items[j]).0,
    ensures
        occurrences(items, path) <= 1,
        occurrences(items, path) == 0 <==> forall|i: int|
            0 <= i < items.len() ==> (#[trigger] items[i]).0 != path,
    decreases items.len(),
{
    if items.len() > 0 {
        let init = items.drop_last();
        assert forall|i: int, j: int|
            0 <= i < init.len() && 0 <= j < init.len() && i != j implies (#[trigger] init[i]).0
            != (#[trigger] init[j]).0 by {
            assert(init[i] == items[i]);
            assert(init[j] == items[j]);
        }
        lemma_occurs_once(init, path);
        if items.last().0 == path {
            assert forall|i: int| 0 <= i < init.len() implies (#[trigger] init[i]).0 != path by {
                assert(init[i] == items[i]);
                assert(items[i].0 != items[items.len() - 1].0);
            }
            assert(items[items.len() - 1].0 == path);
        } else {
            if occurrences(items, path) == 0 {
                assert forall|i: int| 0 <= i < items.len() implies (#[trigger] items[i]).0
                    != path by {
                    if i < init.len() {
                        assert(init[i] == items[i]);
                    }
                }
            } else {
                let i = choose|i: int| 0 <= i < init.len() && (#[trigger] init[i]).0 == path;
                assert(items[i].0 == path);
            }
        }
    }
}

/// The paths and identifiers of the values that are conflicts, in the order of the walk.
pub open spec fn conflicts_in(items: Seq<PathValue>) -> Seq<(Seq<Seq<u8>>, Seq<u8>)>
    decreases items.len(),
{
    if items.len() == 0 {
        Seq::empty()
    } else {
        match items.last().1 {
            ValueView::Conflict(id) => conflicts_in(items.drop_last()).push((items.last().0, id)),
            _ => conflicts_in(items.drop_last()),
        }
    }
}

/// The mathematical values of a sequence of paths.
pub open spec fn paths_view(paths: Seq<RepoPath>) -> Seq<Seq<Seq<u8>>> {
    paths.map_values(|p: RepoPath| p@)
}

/// The mathematical values of a sequence of paths with conflict identifiers.
pub open spec fn conflicts_view(conflicts: Seq<(RepoPath, ConflictId)>) -> Seq<
    (Seq<Seq<u8>>, Seq<u8>),
> {
    conflicts.map_values(|c: (RepoPath, ConflictId)| (c.0@, c.1@))
}

/// No path of the sequence is less than one before it.
pub open spec fn paths_sorted(paths: Seq<Seq<Seq<u8>>>) -> bool {
    forall|i: int, j: int| 0 <= i < j < paths.len() ==> !path_lt(paths[j], paths[i])
}

/// `sorted` holds the paths of `paths`, each as often, in ascending order.
pub open spec fn is_sorted_form(sorted: Seq<Seq<Seq<u8>>>, paths: Seq<Seq<Seq<u8>>>) -> bool {
    paths_sorted(sorted) && sorted.to_multiset() == paths.to_multiset()
}

/// Puts `path` into a sorted list, behind the paths that are not greater.
pub fn insert_sorted(paths: &mut Vec<RepoPath>, path: RepoPath)
    requires
        paths_sorted(paths_view(old(paths)@)),
    ensures
        paths_sorted(paths_view(final(paths)@)),
        paths_view(final(paths)@).to_multiset() == paths_view(old(paths)@).to_multiset().insert(
            path@,
        ),
{
    let ghost before = paths_view(paths@);
    let mut k: usize = 0;
    while k < paths.len() && !path.lt(&paths[k])
        invariant
            k <= paths.len(),
            before == paths_view(paths@),
            forall|i: int| 0 <= i < k ==> !path_lt(path@, before[i]),
        decreases paths.len() - k,
    {
        k = k + 1;
    }
    proof {
        to_multiset_insert(before, k as int, path@);
        let after = before.insert(k as int, path@);
        assert forall|i: int, j: int| 0 <= i < j < after.len() implies !path_lt(
            after[j],
            after[i],
        ) by {
            if j < k {
            } else if j == k {
            } else if i == k {
                // `path` is less than the path that stood at `k`, and nothing
                // behind that one is less than it.
                if path_lt(after[j], path@) {
                    lemma_path_lt_transitive(before[j - 1], path@, before[k as int]);
                    lemma_path_lt_irreflexive(before[k as int]);
                }
            } else if i < k {
                assert(after[i] == before[i]);
                assert(after[j] == before[j - 1]);
            } else {
                assert(after[i] == before[i - 1]);
                assert(after[j] == before[j - 1]);
            }
        }
    }
    paths.insert(k, path);
    assert(paths_view(paths@) =~= before.insert(k as int, path@));
}

/// The paths in ascending order.
pub fn sort_paths(paths: Vec<RepoPath>) -> (r: Vec<RepoPath>)
    ensures
        is_sorted_form(paths_view(r@), paths_view(paths@)),
{
    let ghost all = paths_view(paths@);
    let mut sorted: Vec<RepoPath> = Vec::new();
    let mut i: usize = 0;
    assert(paths_view(sorted@) =~= all.take(0));
    while i < paths.len()
        invariant
            i <= paths.len(),
            all == paths_view(paths@),
            paths_sorted(paths_view(sorted@)),
            paths_view(sorted@).to_multiset() == all.take(i as int).to_multiset(),
        decreases paths.len() - i,
    {
        proof {
            to_multiset_build(all.take(i as int), all[i as int]);
            assert(all.take(i as int).push(all[i as int]) =~= all.take(i as int + 1));
        }
        insert_sorted(&mut sorted, paths[i].clone());
        i = i + 1;
    }
    assert(all.take(paths.len() as int) =~= all);
    sorted
}

/// The paths at which two trees differ, by the kind of the difference.
#[derive(Debug, PartialEq, Eq)]
pub struct DiffSummary {
    pub modified: Vec<RepoPath>,
    pub added: Vec<RepoPath>,
    pub removed: Vec<RepoPath>,
}

impl DiffSummary {
    /// Whether the summary is that of the given differences: each list holds
    /// the paths of its kind, each as often as the walk gives it, in
    /// ascending order.
    pub open spec fn is_summary_of(&self, items: Seq<PathDiff>) -> bool {
        &&& is_sorted_form(paths_view(self.modified@), paths_of_kind(items, DiffKind::Modified))
        &&& is_sorted_form(paths_view(self.added@), paths_of_kind(items, DiffKind::Added))
        &&& is_sorted_form(paths_view(self.removed@), paths_of_kind(items, DiffKind::Removed))
    }

    /// No path stands twice in a list or in two of the lists.
    pub open spec fn lists_are_apart(&self) -> bool {
        forall|path: Seq<Seq<u8>>|
            #![trigger paths_view(self.modified@).to_multiset().count(path)]
            paths_view(self.modified@).to_multiset().count(path) + paths_view(
                self.added@,
            ).to_multiset().count(path) + paths_view(self.removed@).to_multiset().count(path)
                <= 1
    }

    /// The summary of differences no two of which stand at the same path
    /// holds no path twice, neither in one list nor in two.
    pub proof fn lemma_lists_are_apart(&self, items: Seq<PathDiff>)
        requires
            self.is_summary_of(items),
            forall|i: int, j: int|
                0 <= i < items.len() && 0 <= j < items.len() && i != j ==> (
                #[trigger] items[i]).0 != (#[trigger] items[j]).0,
        ensures
            self.lists_are_apart(),
    {
        assert forall|path: Seq<Seq<u8>>|
            #![trigger paths_view(self.modified@).to_multiset().count(path)]
            paths_view(self.modified@).to_multiset().count(path) + paths_view(
                self.added@,
            ).to_multiset().count(path) + paths_view(self.removed@).to_multiset().count(path)
                <= 1 by {
            lemma_kinds_count(items, path);
            lemma_occurs_once(items, path);
        }
    }

    /// The summary of no differences lists no path.
    pub proof fn lemma_summary_of_nothing(&self)
        requires
            self.is_summary_of(Seq::empty()),
        ensures
            self.modified@.len() == 0,
            self.added@.len() == 0,
            self.removed@.len() == 0,
    {
        let none = Seq::<Seq<Seq<u8>>>::empty();
        none.to_multiset_ensures();
        paths_view(self.modified@).to_multiset_ensures();
        paths_view(self.added@).to_multiset_ensures();
        paths_view(self.removed@).to_multiset_ensures();
    }

    /// Whether the summary lists no path.
    pub fn is_empty(&self) -> (r: bool)
        ensures
            r == (self.modified@.len() == 0 && self.added@.len() == 0 && self.removed@.len()
                == 0),
    {
        self.modified.len() == 0 && self.added.len() == 0 && self.removed.len() == 0
    }
}

} // verus!
