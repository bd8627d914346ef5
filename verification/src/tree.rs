//! The view of one stored tree at a directory of the repository.

use std::sync::Arc;
use vstd::prelude::*;
use crate::diff::{diff_of, diff_view, recursive_tree_diff, Diff, PathDiff, TreeDiffIterator};
use crate::diff_order::lemma_replacement_order;
use crate::entries::{entries_of, PathValue, TreeEntriesIter};
use crate::listing::{lookup, names_ascending, Listing};
use crate::matchers::Matcher;
use crate::paired::lemma_paired_same;
use crate::repo_path::{RepoPath, RepoPathComponent};
use crate::store::{Store, StoreError, StoreView};
use crate::stored_tree::{listing_of, share, StoredTree, TreeEntry};
use crate::summary::{
    conflicts_in, conflicts_view, paths_of_kind, paths_view, sort_paths, DiffKind, DiffSummary,
};
use crate::values::{opt_ref_view, opt_view, ConflictId, TreeId, TreeValue, ValueView};

verus! {

/// A tree as read from a store: where it stands, its identifier, its
/// entries.  The entries are shared: a copy of the view, and every view that
/// a store hands out of one tree, point to the same entries.
#[derive(Debug, PartialEq, Eq)]
pub struct Tree {
    dir: RepoPath,
    id: TreeId,
    data: Arc<StoredTree>,
}

/// The mathematical value of a [`Tree`].
pub struct TreeView {
    pub dir: Seq<Seq<u8>>,
    pub id: Seq<u8>,
    pub data: Listing,
}

impl View for Tree {
    type V = TreeView;

    closed spec fn view(&self) -> TreeView {
        TreeView { dir: self.dir@, id: self.id@, data: self.data@ }
    }
}

impl Clone for Tree {
    fn clone(&self) -> (r: Self)
        ensures
            r@ == self@,
    {
        Tree { dir: self.dir.clone(), id: self.id.clone(), data: share(&self.data) }
    }
}

/// The entries of the directory that is reached from `data` through the
/// given components.  `Ok(None)` where a component is missing or is no
/// tree; an error where the store lacks a tree on the way.
pub open spec fn descend(store: StoreView, data: Listing, components: Seq<Seq<u8>>) -> Result<
    Option<Listing>,
    StoreError,
>
    decreases components.len(),
{
    if components.len() == 0 {
        Ok(Some(data))
    } else {
        match lookup(data, components[0]) {
            Some(ValueView::Tree(id)) => match store.tree(id) {
                Some(sub) => descend(store, sub, components.drop_first()),
                None => Err(StoreError::NotFound),
            },
            _ => Ok(None),
        }
    }
}

/// The value at `path` below the tree: the tree itself at the empty path,
/// and else what the directory of the path holds under its last component.
pub open spec fn path_value_of(store: StoreView, tree: TreeView, path: Seq<Seq<u8>>) -> Result<
    Option<ValueView>,
    StoreError,
> {
    if path.len() == 0 {
        Ok(Some(ValueView::Tree(tree.id)))
    } else {
        match descend(store, tree.data, path.drop_last()) {
            Ok(Some(data)) => Ok(lookup(data, path.last())),
            Ok(None) => Ok(None),
            Err(e) => Err(e),
        }
    }
}

impl Tree {
    /// The view at `dir` of the tree `id`, whose entries are `data`.
    pub fn new(dir: RepoPath, id: TreeId, data: Arc<StoredTree>) -> (r: Self)
        ensures
            r@ == (TreeView { dir: dir@, id: id@, data: data@ }),
    {
        Tree { dir, id, data }
    }

    /// A tree without entries at `dir`.  Its identifier has no bytes.
    pub fn null(dir: RepoPath) -> (r: Self)
        ensures
            r@ == (TreeView {
                dir: dir@,
                id: Seq::<u8>::empty(),
                data: Seq::<(Seq<u8>, ValueView)>::empty(),
            }),
    {
        Tree { dir, id: TreeId(Vec::new()), data: Arc::new(StoredTree::new()) }
    }

    /// The directory that the entries are relative to.
    pub fn dir(&self) -> (r: &RepoPath)
        ensures
            r@ == self@.dir,
    {
        &self.dir
    }

    /// The identifier of the tree.
    pub fn id(&self) -> (r: &TreeId)
        ensures
            r@ == self@.id,
    {
        &self.id
    }

    /// The stored entries.
    pub fn data(&self) -> (r: &StoredTree)
        ensures
            r@ == self@.data,
    {
        &*self.data
    }

    /// The entries of this directory alone, ascending by name.
    pub fn entries_non_recursive(&self) -> (r: &Vec<(RepoPathComponent, TreeValue)>)
        ensures
            listing_of(r@) == self@.data,
            names_ascending(self@.data),
    {
        self.data().entries()
    }

    /// The entry called `basename`, if the directory has one.
    pub fn entry<'a>(&'a self, basename: &RepoPathComponent) -> (r: Option<TreeEntry<'a>>)
        ensures
            match r {
                Some(e) => lookup(self@.data, basename@) == Some(e.view().1) && e.view().0
                    == basename@,
                None => lookup(self@.data, basename@) is None,
            },
    {
        self.data().entry(basename)
    }

    /// The value under `basename`, if the directory has one.
    pub fn value(&self, basename: &RepoPathComponent) -> (r: Option<&TreeValue>)
        ensures
            opt_ref_view(r) == lookup(self@.data, basename@),
    {
        self.data().value(basename)
    }

    /// The walker over everything below this tree that is not itself a tree.
    pub fn entries(&self) -> (r: TreeEntriesIter)
        ensures
            forall|store: StoreView| #[trigger] r.pending(store) == entries_of(store, self@),
    {
        TreeEntriesIter::new(self.clone())
    }

    /// The value at `path` below this tree, which stands at the root: the tree
    /// itself for the root, `None` where a component on the way is missing or
    /// is no tree.
    pub fn path_value(&self, store: &Store, path: &RepoPath) -> (r: Result<
        Option<TreeValue>,
        StoreError,
    >)
        requires
            self@.dir.len() == 0,
        ensures
            match r {
                Ok(value) => path_value_of(store@, self@, path@) == Ok::<
                    Option<ValueView>,
                    StoreError,
                >(opt_view(value)),
                Err(e) => path_value_of(store@, self@, path@) == Err::<
                    Option<ValueView>,
                    StoreError,
                >(e),
            },
    {
        match path.split() {
            Some((dir, basename)) => {
                assert(dir@.skip(0) =~= dir@);
                match self.sub_tree_recursive(store, &dir, 0) {
                    Ok(Some(tree)) => {
                        match tree.data().value(&basename) {
                            Some(value) => Ok(Some(value.clone())),
                            None => Ok(None),
                        }
                    },
                    Ok(None) => Ok(None),
                    Err(e) => Err(e),
                }
            },
            None => Ok(Some(TreeValue::Tree(self.id.clone()))),
        }
    }

    /// The tree that is reached from this one through the components of
    /// `components` at positions `from` and later.
    fn sub_tree_recursive(&self, store: &Store, components: &RepoPath, from: usize) -> (r: Result<
        Option<Tree>,
        StoreError,
    >)
        requires
            from <= components@.len(),
        ensures
            match r {
                Ok(Some(tree)) => descend(store@, self@.data, components@.skip(from as int)) == Ok::<
                    Option<Listing>,
                    StoreError,
                >(Some(tree@.data)),
                Ok(None) => descend(store@, self@.data, components@.skip(from as int)) == Ok::<
                    Option<Listing>,
                    StoreError,
                >(None),
                Err(e) => descend(store@, self@.data, components@.skip(from as int)) == Err::<
                    Option<Listing>,
                    StoreError,
                >(e),
            },
        decreases components@.len() - from,
    {
        if from == components.len() {
            Ok(Some(self.clone()))
        } else {
            assert(components@.skip(from as int).drop_first() =~= components@.skip(from as int + 1));
            assert(components@.skip(from as int)[0] == components@[from as int]);
            match self.data().entry(components.component(from)) {
                None => Ok(None),
                Some(entry) => match entry.value() {
                    TreeValue::Tree(sub_tree_id) => {
                        match self.known_sub_tree(store, entry.name(), sub_tree_id) {
                            Ok(sub_tree) => sub_tree.sub_tree_recursive(
                                store,
                                components,
                                from + 1,
                            ),
                            Err(e) => Err(e),
                        }
                    },
                    _ => Ok(None),
                },
            }
        }
    }

    /// The walker over the differences between this tree and `other`, which
    /// stands at the same directory.  It yields full paths, which start with
    /// that directory.
    pub fn diff<'matcher, M: Matcher>(&self, other: &Tree, matcher: &'matcher M) -> (r:
        TreeDiffIterator<'matcher, M>)
        ensures
            forall|store: StoreView| #[trigger]
                r.pending(store) == diff_of(store, *matcher, self@, other@),
    {
        recursive_tree_diff(self.clone(), other.clone(), matcher)
    }

    /// The paths at which this tree and `other` differ, by the kind of the
    /// difference and each list in ascending order; or the error that ended
    /// the walk over the differences.
    pub fn diff_summary<M: Matcher>(&self, store: &Store, other: &Tree, matcher: &M) -> (r: Result<
        DiffSummary,
        StoreError,
    >)
        ensures
            match r {
                Ok(summary) => diff_of(store@, *matcher, self@, other@).error is None
                    && summary.is_summary_of(diff_of(store@, *matcher, self@, other@).items)
                    && summary.lists_are_apart(),
                Err(e) => diff_of(store@, *matcher, self@, other@).error == Some(e),
            },
            self@.data == other@.data ==> (match r {
                Ok(summary) => summary.modified@.len() == 0 && summary.added@.len() == 0
                    && summary.removed@.len() == 0,
                Err(_) => false,
            }),
    {
        proof {
            if self@.data == other@.data {
                lemma_paired_same(self@.data);
            }
        }
        let before = self.data();
        let after = other.data();
        proof {
            use_type_invariant(before);
            use_type_invariant(after);
        }
        let mut modified: Vec<RepoPath> = Vec::new();
        let mut added: Vec<RepoPath> = Vec::new();
        let mut removed: Vec<RepoPath> = Vec::new();
        let mut walker = self.diff(other, matcher);
        let ghost all = diff_of(store@, *matcher, self@, other@);
        let ghost mut seen: Seq<PathDiff> = Seq::empty();
        let mut done = false;
        assert(seen + all.items =~= all.items);
        assert(paths_view(modified@) =~= paths_of_kind(seen, DiffKind::Modified));
        assert(paths_view(added@) =~= paths_of_kind(seen, DiffKind::Added));
        assert(paths_view(removed@) =~= paths_of_kind(seen, DiffKind::Removed));
        while !done
            invariant
                all == diff_of(store@, *matcher, self@, other@),
                self@.data == other@.data ==> all.is_done(),
                all.items == seen + walker.pending(store@).items,
                all.error == walker.pending(store@).error,
                done ==> walker.pending(store@).is_done(),
                paths_view(modified@) == paths_of_kind(seen, DiffKind::Modified),
                paths_view(added@) == paths_of_kind(seen, DiffKind::Added),
                paths_view(removed@) == paths_of_kind(seen, DiffKind::Removed),
            decreases walker.pending(store@).items.len(), (if done { 0int } else { 1int }),
        {
            let ghost pending = walker.pending(store@);
            match walker.next(store) {
                None => {
                    done = true;
                },
                Some(Err(e)) => {
                    return Err(e);
                },
                Some(Ok((file, diff))) => {
                    let ghost item = (file@, diff_view(diff));
                    let ghost before_modified = paths_view(modified@);
                    let ghost before_added = paths_view(added@);
                    let ghost before_removed = paths_view(removed@);
                    match diff {
                        Diff::Modified(_, _) => {
                            modified.push(file);
                            assert(paths_view(modified@) =~= before_modified.push(item.0));
                        },
                        Diff::Added(_) => {
                            added.push(file);
                            assert(paths_view(added@) =~= before_added.push(item.0));
                        },
                        Diff::Removed(_) => {
                            removed.push(file);
                            assert(paths_view(removed@) =~= before_removed.push(item.0));
                        },
                    }
                    proof {
                        assert(seen.push(item).drop_last() =~= seen);
                        assert(seen.push(item) + pending.rest().items =~= seen + pending.items);
                        seen = seen.push(item);
                    }
                },
            }
        }
        assert(seen =~= all.items);
        let summary = DiffSummary {
            modified: sort_paths(modified),
            added: sort_paths(added),
            removed: sort_paths(removed),
        };
        proof {
            if all.items.len() == 0 {
                assert(all.items =~= Seq::<PathDiff>::empty());
                summary.lemma_summary_of_nothing();
            }
            use_type_invariant(store);
            lemma_replacement_order(store@, *matcher, self@, other@);
            summary.lemma_lists_are_apart(all.items);
        }
        Ok(summary)
    }

    /// Whether a conflict stands anywhere below this tree.
    pub fn has_conflict(&self, store: &Store) -> (r: Result<bool, StoreError>)
        ensures
            match r {
                Ok(found) => entries_of(store@, self@).error is None && found == (conflicts_in(
                    entries_of(store@, self@).items,
                ).len() > 0),
                Err(e) => entries_of(store@, self@).error == Some(e),
            },
    {
        match self.conflicts(store) {
            Ok(conflicts) => Ok(conflicts.len() > 0),
            Err(e) => Err(e),
        }
    }

    /// The paths below this tree at which conflicts stand, with the
    /// conflicts' identifiers, in the order of the walk; or the error that
    /// ended the walk.
    pub fn conflicts(&self, store: &Store) -> (r: Result<Vec<(RepoPath, ConflictId)>, StoreError>)
        ensures
            match r {
                Ok(conflicts) => entries_of(store@, self@).error is None && conflicts_view(
                    conflicts@,
                ) == conflicts_in(entries_of(store@, self@).items),
                Err(e) => entries_of(store@, self@).error == Some(e),
            },
    {
        let mut conflicts: Vec<(RepoPath, ConflictId)> = Vec::new();
        let mut walker = self.entries();
        let ghost all = entries_of(store@, self@);
        let ghost mut seen: Seq<PathValue> = Seq::empty();
        let mut done = false;
        assert(seen + all.items =~= all.items);
        assert(conflicts_view(conflicts@) =~= conflicts_in(seen));
        while !done
            invariant
                all == entries_of(store@, self@),
                all.items == seen + walker.pending(store@).items,
                all.error == walker.pending(store@).error,
                done ==> walker.pending(store@).is_done(),
                conflicts_view(conflicts@) == conflicts_in(seen),
            decreases walker.pending(store@).items.len(), (if done { 0int } else { 1int }),
        {
            let ghost pending = walker.pending(store@);
            match walker.next(store) {
                None => {
                    done = true;
                },
                Some(Err(e)) => {
                    return Err(e);
                },
                Some(Ok((name, value))) => {
                    let ghost item = (name@, value@);
                    let ghost before = conflicts_view(conflicts@);
                    if let TreeValue::Conflict(id) = value {
                        conflicts.push((name, id));
                        assert(conflicts_view(conflicts@) =~= before.push((item.0, id@)));
                    }
                    proof {
                        assert(seen.push(item).drop_last() =~= seen);
                        assert(seen.push(item) + pending.rest().items =~= seen + pending.items);
                        seen = seen.push(item);
                    }
                },
            }
        }
        assert(seen =~= all.items);
        Ok(conflicts)
    }

    /// Reads the tree `id` as the sub-tree called `name` of this directory,
    /// without looking `name` up.
    pub fn known_sub_tree(&self, store: &Store, name: &RepoPathComponent, id: &TreeId) -> (r:
        Result<Tree, StoreError>)
        ensures
            store@.wf(),
            match r {
                Ok(tree) => {
                    &&& store@.tree(id@) == Some(tree@.data)
                    &&& tree@.dir == self@.dir.push(name@)
                    &&& tree@.id == id@
                },
                Err(e) => store@.tree(id@) is None && e == StoreError::NotFound,
            },
    {
        let subdir = self.dir.join(name);
        store.get_tree(&subdir, id)
    }

    /// Reads the sub-tree called `name`.  There is none where the directory
    /// has no such entry or the entry is no tree.
    pub fn sub_tree(&self, store: &Store, name: &RepoPathComponent) -> (r: Result<
        Option<Tree>,
        StoreError,
    >)
        ensures
            match lookup(self@.data, name@) {
                Some(ValueView::Tree(id)) => match r {
                    Ok(Some(tree)) => {
                        &&& store@.tree(id) == Some(tree@.data)
                        &&& tree@.dir == self@.dir.push(name@)
                        &&& tree@.id == id
                    },
                    Ok(None) => false,
                    Err(e) => store@.tree(id) is None && e == StoreError::NotFound,
                },
                _ => r matches Ok(None),
            },
    {
        match self.data().value(name) {
            Some(TreeValue::Tree(sub_tree_id)) => {
                match self.known_sub_tree(store, name, sub_tree_id) {
                    Ok(tree) => Ok(Some(tree)),
                    Err(e) => Err(e),
                }
            },
            _ => Ok(None),
        }
    }
}

} // verus!
