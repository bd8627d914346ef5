//! The three-way merge of trees.

use vstd::prelude::*;
use crate::bounds::lemma_lookup_within;
use crate::conflict::{Conflict, ConflictPart, ConflictView};
use crate::files::{FileMerger, MergeResult};
use crate::listing::{lookup, put, Listing};
use crate::matchers::EverythingMatcher;
use crate::paired::{diff_entries, lemma_cell_within, paired, Cell};
use crate::repo_path::{RepoPath, RepoPathComponent};
use crate::simplify::{outcome_view, simplify, simplify_conflict};
use crate::store::{
    lemma_index_of_id, lemma_stored_within, lemma_value_within_top, lemma_within_top, object_index,
    opt_within, refs_within, top_bound, Store, StoreError, StoreView,
};
use crate::tree::{Tree, TreeView};
use crate::values::{opt_ref_view, opt_value_eq, TreeId, TreeValue, ValueView};

verus! {

/// The executable flag of a merged file: the flag of the side that changed
/// it, and the flag that both sides have where both changed it.
pub open spec fn resolve_executable(base: bool, side1: bool, side2: bool) -> bool {
    if base == side1 {
        side2
    } else {
        side1
    }
}

/// The sequence of the value, if there is one.
pub open spec fn opt_seq(value: Option<ValueView>) -> Seq<ValueView> {
    match value {
        Some(v) => seq![v],
        None => Seq::empty(),
    }
}

/// The conflict between what two sides made of a base: the base is removed,
/// each side is added, and a side that is absent leaves no term.
pub open spec fn conflict_of(
    base: Option<ValueView>,
    side1: Option<ValueView>,
    side2: Option<ValueView>,
) -> ConflictView {
    ConflictView { removes: opt_seq(base), adds: opt_seq(side1) + opt_seq(side2) }
}

/// The greatest of three numbers.
pub open spec fn max3(a: int, b: int, c: int) -> int {
    if a >= b && a >= c {
        a
    } else if b >= c {
        b
    } else {
        c
    }
}

/// The outcome of merging three trees: the store afterwards, and the
/// identifier of the merged tree or the error that ended the merge.
///
/// Where the base is one of the sides the other side is the result, and where
/// the sides are the same tree they are the result.  Otherwise the result
/// starts as side 1 and takes, name by name, what the differences between the
/// base and side 2 ask for, and is then written to the store.
///
/// Sub-trees are followed only where they stand before `bound`; with
/// `top_bound()` all are.
pub open spec fn merge_trees_spec<M: FileMerger>(
    store: StoreView,
    merger: M,
    side1: TreeView,
    base: TreeView,
    side2: TreeView,
    bound: nat,
) -> (StoreView, Result<Seq<u8>, StoreError>)
    decreases bound, 2nat, 0nat,
{
    if base.id == side1.id {
        (store, Ok(side2.id))
    } else if base.id == side2.id || side1.id == side2.id {
        (store, Ok(side1.id))
    } else {
        let merged = merge_cells(
            store,
            merger,
            base.dir,
            side1.data,
            paired(base.data, side2.data),
            0,
            side1.data,
            bound,
        );
        match merged.1 {
            Err(e) => (merged.0, Err(e)),
            Ok(new_tree) => merged.0.write_tree(new_tree),
        }
    }
}

/// The outcome of taking the differences at positions `i` and later into the
/// listing `acc`.  Where side 1 holds under a name what the base holds, the
/// name gets what side 2 holds; where side 1 holds what side 2 holds, nothing
/// changes; otherwise the name gets the merge of the three values.
pub open spec fn merge_cells<M: FileMerger>(
    store: StoreView,
    merger: M,
    dir: Seq<Seq<u8>>,
    side1: Listing,
    cells: Seq<Cell>,
    i: int,
    acc: Listing,
    bound: nat,
) -> (StoreView, Result<Listing, StoreError>)
    decreases bound, 1nat, cells.len() - i,
{
    if i < 0 || i >= cells.len() {
        (store, Ok(acc))
    } else {
        let name = cells[i].0;
        let maybe_base = cells[i].1;
        let maybe_side2 = cells[i].2;
        let maybe_side1 = lookup(side1, name);
        if maybe_side1 == maybe_base {
            merge_cells(
                store,
                merger,
                dir,
                side1,
                cells,
                i + 1,
                put(acc, name, maybe_side2),
                bound,
            )
        } else if maybe_side1 == maybe_side2 {
            merge_cells(store, merger, dir, side1, cells, i + 1, acc, bound)
        } else {
            let merged = merge_cell(
                store,
                merger,
                dir,
                name,
                maybe_base,
                maybe_side1,
                maybe_side2,
                bound,
            );
            match merged.1 {
                Err(e) => (merged.0, Err(e)),
                Ok(value) => merge_cells(
                    merged.0,
                    merger,
                    dir,
                    side1,
                    cells,
                    i + 1,
                    put(acc, name, value),
                    bound,
                ),
            }
        }
    }
}

/// The outcome of merging what the base and the two sides hold under one
/// name, where the sides differ from the base and from each other.
///
/// Three trees are merged as trees, and an empty result leaves the name
/// without a value.  Three files are merged by the merger; where it settles,
/// the merged contents are written and the executable flag is resolved.
/// Everything else, and files on which the merger does not settle, becomes
/// the simplified conflict of the three values.
pub open spec fn merge_cell<M: FileMerger>(
    store: StoreView,
    merger: M,
    dir: Seq<Seq<u8>>,
    name: Seq<u8>,
    base: Option<ValueView>,
    side1: Option<ValueView>,
    side2: Option<ValueView>,
    bound: nat,
) -> (StoreView, Result<Option<ValueView>, StoreError>)
    decreases bound, 0nat, 0nat,
{
    match (base, side1, side2) {
        (
            Some(ValueView::Tree(base_id)),
            Some(ValueView::Tree(side1_id)),
            Some(ValueView::Tree(side2_id)),
        ) => {
            if store.tree(side1_id) is Some && store.tree(base_id) is Some && store.tree(side2_id)
                is Some {
                let sub_bound = max3(
                    object_index(side1_id)->0,
                    object_index(base_id)->0,
                    object_index(side2_id)->0,
                );
                if 0 <= sub_bound < bound {
                    let sub = merge_trees_spec(
                        store,
                        merger,
                        TreeView {
                            dir: dir.push(name),
                            id: side1_id,
                            data: store.tree(side1_id)->0,
                        },
                        TreeView {
                            dir: dir.push(name),
                            id: base_id,
                            data: store.tree(base_id)->0,
                        },
                        TreeView {
                            dir: dir.push(name),
                            id: side2_id,
                            data: store.tree(side2_id)->0,
                        },
                        sub_bound as nat,
                    );
                    match sub.1 {
                        Err(e) => (sub.0, Err(e)),
                        Ok(id) => (
                            sub.0,
                            Ok(
                                if id == store.empty_tree_id() {
                                    None
                                } else {
                                    Some(ValueView::Tree(id))
                                },
                            ),
                        ),
                    }
                } else {
                    (store, Err(StoreError::NotFound))
                }
            } else {
                (store, Err(StoreError::NotFound))
            }
        },
        (
            Some(ValueView::File { id: base_id, executable: base_executable }),
            Some(ValueView::File { id: side1_id, executable: side1_executable }),
            Some(ValueView::File { id: side2_id, executable: side2_executable }),
        ) => {
            if store.file(base_id) is Some && store.file(side1_id) is Some && store.file(side2_id)
                is Some {
                match merger.resolution(
                    store.file(base_id)->0,
                    store.file(side1_id)->0,
                    store.file(side2_id)->0,
                ) {
                    Some(contents) => (
                        store.write_file(contents).0,
                        Ok(
                            Some(
                                ValueView::File {
                                    id: store.write_file(contents).1,
                                    executable: resolve_executable(
                                        base_executable,
                                        side1_executable,
                                        side2_executable,
                                    ),
                                },
                            ),
                        ),
                    ),
                    None => simplify(store, conflict_of(base, side1, side2)),
                }
            } else {
                (store, Err(StoreError::NotFound))
            }
        },
        _ => simplify(store, conflict_of(base, side1, side2)),
    }
}

/// The entries of the merged tree where the three trees are merged name by
/// name, or the error that ended the merge.
pub open spec fn merged_listing<M: FileMerger>(
    store: StoreView,
    merger: M,
    side1: TreeView,
    base: TreeView,
    side2: TreeView,
    bound: nat,
) -> Result<Listing, StoreError> {
    merge_cells(
        store,
        merger,
        base.dir,
        side1.data,
        paired(base.data, side2.data),
        0,
        side1.data,
        bound,
    ).1
}

/// Whether the three trees have three different identifiers, so that they
/// are merged name by name.
pub open spec fn merges_by_name(side1: TreeView, base: TreeView, side2: TreeView) -> bool {
    base.id != side1.id && base.id != side2.id && side1.id != side2.id
}

/// The mathematical value of the result of a merge of trees.
pub open spec fn id_result_view(r: Result<TreeId, StoreError>) -> Result<Seq<u8>, StoreError> {
    match r {
        Ok(id) => Ok(id@),
        Err(e) => Err(e),
    }
}

/// The base is side 1: the merge is side 2, and nothing is written.
pub proof fn lemma_merge_base_is_side1<M: FileMerger>(
    store: StoreView,
    merger: M,
    side1: TreeView,
    base: TreeView,
    side2: TreeView,
)
    requires
        base.id == side1.id,
    ensures
        merge_trees_spec(store, merger, side1, base, side2, top_bound()) == (
            store,
            Ok::<Seq<u8>, StoreError>(side2.id),
        ),
{
}

/// The base is side 2: the merge is side 1, and nothing is written.
pub proof fn lemma_merge_base_is_side2<M: FileMerger>(
    store: StoreView,
    merger: M,
    side1: TreeView,
    base: TreeView,
    side2: TreeView,
)
    requires
        base.id == side2.id,
    ensures
        merge_trees_spec(store, merger, side1, base, side2, top_bound()) == (
            store,
            Ok::<Seq<u8>, StoreError>(side1.id),
        ),
{
}

/// A tree merged with itself on itself is itself, and nothing is written.
pub proof fn lemma_merge_identity<M: FileMerger>(store: StoreView, merger: M, tree: TreeView)
    ensures
        merge_trees_spec(store, merger, tree, tree, tree, top_bound()) == (
            store,
            Ok::<Seq<u8>, StoreError>(tree.id),
        ),
{
}

/// Merges what the base and the two sides hold under one name, following
/// sub-trees that stand before `bound`.
fn merge_tree_value_within<M: FileMerger>(
    store: &mut Store,
    merger: &M,
    dir: &RepoPath,
    basename: &RepoPathComponent,
    maybe_base: Option<&TreeValue>,
    maybe_side1: Option<&TreeValue>,
    maybe_side2: Option<&TreeValue>,
    Ghost(bound): Ghost<nat>,
) -> (r: Result<Option<TreeValue>, StoreError>)
    requires
        opt_within(opt_ref_view(maybe_base), bound),
        opt_within(opt_ref_view(maybe_side1), bound),
        opt_within(opt_ref_view(maybe_side2), bound),
    ensures
        final(store)@ == merge_cell(
            old(store)@,
            *merger,
            dir@,
            basename@,
            opt_ref_view(maybe_base),
            opt_ref_view(maybe_side1),
            opt_ref_view(maybe_side2),
            bound,
        ).0,
        outcome_view(r) == merge_cell(
            old(store)@,
            *merger,
            dir@,
            basename@,
            opt_ref_view(maybe_base),
            opt_ref_view(maybe_side1),
            opt_ref_view(maybe_side2),
            bound,
        ).1,
        final(store)@.wf(),
    decreases bound, 0nat,
{
    proof {
        use_type_invariant(&*store);
    }
    let maybe_merged: Option<TreeValue> = match (maybe_base, maybe_side1, maybe_side2) {
        (Some(TreeValue::Tree(base)), Some(TreeValue::Tree(side1)), Some(TreeValue::Tree(side2))) => {
            let subdir = dir.join(basename);
            let side1_tree = match store.get_tree(&subdir, side1) {
                Ok(tree) => tree,
                Err(e) => {
                    return Err(e);
                },
            };
            let base_tree = match store.get_tree(&subdir, base) {
                Ok(tree) => tree,
                Err(e) => {
                    return Err(e);
                },
            };
            let side2_tree = match store.get_tree(&subdir, side2) {
                Ok(tree) => tree,
                Err(e) => {
                    return Err(e);
                },
            };
            let ghost sub_bound = max3(
                object_index(side1@)->0,
                object_index(base@)->0,
                object_index(side2@)->0,
            ) as nat;
            proof {
                lemma_index_of_id(side1@);
                lemma_index_of_id(base@);
                lemma_index_of_id(side2@);
                lemma_stored_within(store@, side1@, sub_bound);
                lemma_stored_within(store@, base@, sub_bound);
                lemma_stored_within(store@, side2@, sub_bound);
            }
            let merged = merge_trees_within(
                store,
                merger,
                &side1_tree,
                &base_tree,
                &side2_tree,
                Ghost(sub_bound),
            );
            return match merged {
                Err(e) => Err(e),
                Ok(merged_tree_id) => {
                    if merged_tree_id.equals(store.empty_tree_id()) {
                        Ok(None)
                    } else {
                        Ok(Some(TreeValue::Tree(merged_tree_id)))
                    }
                },
            };
        },
        (
            Some(TreeValue::File { id: base_id, executable: base_executable }),
            Some(TreeValue::File { id: side1_id, executable: side1_executable }),
            Some(TreeValue::File { id: side2_id, executable: side2_executable }),
        ) => {
            let executable = if *base_executable == *side1_executable {
                *side2_executable
            } else if *base_executable == *side2_executable {
                *side1_executable
            } else {
                assert(*side1_executable == *side2_executable);
                *side1_executable
            };
            let filename = dir.join(basename);
            let base_content = match store.read_file(&filename, base_id) {
                Ok(content) => content,
                Err(e) => {
                    return Err(e);
                },
            };
            let side1_content = match store.read_file(&filename, side1_id) {
                Ok(content) => content,
                Err(e) => {
                    return Err(e);
                },
            };
            let side2_content = match store.read_file(&filename, side2_id) {
                Ok(content) => content,
                Err(e) => {
                    return Err(e);
                },
            };
            match merger.merge(&base_content, &side1_content, &side2_content) {
                MergeResult::Resolved(merged_content) => {
                    match store.write_file(&filename, &merged_content) {
                        Ok(id) => Some(TreeValue::File { id, executable }),
                        Err(e) => {
                            return Err(e);
                        },
                    }
                },
                MergeResult::Conflict(_) => None,
            }
        },
        _ => None,
    };
    match maybe_merged {
        Some(merged) => Ok(Some(merged)),
        None => {
            let mut conflict = Conflict::default();
            if let Some(base) = maybe_base {
                conflict.removes.push(ConflictPart { value: base.clone() });
            }
            if let Some(side1) = maybe_side1 {
                conflict.adds.push(ConflictPart { value: side1.clone() });
            }
            if let Some(side2) = maybe_side2 {
                conflict.adds.push(ConflictPart { value: side2.clone() });
            }
            assert(conflict@.removes =~= opt_seq(opt_ref_view(maybe_base)));
            assert(conflict@.adds =~= opt_seq(opt_ref_view(maybe_side1)) + opt_seq(
                opt_ref_view(maybe_side2),
            ));
            simplify_conflict(store, &conflict)
        },
    }
}

/// Merges three trees, following sub-trees that stand before `bound`.
fn merge_trees_within<M: FileMerger>(
    store: &mut Store,
    merger: &M,
    side1_tree: &Tree,
    base_tree: &Tree,
    side2_tree: &Tree,
    Ghost(bound): Ghost<nat>,
) -> (r: Result<TreeId, StoreError>)
    requires
        side1_tree@.dir == base_tree@.dir,
        side2_tree@.dir == base_tree@.dir,
        refs_within(side1_tree@.data, bound),
        refs_within(base_tree@.data, bound),
        refs_within(side2_tree@.data, bound),
    ensures
        final(store)@ == merge_trees_spec(
            old(store)@,
            *merger,
            side1_tree@,
            base_tree@,
            side2_tree@,
            bound,
        ).0,
        id_result_view(r) == merge_trees_spec(
            old(store)@,
            *merger,
            side1_tree@,
            base_tree@,
            side2_tree@,
            bound,
        ).1,
        final(store)@.wf(),
        merges_by_name(side1_tree@, base_tree@, side2_tree@) ==> (match r {
            Ok(id) => merged_listing(
                old(store)@,
                *merger,
                side1_tree@,
                base_tree@,
                side2_tree@,
                bound,
            ) == Ok::<Listing, StoreError>(final(store)@.tree(id@)->0) && final(store)@.tree(
                id@,
            ) is Some,
            Err(_) => true,
        }),
    decreases bound, 1nat,
{
    proof {
        use_type_invariant(&*store);
    }
    let dir = base_tree.dir();
    if base_tree.id().equals(side1_tree.id()) {
        return Ok(side2_tree.id().clone());
    }
    if base_tree.id().equals(side2_tree.id()) || side1_tree.id().equals(side2_tree.id()) {
        return Ok(side1_tree.id().clone());
    }
    // Start with a tree identical to side 1 and modify it by the changes from
    // the base to side 2.
    let mut new_tree = side1_tree.data().clone();
    let everything = EverythingMatcher;
    let mut entries = diff_entries(base_tree, side2_tree, &everything);
    let ghost cells = paired(base_tree@.data, side2_tree@.data);
    let ghost start = store@;
    let ghost side1 = side1_tree@.data;
    let ghost mut i: int = 0;
    let mut done = false;
    assert(cells.skip(0) =~= cells);
    while !done
        invariant
            0 <= i <= cells.len(),
            cells == paired(base_tree@.data, side2_tree@.data),
            side1 == side1_tree@.data,
            dir@ == base_tree@.dir,
            entries.remaining() == cells.skip(i),
            done ==> i == cells.len(),
            refs_within(side1_tree@.data, bound),
            refs_within(base_tree@.data, bound),
            refs_within(side2_tree@.data, bound),
            start == old(store)@,
            store@.wf(),
            base_tree@.id != side1_tree@.id,
            base_tree@.id != side2_tree@.id,
            side1_tree@.id != side2_tree@.id,
            merge_cells(start, *merger, dir@, side1, cells, 0, side1, bound) == merge_cells(
                store@,
                *merger,
                dir@,
                side1,
                cells,
                i,
                new_tree@,
                bound,
            ),
        decreases cells.len() - i, (if done { 0int } else { 1int }),
    {
        match entries.next() {
            None => {
                done = true;
            },
            Some((basename, maybe_base, maybe_side2)) => {
                proof {
                    assert(cells.skip(i)[0] == cells[i]);
                    assert(cells.skip(i).drop_first() =~= cells.skip(i + 1));
                    lemma_cell_within(base_tree@.data, side2_tree@.data, 0, 0, bound, i);
                    lemma_lookup_within(side1, basename@, bound);
                }
                let maybe_side1 = side1_tree.data().value(&basename);
                if opt_value_eq(maybe_side1, maybe_base) {
                    // Side 1 is unchanged: take the value of side 2.
                    match maybe_side2 {
                        None => new_tree.remove(&basename),
                        Some(side2) => new_tree.set(basename, side2.clone()),
                    }
                } else if opt_value_eq(maybe_side1, maybe_side2) {
                    // Both sides changed in the same way: the new tree has the value.
                } else {
                    // The two sides changed in different ways.
                    let merged = merge_tree_value_within(
                        store,
                        merger,
                        dir,
                        &basename,
                        maybe_base,
                        maybe_side1,
                        maybe_side2,
                        Ghost(bound),
                    );
                    match merged {
                        Err(e) => {
                            return Err(e);
                        },
                        Ok(new_value) => {
                            match new_value {
                                None => new_tree.remove(&basename),
                                Some(value) => new_tree.set(basename, value),
                            }
                        },
                    }
                }
                proof {
                    i = i + 1;
                }
            },
        }
    }
    store.write_tree(dir, &new_tree)
}

/// Merges what the base and the two sides hold under the name `basename` of
/// the directory `dir`, for sides that differ from the base and from each
/// other.  Three trees are merged as trees; three files are merged by
/// `merger`; anything else becomes a conflict, simplified.
pub fn merge_tree_value<M: FileMerger>(
    store: &mut Store,
    merger: &M,
    dir: &RepoPath,
    basename: &RepoPathComponent,
    maybe_base: Option<&TreeValue>,
    maybe_side1: Option<&TreeValue>,
    maybe_side2: Option<&TreeValue>,
) -> (r: Result<Option<TreeValue>, StoreError>)
    ensures
        final(store)@ == merge_cell(
            old(store)@,
            *merger,
            dir@,
            basename@,
            opt_ref_view(maybe_base),
            opt_ref_view(maybe_side1),
            opt_ref_view(maybe_side2),
            top_bound(),
        ).0,
        outcome_view(r) == merge_cell(
            old(store)@,
            *merger,
            dir@,
            basename@,
            opt_ref_view(maybe_base),
            opt_ref_view(maybe_side1),
            opt_ref_view(maybe_side2),
            top_bound(),
        ).1,
        final(store)@.wf(),
{
    proof {
        if maybe_base is Some {
            lemma_value_within_top(opt_ref_view(maybe_base)->0);
        }
        if maybe_side1 is Some {
            lemma_value_within_top(opt_ref_view(maybe_side1)->0);
        }
        if maybe_side2 is Some {
            lemma_value_within_top(opt_ref_view(maybe_side2)->0);
        }
    }
    merge_tree_value_within(
        store,
        merger,
        dir,
        basename,
        maybe_base,
        maybe_side1,
        maybe_side2,
        Ghost(top_bound()),
    )
}

/// Merges the changes from `base_tree` to `side2_tree` into `side1_tree` and
/// returns the identifier of the merged tree.  The three trees stand at the
/// same directory.
pub fn merge_trees<M: FileMerger>(
    store: &mut Store,
    merger: &M,
    side1_tree: &Tree,
    base_tree: &Tree,
    side2_tree: &Tree,
) -> (r: Result<TreeId, StoreError>)
    requires
        side1_tree@.dir == base_tree@.dir,
        side2_tree@.dir == base_tree@.dir,
    ensures
        final(store)@ == merge_trees_spec(
            old(store)@,
            *merger,
            side1_tree@,
            base_tree@,
            side2_tree@,
            top_bound(),
        ).0,
        id_result_view(r) == merge_trees_spec(
            old(store)@,
            *merger,
            side1_tree@,
            base_tree@,
            side2_tree@,
            top_bound(),
        ).1,
        base_tree@.id == side1_tree@.id ==> id_result_view(r) == Ok::<Seq<u8>, StoreError>(
            side2_tree@.id,
        ),
        base_tree@.id != side1_tree@.id && (base_tree@.id == side2_tree@.id || side1_tree@.id
            == side2_tree@.id) ==> id_result_view(r) == Ok::<Seq<u8>, StoreError>(
            side1_tree@.id,
        ),
        final(store)@.wf(),
        merges_by_name(side1_tree@, base_tree@, side2_tree@) ==> (match r {
            Ok(id) => merged_listing(
                old(store)@,
                *merger,
                side1_tree@,
                base_tree@,
                side2_tree@,
                top_bound(),
            ) == Ok::<Listing, StoreError>(final(store)@.tree(id@)->0) && final(store)@.tree(
                id@,
            ) is Some,
            Err(_) => true,
        }),
{
    proof {
        lemma_within_top(side1_tree@.data);
        lemma_within_top(base_tree@.data);
        lemma_within_top(side2_tree@.data);
    }
    merge_trees_within(store, merger, side1_tree, base_tree, side2_tree, Ghost(top_bound()))
}

} // verus!
