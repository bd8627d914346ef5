//! The limit up to which sub-trees are followed makes no difference to the
//! walks and the merge, as long as the trees are within it.  In a store that
//! keeps its promises every tree is within the limit that follows all, so
//! that what is said of a tree holds of its sub-trees in the same words.

use vstd::prelude::*;
use crate::diff::{diff_of, max2, side_tree, walk_cell, walk_cells};
use crate::entries::{entries_of, walk_entries, walk_entry};
use crate::files::FileMerger;
use crate::listing::{lemma_position, lookup, position, put, Listing};
use crate::matchers::Matcher;
use crate::merge::{max3, merge_cell, merge_cells, merge_trees_spec};
use crate::paired::{lemma_cell_within, paired, Cell};
use crate::store::{
    lemma_index_of_id, lemma_stored_within, lemma_within_top, object_index, opt_within,
    refs_within, top_bound, value_within, StoreError, StoreView,
};
use crate::tree::TreeView;
use crate::values::ValueView;

verus! {

/// Both sides of every difference are within `bound`.
pub open spec fn cells_within(cells: Seq<Cell>, bound: nat) -> bool {
    forall|n: int|
        0 <= n < cells.len() ==> opt_within((#[trigger] cells[n]).1, bound) && opt_within(
            cells[n].2,
            bound,
        )
}

/// The differences between two listings are within a bound that the listings are within.
pub proof fn lemma_paired_within(d1: Listing, d2: Listing, bound: nat)
    requires
        refs_within(d1, bound),
        refs_within(d2, bound),
    ensures
        cells_within(paired(d1, d2), bound),
{
    let cells = paired(d1, d2);
    assert forall|n: int| 0 <= n < cells.len() implies opt_within((#[trigger] cells[n]).1, bound)
        && opt_within(cells[n].2, bound) by {
        lemma_cell_within(d1, d2, 0, 0, bound, n);
    }
}

/// What a listing holds under a name is within a bound that the listing is within.
pub proof fn lemma_lookup_within(t: Listing, name: Seq<u8>, bound: nat)
    requires
        refs_within(t, bound),
    ensures
        opt_within(lookup(t, name), bound),
{
    lemma_position(t, name);
    if position(t, name) < t.len() {
        assert(value_within(t[position(t, name)].1, bound));
    }
}

/// The walk over the entries of a listing is the same under every limit
/// that the listing is within.
pub proof fn lemma_walk_entries_any_bound(
    store: StoreView,
    dir: Seq<Seq<u8>>,
    data: Listing,
    i: int,
    bound1: nat,
    bound2: nat,
)
    requires
        refs_within(data, bound1),
        refs_within(data, bound2),
        0 <= i,
    ensures
        walk_entries(store, dir, data, i, bound1) == walk_entries(store, dir, data, i, bound2),
    decreases data.len() - i,
{
    if i < data.len() {
        assert(value_within(data[i].1, bound1));
        assert(value_within(data[i].1, bound2));
        assert(walk_entry(store, dir, data, i, bound1) == walk_entry(store, dir, data, i, bound2));
        lemma_walk_entries_any_bound(store, dir, data, i + 1, bound1, bound2);
    }
}

/// In a store that keeps its promises, the walk goes through a sub-tree as
/// the walk over that sub-tree goes.
pub proof fn lemma_walk_entry_of_tree(
    store: StoreView,
    dir: Seq<Seq<u8>>,
    data: Listing,
    i: int,
    id: Seq<u8>,
)
    requires
        store.wf(),
        0 <= i < data.len(),
        data[i].1 == ValueView::Tree(id),
        store.tree(id) is Some,
    ensures
        walk_entry(store, dir, data, i, top_bound()) == entries_of(
            store,
            TreeView { dir: dir.push(data[i].0), id, data: store.tree(id)->0 },
        ),
{
    let index = object_index(id)->0 as nat;
    lemma_index_of_id(id);
    lemma_stored_within(store, id, index);
    lemma_within_top(store.tree(id)->0);
    lemma_walk_entries_any_bound(
        store,
        dir.push(data[i].0),
        store.tree(id)->0,
        0,
        index,
        top_bound(),
    );
}

/// The walk over differences is the same under every limit that the
/// differences are within.
pub proof fn lemma_walk_cells_any_bound<M: Matcher>(
    store: StoreView,
    matcher: M,
    dir: Seq<Seq<u8>>,
    cells: Seq<Cell>,
    bound1: nat,
    bound2: nat,
)
    requires
        cells_within(cells, bound1),
        cells_within(cells, bound2),
    ensures
        walk_cells(store, matcher, dir, cells, bound1) == walk_cells(
            store,
            matcher,
            dir,
            cells,
            bound2,
        ),
    decreases cells.len(),
{
    if cells.len() > 0 {
        let cell = cells[0];
        assert(opt_within(cell.1, bound1) && opt_within(cell.2, bound1));
        assert(opt_within(cell.1, bound2) && opt_within(cell.2, bound2));
        assert(side_tree(store, cell.1, bound1) == side_tree(store, cell.1, bound2));
        assert(side_tree(store, cell.2, bound1) == side_tree(store, cell.2, bound2));
        assert(walk_cell(store, matcher, dir, cell, bound1) == walk_cell(
            store,
            matcher,
            dir,
            cell,
            bound2,
        ));
        let rest = cells.drop_first();
        assert forall|n: int| 0 <= n < rest.len() implies opt_within(
            (#[trigger] rest[n]).1,
            bound1,
        ) && opt_within(rest[n].2, bound1) && opt_within(rest[n].1, bound2) && opt_within(
            rest[n].2,
            bound2,
        ) by {
            assert(rest[n] == cells[n + 1]);
        }
        lemma_walk_cells_any_bound(store, matcher, dir, rest, bound1, bound2);
    }
}

/// In a store that keeps its promises, the walk goes through a name at which
/// both trees hold a tree as the walk over the differences between the two
/// sub-trees goes.
pub proof fn lemma_walk_cell_of_trees<M: Matcher>(
    store: StoreView,
    matcher: M,
    dir: Seq<Seq<u8>>,
    name: Seq<u8>,
    before: Seq<u8>,
    after: Seq<u8>,
)
    requires
        store.wf(),
        store.tree(before) is Some,
        store.tree(after) is Some,
    ensures
        walk_cell(
            store,
            matcher,
            dir,
            (name, Some(ValueView::Tree(before)), Some(ValueView::Tree(after))),
            top_bound(),
        ) == diff_of(
            store,
            matcher,
            TreeView { dir: dir.push(name), id: before, data: store.tree(before)->0 },
            TreeView { dir: dir.push(name), id: after, data: store.tree(after)->0 },
        ),
{
    let d1 = store.tree(before)->0;
    let d2 = store.tree(after)->0;
    let index1 = object_index(before)->0 as nat;
    let index2 = object_index(after)->0 as nat;
    let sub_bound = max2(index1, index2);
    lemma_index_of_id(before);
    lemma_index_of_id(after);
    lemma_stored_within(store, before, sub_bound);
    lemma_stored_within(store, after, sub_bound);
    lemma_within_top(d1);
    lemma_within_top(d2);
    lemma_paired_within(d1, d2, sub_bound);
    lemma_paired_within(d1, d2, top_bound());
    lemma_walk_cells_any_bound(
        store,
        matcher,
        dir.push(name),
        paired(d1, d2),
        sub_bound,
        top_bound(),
    );
}

/// The merge of what stands under one name is the same under every limit
/// that the three values are within.
pub proof fn lemma_merge_cell_any_bound<M: FileMerger>(
    store: StoreView,
    merger: M,
    dir: Seq<Seq<u8>>,
    name: Seq<u8>,
    base: Option<ValueView>,
    side1: Option<ValueView>,
    side2: Option<ValueView>,
    bound1: nat,
    bound2: nat,
)
    requires
        opt_within(base, bound1) && opt_within(side1, bound1) && opt_within(side2, bound1),
        opt_within(base, bound2) && opt_within(side1, bound2) && opt_within(side2, bound2),
    ensures
        merge_cell(store, merger, dir, name, base, side1, side2, bound1) == merge_cell(
            store,
            merger,
            dir,
            name,
            base,
            side1,
            side2,
            bound2,
        ),
{
    match (base, side1, side2) {
        (
            Some(ValueView::Tree(base_id)),
            Some(ValueView::Tree(side1_id)),
            Some(ValueView::Tree(side2_id)),
        ) => {
            if store.tree(side1_id) is Some && store.tree(base_id) is Some && store.tree(side2_id)
                is Some {
                lemma_index_of_id(base_id);
                lemma_index_of_id(side1_id);
                lemma_index_of_id(side2_id);
            }
        },
        _ => {},
    }
}

/// Taking in the differences is the same under every limit that side 1 and
/// the differences are within.
pub proof fn lemma_merge_cells_any_bound<M: FileMerger>(
    store: StoreView,
    merger: M,
    dir: Seq<Seq<u8>>,
    side1: Listing,
    cells: Seq<Cell>,
    i: int,
    acc: Listing,
    bound1: nat,
    bound2: nat,
)
    requires
        0 <= i,
        refs_within(side1, bound1),
        refs_within(side1, bound2),
        cells_within(cells, bound1),
        cells_within(cells, bound2),
    ensures
        merge_cells(store, merger, dir, side1, cells, i, acc, bound1) == merge_cells(
            store,
            merger,
            dir,
            side1,
            cells,
            i,
            acc,
            bound2,
        ),
    decreases cells.len() - i,
{
    if i < cells.len() {
        let cell = cells[i];
        let maybe_side1 = lookup(side1, cell.0);
        lemma_lookup_within(side1, cell.0, bound1);
        lemma_lookup_within(side1, cell.0, bound2);
        assert(opt_within(cell.1, bound1) && opt_within(cell.2, bound1));
        assert(opt_within(cell.1, bound2) && opt_within(cell.2, bound2));
        if maybe_side1 == cell.1 {
            lemma_merge_cells_any_bound(
                store,
                merger,
                dir,
                side1,
                cells,
                i + 1,
                put(acc, cell.0, cell.2),
                bound1,
                bound2,
            );
        } else if maybe_side1 == cell.2 {
            lemma_merge_cells_any_bound(store, merger, dir, side1, cells, i + 1, acc, bound1, bound2);
        } else {
            lemma_merge_cell_any_bound(
                store,
                merger,
                dir,
                cell.0,
                cell.1,
                maybe_side1,
                cell.2,
                bound1,
                bound2,
            );
            let one = merge_cell(store, merger, dir, cell.0, cell.1, maybe_side1, cell.2, bound1);
            if one.1 is Ok {
                lemma_merge_cells_any_bound(
                    one.0,
                    merger,
                    dir,
                    side1,
                    cells,
                    i + 1,
                    put(acc, cell.0, one.1->Ok_0),
                    bound1,
                    bound2,
                );
            }
        }
    }
}

/// The merge of three trees is the same under every limit that the trees are within.
pub proof fn lemma_merge_trees_any_bound<M: FileMerger>(
    store: StoreView,
    merger: M,
    side1: TreeView,
    base: TreeView,
    side2: TreeView,
    bound1: nat,
    bound2: nat,
)
    requires
        refs_within(side1.data, bound1) && refs_within(base.data, bound1) && refs_within(
            side2.data,
            bound1,
        ),
        refs_within(side1.data, bound2) && refs_within(base.data, bound2) && refs_within(
            side2.data,
            bound2,
        ),
    ensures
        merge_trees_spec(store, merger, side1, base, side2, bound1) == merge_trees_spec(
            store,
            merger,
            side1,
            base,
            side2,
            bound2,
        ),
{
    lemma_paired_within(base.data, side2.data, bound1);
    lemma_paired_within(base.data, side2.data, bound2);
    lemma_merge_cells_any_bound(
        store,
        merger,
        base.dir,
        side1.data,
        paired(base.data, side2.data),
        0,
        side1.data,
        bound1,
        bound2,
    );
}

/// In a store that keeps its promises, three trees under one name are merged
/// as the merge of trees merges the three sub-trees: the name gets the merged
/// tree, or no value where the merged tree is the empty one.
pub proof fn lemma_merge_cell_of_trees<M: FileMerger>(
    store: StoreView,
    merger: M,
    dir: Seq<Seq<u8>>,
    name: Seq<u8>,
    base: Seq<u8>,
    side1: Seq<u8>,
    side2: Seq<u8>,
)
    requires
        store.wf(),
        store.tree(base) is Some,
        store.tree(side1) is Some,
        store.tree(side2) is Some,
    ensures
        ({
            let sub = merge_trees_spec(
                store,
                merger,
                TreeView { dir: dir.push(name), id: side1, data: store.tree(side1)->0 },
                TreeView { dir: dir.push(name), id: base, data: store.tree(base)->0 },
                TreeView { dir: dir.push(name), id: side2, data: store.tree(side2)->0 },
                top_bound(),
            );
            merge_cell(
                store,
                merger,
                dir,
                name,
                Some(ValueView::Tree(base)),
                Some(ValueView::Tree(side1)),
                Some(ValueView::Tree(side2)),
                top_bound(),
            ) == (
                sub.0,
                match sub.1 {
                    Err(e) => Err::<Option<ValueView>, StoreError>(e),
                    Ok(id) => Ok(
                        if id == store.empty_tree_id() {
                            None
                        } else {
                            Some(ValueView::Tree(id))
                        },
                    ),
                },
            )
        }),
{
    let sub_bound = max3(
        object_index(side1)->0,
        object_index(base)->0,
        object_index(side2)->0,
    ) as nat;
    lemma_index_of_id(base);
    lemma_index_of_id(side1);
    lemma_index_of_id(side2);
    lemma_stored_within(store, base, sub_bound);
    lemma_stored_within(store, side1, sub_bound);
    lemma_stored_within(store, side2, sub_bound);
    lemma_within_top(store.tree(base)->0);
    lemma_within_top(store.tree(side1)->0);
    lemma_within_top(store.tree(side2)->0);
    lemma_merge_trees_any_bound(
        store,
        merger,
        TreeView { dir: dir.push(name), id: side1, data: store.tree(side1)->0 },
        TreeView { dir: dir.push(name), id: base, data: store.tree(base)->0 },
        TreeView { dir: dir.push(name), id: side2, data: store.tree(side2)->0 },
        sub_bound,
        top_bound(),
    );
}

} // verus!
