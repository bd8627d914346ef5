//! What a merged tree holds under a name on which the two sides do not collide.

use vstd::prelude::*;
use crate::files::FileMerger;
use crate::listing::{
    lemma_lookup_put, lemma_with_entry_ascending, lemma_without_entry_ascending, lookup,
    names_ascending, put, Listing,
};
use crate::merge::{merge_cell, merge_cells, merge_trees_spec};
use crate::paired::{cell_of, cells_ascending, lemma_paired_lookup, paired, Cell};
use crate::repo_path::{lemma_name_lt_irreflexive, name_lt};
use crate::seqs::{first_index, lemma_first_index};
use crate::store::{lemma_id_of_index, top_bound, StoreView};
use crate::tree::TreeView;
use crate::values::ValueView;

verus! {

/// The first difference at position `i` or later that has the name, if there is one.
pub open spec fn named_from(cells: Seq<Cell>, name: Seq<u8>, i: int) -> Option<Cell>
    decreases cells.len() - i,
{
    if i < 0 || i >= cells.len() {
        None
    } else if cells[i].0 == name {
        Some(cells[i])
    } else {
        named_from(cells, name, i + 1)
    }
}

proof fn lemma_named_once(cells: Seq<Cell>, name: Seq<u8>, i: int, k: int)
    requires
        cells_ascending(cells),
        0 <= k < i,
        k < cells.len(),
        cells[k].0 == name,
    ensures
        named_from(cells, name, i) is None,
    decreases cells.len() - i,
{
    if i < cells.len() {
        assert(name_lt(cells[k].0, cells[i].0));
        lemma_name_lt_irreflexive(name);
        lemma_named_once(cells, name, i + 1, k);
    }
}

proof fn lemma_named_found(cells: Seq<Cell>, name: Seq<u8>, i: int)
    requires
        0 <= i,
    ensures
        match named_from(cells, name, i) {
            Some(c) => c.0 == name && cells.contains(c),
            None => forall|n: int| i <= n < cells.len() ==> (#[trigger] cells[n]).0 != name,
        },
    decreases cells.len() - i,
{
    if i < cells.len() {
        if cells[i].0 != name {
            lemma_named_found(cells, name, i + 1);
        }
    }
}

/// What the listing holds under `name` once the differences at positions `i`
/// and later are taken in, where the name does not need the merge of three
/// values: what came before where no difference has the name or the sides
/// agree, and what side 2 holds where side 1 holds what the base holds.
proof fn lemma_merge_cells_name<M: FileMerger>(
    store: StoreView,
    merger: M,
    dir: Seq<Seq<u8>>,
    side1: Listing,
    cells: Seq<Cell>,
    i: int,
    acc: Listing,
    bound: nat,
    name: Seq<u8>,
)
    requires
        names_ascending(acc),
        cells_ascending(cells),
        0 <= i,
        merge_cells(store, merger, dir, side1, cells, i, acc, bound).1 is Ok,
    ensures
        ({
            let merged = merge_cells(store, merger, dir, side1, cells, i, acc, bound).1->Ok_0;
            &&& names_ascending(merged)
            &&& match named_from(cells, name, i) {
                None => lookup(merged, name) == lookup(acc, name),
                Some(c) => {
                    &&& lookup(side1, name) == c.1 ==> lookup(merged, name) == c.2
                    &&& lookup(side1, name) != c.1 && lookup(side1, name) == c.2 ==> lookup(
                        merged,
                        name,
                    ) == lookup(acc, name)
                },
            }
        }),
    decreases cells.len() - i,
{
    if i < cells.len() {
        let cell = cells[i];
        let maybe_side1 = lookup(side1, cell.0);
        let step = if maybe_side1 == cell.1 {
            (store, put(acc, cell.0, cell.2))
        } else if maybe_side1 == cell.2 {
            (store, acc)
        } else {
            let one = merge_cell(store, merger, dir, cell.0, cell.1, maybe_side1, cell.2, bound);
            (one.0, put(acc, cell.0, one.1->Ok_0))
        };
        let taken: Option<ValueView> = if maybe_side1 == cell.1 {
            cell.2
        } else if maybe_side1 == cell.2 {
            lookup(acc, cell.0)
        } else {
            merge_cell(store, merger, dir, cell.0, cell.1, maybe_side1, cell.2, bound).1->Ok_0
        };
        if maybe_side1 == cell.1 || maybe_side1 != cell.2 {
            match taken {
                Some(v) => lemma_with_entry_ascending(acc, cell.0, v),
                None => lemma_without_entry_ascending(acc, cell.0),
            }
            lemma_lookup_put(acc, cell.0, taken, name);
        }
        lemma_merge_cells_name(step.0, merger, dir, side1, cells, i + 1, step.1, bound, name);
        if cell.0 == name {
            lemma_named_once(cells, name, i + 1, i);
        }
    }
}

/// Where three trees are merged name by name and the merge ends well, the
/// merged tree is in the store, and under every name on which the sides do
/// not collide it holds what the structural merge asks for: what side 2
/// holds where side 1 holds what the base holds, and what side 1 holds where
/// side 2 holds what the base holds or what side 1 holds.
///
/// This is stated of trees with three different identifiers, and of a store
/// whose trees can all be named by identifiers.
pub proof fn lemma_merge_by_name<M: FileMerger>(
    store: StoreView,
    merger: M,
    side1: TreeView,
    base: TreeView,
    side2: TreeView,
    name: Seq<u8>,
)
    requires
        names_ascending(side1.data),
        names_ascending(base.data),
        names_ascending(side2.data),
        base.id != side1.id,
        base.id != side2.id,
        side1.id != side2.id,
        merge_trees_spec(store, merger, side1, base, side2, top_bound()).1 is Ok,
        merge_trees_spec(store, merger, side1, base, side2, top_bound()).0.trees.len()
            <= top_bound(),
    ensures
        ({
            let out = merge_trees_spec(store, merger, side1, base, side2, top_bound());
            let merged = out.0.tree(out.1->Ok_0);
            &&& merged is Some
            &&& names_ascending(merged->0)
            &&& lookup(side1.data, name) == lookup(base.data, name) ==> lookup(merged->0, name)
                == lookup(side2.data, name)
            &&& lookup(side2.data, name) == lookup(base.data, name) ==> lookup(merged->0, name)
                == lookup(side1.data, name)
            &&& lookup(side1.data, name) == lookup(side2.data, name) ==> lookup(merged->0, name)
                == lookup(side1.data, name)
        }),
{
    let cells = paired(base.data, side2.data);
    let folded = merge_cells(store, merger, base.dir, side1.data, cells, 0, side1.data, top_bound());
    lemma_paired_lookup(base.data, side2.data, name);
    lemma_merge_cells_name(
        store,
        merger,
        base.dir,
        side1.data,
        cells,
        0,
        side1.data,
        top_bound(),
        name,
    );
    lemma_named_found(cells, name, 0);
    let new_tree = folded.1->Ok_0;
    let out = folded.0.write_tree(new_tree);
    lemma_first_index(folded.0.trees, new_tree);
    lemma_id_of_index(first_index(folded.0.trees, new_tree));
    match named_from(cells, name, 0) {
        Some(c) => {
            let n = choose|n: int| 0 <= n < cells.len() && cells[n] == c;
            assert(cells[n] == cell_of(base.data, side2.data, cells[n].0));
        },
        None => {
            if cells.contains(cell_of(base.data, side2.data, name)) {
                let n = choose|n: int|
                    0 <= n < cells.len() && cells[n] == cell_of(base.data, side2.data, name);
                assert(cells[n].0 == name);
            }
        },
    }
}

} // verus!
