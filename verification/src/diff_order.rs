//! The order in which the walk over the differences between two trees
//! yields what stands at a path and what stands below it.

use vstd::prelude::*;
use crate::diff::{
    diff_of, is_tree, leaf_diff, leaf_event, max2, side_tree, walk_cell, walk_cells, PathDiff,
};
use crate::listing::names_ascending;
use crate::matchers::Matcher;
use crate::paired::{cells_ascending, lemma_paired_from_ascending, paired, Cell};
use crate::repo_path::{is_strictly_under, lemma_name_lt_irreflexive, name_lt};
use crate::store::{lemma_index_of_id, lemma_stored_within, top_bound, StoreView};
use crate::tree::TreeView;
use crate::values::ValueView;

verus! {

/// A value that was added stands behind every difference below its path, and
/// a value that was removed stands before every difference below its path.
pub open spec fn replacement_ordered(items: Seq<PathDiff>) -> bool {
    forall|i: int, j: int|
        0 <= i < items.len() && 0 <= j < items.len() ==> {
            &&& (#[trigger] items[j]).1 is Added && is_strictly_under(
                (#[trigger] items[i]).0,
                items[j].0,
            ) ==> i < j
            &&& items[i].1 is Removed && is_strictly_under(items[j].0, items[i].0) ==> i < j
        }
}

/// No two items stand at the same path.
pub open spec fn paths_distinct(items: Seq<PathDiff>) -> bool {
    forall|i: int, j: int|
        0 <= i < items.len() && 0 <= j < items.len() && i != j ==> (#[trigger] items[i]).0 != (
        #[trigger] items[j]).0
}

/// The path leads below `dir` through the name of the difference at position `k`.
pub open spec fn through_cell(path: Seq<Seq<u8>>, dir: Seq<Seq<u8>>, cells: Seq<Cell>, k: int) -> bool {
    &&& is_strictly_under(path, dir)
    &&& 0 <= k < cells.len()
    &&& path[dir.len() as int] == cells[k].0
}

/// The path leads below `dir` through the name of one of the differences.
pub open spec fn through_cells(path: Seq<Seq<u8>>, dir: Seq<Seq<u8>>, cells: Seq<Cell>) -> bool {
    exists|k: int| through_cell(path, dir, cells, k)
}

/// The path leads below `dir` through the name `name`.
pub open spec fn through_name(path: Seq<Seq<u8>>, dir: Seq<Seq<u8>>, name: Seq<u8>) -> bool {
    &&& is_strictly_under(path, dir)
    &&& path[dir.len() as int] == name
}

/// The entries of one side of a difference are ascending by name.
pub proof fn lemma_side_ascending(store: StoreView, value: Option<ValueView>, bound: nat)
    requires
        store.wf(),
        side_tree(store, value, bound) is Some,
    ensures
        ({
            let side = side_tree(store, value, bound)->0;
            names_ascending(side.0)
        }),
{
    match value {
        Some(ValueView::Tree(id)) => {
            lemma_index_of_id(id);
            lemma_stored_within(store, id, bound);
        },
        _ => {},
    }
}

/// Of the walk over ascending differences of one directory: the order of
/// what stands at a path and what stands below it, that no path is yielded
/// twice, and that every path leads through the name of a difference.
pub proof fn lemma_cells_ordered<M: Matcher>(
    store: StoreView,
    matcher: M,
    dir: Seq<Seq<u8>>,
    cells: Seq<Cell>,
    bound: nat,
)
    requires
        store.wf(),
        cells_ascending(cells),
    ensures
        replacement_ordered(walk_cells(store, matcher, dir, cells, bound).items),
        paths_distinct(walk_cells(store, matcher, dir, cells, bound).items),
        forall|n: int|
            0 <= n < walk_cells(store, matcher, dir, cells, bound).items.len() ==> through_cells(
                (#[trigger] walk_cells(store, matcher, dir, cells, bound).items[n]).0,
                dir,
                cells,
            ),
    decreases bound, 1int, cells.len(),
{
    let w = walk_cells(store, matcher, dir, cells, bound);
    if cells.len() > 0 {
        let head = walk_cell(store, matcher, dir, cells[0], bound);
        let rest = cells.drop_first();
        let tail = walk_cells(store, matcher, dir, rest, bound);
        assert forall|a: int, b: int| 0 <= a < b < rest.len() implies name_lt(
            #[trigger] rest[a].0,
            #[trigger] rest[b].0,
        ) by {
            assert(rest[a] == cells[a + 1]);
            assert(rest[b] == cells[b + 1]);
        }
        lemma_cell_ordered(store, matcher, dir, cells[0], bound);
        lemma_cells_ordered(store, matcher, dir, rest, bound);
        if head.error is None {
            assert(w.items == head.items + tail.items);
            let split = head.items.len() as int;
            assert forall|n: int| 0 <= n < w.items.len() implies through_cells(
                (#[trigger] w.items[n]).0,
                dir,
                cells,
            ) by {
                if n < split {
                    assert(w.items[n] == head.items[n]);
                    assert(through_cell(w.items[n].0, dir, cells, 0));
                } else {
                    assert(w.items[n] == tail.items[n - split]);
                    let p = tail.items[n - split].0;
                    assert(through_cells(p, dir, rest));
                    let k = choose|k: int| through_cell(p, dir, rest, k);
                    assert(rest[k] == cells[k + 1]);
                    assert(through_cell(w.items[n].0, dir, cells, k + 1));
                }
            }
            assert forall|i: int, j: int|
                0 <= i < w.items.len() && 0 <= j < w.items.len() implies {
                &&& (#[trigger] w.items[j]).1 is Added && is_strictly_under(
                    (#[trigger] w.items[i]).0,
                    w.items[j].0,
                ) ==> i < j
                &&& w.items[i].1 is Removed && is_strictly_under(w.items[j].0, w.items[i].0) ==> i
                    < j
                &&& i != j ==> w.items[i].0 != w.items[j].0
            } by {
                if i < split && j < split {
                    assert(w.items[i] == head.items[i]);
                    assert(w.items[j] == head.items[j]);
                } else if i >= split && j >= split {
                    assert(w.items[i] == tail.items[i - split]);
                    assert(w.items[j] == tail.items[j - split]);
                } else {
                    // One item comes from the first difference and one from a
                    // later one: their paths part ways right below `dir`.
                    let (x, y) = if i < split {
                        (i, j)
                    } else {
                        (j, i)
                    };
                    assert(w.items[x] == head.items[x]);
                    assert(w.items[y] == tail.items[y - split]);
                    assert(through_name(head.items[x].0, dir, cells[0].0));
                    let p = tail.items[y - split].0;
                    assert(through_cells(p, dir, rest));
                    let k = choose|k: int| through_cell(p, dir, rest, k);
                    assert(rest[k] == cells[k + 1]);
                    assert(name_lt(cells[0].0, cells[k + 1].0));
                    lemma_name_lt_irreflexive(cells[0].0);
                    let px = w.items[x].0;
                    let py = w.items[y].0;
                    assert(px[dir.len() as int] != py[dir.len() as int]);
                    assert(!is_strictly_under(px, py));
                    assert(!is_strictly_under(py, px));
                }
            }
        } else {
            assert(w == head);
            assert forall|n: int| 0 <= n < w.items.len() implies through_cells(
                (#[trigger] w.items[n]).0,
                dir,
                cells,
            ) by {
                assert(through_cell(w.items[n].0, dir, cells, 0));
            }
        }
    }
}

/// Of the walk over one difference: the order of what stands at a path and
/// what stands below it, that no path is yielded twice, and that every path
/// leads through the name of the difference.
pub proof fn lemma_cell_ordered<M: Matcher>(
    store: StoreView,
    matcher: M,
    dir: Seq<Seq<u8>>,
    cell: Cell,
    bound: nat,
)
    requires
        store.wf(),
    ensures
        replacement_ordered(walk_cell(store, matcher, dir, cell, bound).items),
        paths_distinct(walk_cell(store, matcher, dir, cell, bound).items),
        forall|n: int|
            0 <= n < walk_cell(store, matcher, dir, cell, bound).items.len() ==> through_name(
                (#[trigger] walk_cell(store, matcher, dir, cell, bound).items[n]).0,
                dir,
                cell.0,
            ),
    decreases bound, 0int, 0nat,
{
    let path = dir.push(cell.0);
    let w = walk_cell(store, matcher, dir, cell, bound);
    if is_tree(cell.1) || is_tree(cell.2) {
        let before = side_tree(store, cell.1, bound);
        let after = side_tree(store, cell.2, bound);
        if before is Some && after is Some {
            let side1 = before->0;
            let side2 = after->0;
            let sub_cells = paired(side1.0, side2.0);
            let below = walk_cells(store, matcher, path, sub_cells, max2(side1.1, side2.1));
            lemma_side_ascending(store, cell.1, bound);
            lemma_side_ascending(store, cell.2, bound);
            lemma_paired_from_ascending(side1.0, side2.0, 0, 0);
            lemma_cells_ordered(store, matcher, path, sub_cells, max2(side1.1, side2.1));
            // What is yielded below stands strictly below `path`.
            assert forall|n: int| 0 <= n < below.items.len() implies is_strictly_under(
                (#[trigger] below.items[n]).0,
                path,
            ) && through_name(below.items[n].0, dir, cell.0) by {
                let p = below.items[n].0;
                assert(through_cells(p, path, sub_cells));
                assert(p[dir.len() as int] == path[dir.len() as int]);
                assert forall|m: int| 0 <= m < dir.len() implies p[m] == dir[m] by {
                    assert(p[m] == path[m]);
                }
            }
            let removed = leaf_event(matcher, path, leaf_diff(cell.1, None));
            let added = leaf_event(matcher, path, leaf_diff(None, cell.2));
            let split = if !is_tree(cell.1) {
                removed.items.len() as int
            } else {
                0
            };
            assert forall|n: int| 0 <= n < w.items.len() implies through_name(
                (#[trigger] w.items[n]).0,
                dir,
                cell.0,
            ) && (split <= n < split + below.items.len() ==> w.items[n] == below.items[n - split])
                && (!(split <= n < split + below.items.len()) ==> w.items[n].0 == path) by {
                if split <= n < split + below.items.len() {
                    assert(w.items[n] == below.items[n - split]);
                }
            }
            assert forall|i: int, j: int|
                0 <= i < w.items.len() && 0 <= j < w.items.len() implies {
                &&& (#[trigger] w.items[j]).1 is Added && is_strictly_under(
                    (#[trigger] w.items[i]).0,
                    w.items[j].0,
                ) ==> i < j
                &&& w.items[i].1 is Removed && is_strictly_under(w.items[j].0, w.items[i].0) ==> i
                    < j
                &&& i != j ==> w.items[i].0 != w.items[j].0
            } by {
                assert(w.items.len() <= below.items.len() + 1);
                let i_below = split <= i < split + below.items.len();
                let j_below = split <= j < split + below.items.len();
                if i_below && j_below {
                    assert(w.items[i] == below.items[i - split]);
                    assert(w.items[j] == below.items[j - split]);
                } else if i_below {
                    assert(w.items[i] == below.items[i - split]);
                    assert(w.items[j].0 == path);
                } else if j_below {
                    assert(w.items[j] == below.items[j - split]);
                    assert(w.items[i].0 == path);
                } else {
                    assert(w.items[i].0 == path);
                    assert(w.items[j].0 == path);
                }
            }
        }
    } else {
        assert forall|n: int| 0 <= n < w.items.len() implies through_name(
            (#[trigger] w.items[n]).0,
            dir,
            cell.0,
        ) by {
            assert(w.items[n].0 == path);
        }
    }
}

/// In the walk over the differences between two trees, a value that was
/// added stands behind every difference below its path, and a value that was
/// removed stands before every difference below its path.  So where a file
/// takes the place of a directory, what the directory held is removed first,
/// and where a directory takes the place of a file, the file is removed
/// before anything is added below it.  No path is yielded twice.
pub proof fn lemma_replacement_order<M: Matcher>(
    store: StoreView,
    matcher: M,
    tree1: TreeView,
    tree2: TreeView,
)
    requires
        store.wf(),
        names_ascending(tree1.data),
        names_ascending(tree2.data),
    ensures
        replacement_ordered(diff_of(store, matcher, tree1, tree2).items),
        paths_distinct(diff_of(store, matcher, tree1, tree2).items),
{
    lemma_paired_from_ascending(tree1.data, tree2.data, 0, 0);
    lemma_cells_ordered(
        store,
        matcher,
        tree1.dir,
        paired(tree1.data, tree2.data),
        top_bound(),
    );
}

} // verus!
