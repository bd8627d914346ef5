//! The walk over the differences between two trees, seen from the other side.

use vstd::prelude::*;
use vstd::seq_lib::lemma_multiset_commutative;
use crate::diff::{
    diff_of, is_tree, leaf_diff, leaf_event, max2, side_tree, walk_cell, walk_cells, PathDiff,
};
use crate::matchers::Matcher;
use crate::paired::{lemma_paired_swap, paired, swap_cell, swapped, Cell};
use crate::store::{top_bound, StoreView};
use crate::tree::TreeView;
use crate::values::ValueView;
use crate::walk::Walk;

verus! {

/// The item with its difference seen from the other side.
pub open spec fn reverse_item(item: PathDiff) -> PathDiff {
    (item.0, item.1.reversed())
}

/// The items, each with its difference seen from the other side.
pub open spec fn reversed_items(items: Seq<PathDiff>) -> Seq<PathDiff> {
    Seq::new(items.len(), |n: int| reverse_item(items[n]))
}

/// `back` ends as `forth` does and, where they end well, yields the items of
/// `forth` seen from the other side, each as often, in some order.
pub open spec fn mirrors(back: Walk<PathDiff>, forth: Walk<PathDiff>) -> bool {
    &&& back.error == forth.error
    &&& forth.error is None ==> back.items.to_multiset() == reversed_items(
        forth.items,
    ).to_multiset()
}

proof fn lemma_mirrors_in_row(
    back1: Walk<PathDiff>,
    back2: Walk<PathDiff>,
    forth1: Walk<PathDiff>,
    forth2: Walk<PathDiff>,
)
    requires
        mirrors(back1, forth1),
        mirrors(back2, forth2),
    ensures
        mirrors(back1.followed_by(back2), forth1.followed_by(forth2)),
        mirrors(back2.followed_by(back1), forth1.followed_by(forth2)) || forth1.error is Some
            || forth2.error is Some,
{
    if forth1.error is None && forth2.error is None {
        let forth = forth1.followed_by(forth2);
        assert(reversed_items(forth.items) =~= reversed_items(forth1.items) + reversed_items(
            forth2.items,
        ));
        lemma_multiset_commutative(reversed_items(forth1.items), reversed_items(forth2.items));
        lemma_multiset_commutative(back1.items, back2.items);
        lemma_multiset_commutative(back2.items, back1.items);
        assert(back1.items.to_multiset().add(back2.items.to_multiset()) =~= back2.items.to_multiset().add(
            back1.items.to_multiset(),
        ));
    }
}

proof fn lemma_cells_symmetric<M: Matcher>(
    store: StoreView,
    matcher: M,
    dir: Seq<Seq<u8>>,
    cells: Seq<Cell>,
    bound: nat,
)
    ensures
        mirrors(
            walk_cells(store, matcher, dir, swapped(cells), bound),
            walk_cells(store, matcher, dir, cells, bound),
        ),
    decreases bound, 1int, cells.len(),
{
    if cells.len() > 0 {
        lemma_cell_symmetric(store, matcher, dir, cells[0], bound);
        lemma_cells_symmetric(store, matcher, dir, cells.drop_first(), bound);
        assert(swapped(cells).drop_first() =~= swapped(cells.drop_first()));
        lemma_mirrors_in_row(
            walk_cell(store, matcher, dir, swap_cell(cells[0]), bound),
            walk_cells(store, matcher, dir, swapped(cells.drop_first()), bound),
            walk_cell(store, matcher, dir, cells[0], bound),
            walk_cells(store, matcher, dir, cells.drop_first(), bound),
        );
    } else {
        assert(reversed_items(Seq::<PathDiff>::empty()) =~= Seq::<PathDiff>::empty());
    }
}

proof fn lemma_event_symmetric<M: Matcher>(
    matcher: M,
    path: Seq<Seq<u8>>,
    before: Option<ValueView>,
    after: Option<ValueView>,
)
    ensures
        mirrors(
            leaf_event(matcher, path, leaf_diff(after, before)),
            leaf_event(matcher, path, leaf_diff(before, after)),
        ),
{
    let forth = leaf_event(matcher, path, leaf_diff(before, after));
    let back = leaf_event(matcher, path, leaf_diff(after, before));
    assert(back.items =~= reversed_items(forth.items));
}

proof fn lemma_cell_symmetric<M: Matcher>(
    store: StoreView,
    matcher: M,
    dir: Seq<Seq<u8>>,
    cell: Cell,
    bound: nat,
)
    ensures
        mirrors(
            walk_cell(store, matcher, dir, swap_cell(cell), bound),
            walk_cell(store, matcher, dir, cell, bound),
        ),
    decreases bound, 0int, 0nat,
{
    let path = dir.push(cell.0);
    let forth = walk_cell(store, matcher, dir, cell, bound);
    let back = walk_cell(store, matcher, dir, swap_cell(cell), bound);
    if is_tree(cell.1) || is_tree(cell.2) {
        let before = side_tree(store, cell.1, bound);
        let after = side_tree(store, cell.2, bound);
        if before is Some && after is Some {
            let side1 = before->0;
            let side2 = after->0;
            let sub_bound = max2(side1.1, side2.1);
            let below = walk_cells(store, matcher, path, paired(side1.0, side2.0), sub_bound);
            let below_back = walk_cells(store, matcher, path, paired(side2.0, side1.0), sub_bound);
            lemma_paired_swap(side1.0, side2.0);
            lemma_cells_symmetric(store, matcher, path, paired(side1.0, side2.0), sub_bound);
            assert(mirrors(below_back, below));
            if !is_tree(cell.1) {
                lemma_event_symmetric(matcher, path, cell.1, None);
                lemma_mirrors_in_row(
                    leaf_event(matcher, path, leaf_diff(None, cell.1)),
                    below_back,
                    leaf_event(matcher, path, leaf_diff(cell.1, None)),
                    below,
                );
            } else if !is_tree(cell.2) {
                lemma_event_symmetric(matcher, path, None, cell.2);
                lemma_mirrors_in_row(
                    below_back,
                    leaf_event(matcher, path, leaf_diff(cell.2, None)),
                    below,
                    leaf_event(matcher, path, leaf_diff(None, cell.2)),
                );
            }
        }
    } else {
        lemma_event_symmetric(matcher, path, cell.1, cell.2);
    }
}

/// With two trees of one directory exchanged, the walk over their differences ends as it
/// did, and where it ends well it yields the same differences as often, each
/// seen from the other side: what was added is removed, what was removed is
/// added, and what was modified is modified the other way round.  Nothing is
/// promised of their order.
pub proof fn lemma_diff_symmetric<M: Matcher>(
    store: StoreView,
    matcher: M,
    tree1: TreeView,
    tree2: TreeView,
)
    requires
        tree1.dir == tree2.dir,
    ensures
        diff_of(store, matcher, tree2, tree1).error == diff_of(store, matcher, tree1, tree2).error,
        diff_of(store, matcher, tree1, tree2).error is None ==> diff_of(
            store,
            matcher,
            tree2,
            tree1,
        ).items.to_multiset() == reversed_items(
            diff_of(store, matcher, tree1, tree2).items,
        ).to_multiset(),
{
    lemma_paired_swap(tree1.data, tree2.data);
    lemma_cells_symmetric(
        store,
        matcher,
        tree1.dir,
        paired(tree1.data, tree2.data),
        top_bound(),
    );
}

} // verus!
