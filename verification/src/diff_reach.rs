//! What the walk over the differences between two trees yields, held
//! against what stands at each path in the one tree and in the other.

use vstd::prelude::*;
use crate::bounds::lemma_lookup_within;
use crate::diff::{
    diff_of, is_tree, leaf_diff, leaf_event, max2, side_tree, walk_cell, walk_cells, Diff,
    PathDiff,
};
use crate::diff_order::{
    lemma_cell_ordered, lemma_cells_ordered, lemma_replacement_order, lemma_side_ascending,
    through_cells, through_name,
};
use crate::entries_reach::value_below;
use crate::listing::{lemma_lookup_absent, lookup, names_ascending, Listing};
use crate::matchers::Matcher;
use crate::paired::{cell_of, lemma_paired_from_ascending, lemma_paired_lookup, paired, Cell};
use crate::repo_path::is_strictly_under;
use crate::store::{
    lemma_index_of_id, lemma_stored_within, lemma_within_top, refs_within, top_bound, StoreView,
};
use crate::tree::TreeView;
use crate::values::ValueView;
use crate::walk::Walk;

verus! {

/// The value that stands at the path `rel` below a directory with the
/// entries `data` and is no tree.
pub open spec fn leaf_below(store: StoreView, data: Listing, rel: Seq<Seq<u8>>) -> Option<
    ValueView,
> {
    match value_below(store, data, rel) {
        Some(v) => if v is Tree {
            None
        } else {
            Some(v)
        },
        None => None,
    }
}

/// Whether `diff` is the difference that the path `rel` makes between two
/// directories that stand at `dir`: the matcher accepts the full path, the
/// values that stand there and are no trees are different, and `diff` says
/// how.
pub open spec fn differs_at<M: Matcher>(
    store: StoreView,
    matcher: M,
    dir: Seq<Seq<u8>>,
    d1: Listing,
    d2: Listing,
    rel: Seq<Seq<u8>>,
    diff: Diff<ValueView>,
) -> bool {
    &&& matcher.matches_spec(dir + rel)
    &&& leaf_below(store, d1, rel) != leaf_below(store, d2, rel)
    &&& leaf_diff(leaf_below(store, d1, rel), leaf_below(store, d2, rel)) == Some(diff)
}

proof fn lemma_value_below_nothing(store: StoreView, rel: Seq<Seq<u8>>)
    ensures
        value_below(store, Seq::empty(), rel) is None,
{
    if rel.len() > 0 {
        lemma_lookup_absent(Seq::empty(), rel[0]);
    }
}

/// What two walks in a row yield is what the first yields and what the
/// second yields, where the first ends well.
proof fn lemma_in_row_contains<T>(first: Walk<T>, second: Walk<T>, item: T)
    requires
        first.error is None,
    ensures
        first.followed_by(second).items.contains(item) <==> first.items.contains(item)
            || second.items.contains(item),
{
    let both = first.followed_by(second).items;
    assert(both == first.items + second.items);
    if first.items.contains(item) {
        let n = choose|n: int| 0 <= n < first.items.len() && first.items[n] == item;
        assert(both[n] == item);
    }
    if second.items.contains(item) {
        let n = choose|n: int| 0 <= n < second.items.len() && second.items[n] == item;
        assert(both[first.items.len() + n] == item);
    }
    if both.contains(item) {
        let n = choose|n: int| 0 <= n < both.len() && both[n] == item;
        if n < first.items.len() {
            assert(first.items[n] == item);
        } else {
            assert(second.items[n - first.items.len()] == item);
        }
    }
}

/// What the walk yields for one difference, the walk over all of them
/// yields, where it ends well; and then the walk for that difference ends well.
proof fn lemma_cell_in_cells<M: Matcher>(
    store: StoreView,
    matcher: M,
    dir: Seq<Seq<u8>>,
    cells: Seq<Cell>,
    k: int,
    bound: nat,
)
    requires
        0 <= k < cells.len(),
        walk_cells(store, matcher, dir, cells, bound).error is None,
    ensures
        walk_cell(store, matcher, dir, cells[k], bound).error is None,
        forall|item: PathDiff|
            walk_cell(store, matcher, dir, cells[k], bound).items.contains(item)
                ==> walk_cells(store, matcher, dir, cells, bound).items.contains(item),
    decreases k,
{
    let head = walk_cell(store, matcher, dir, cells[0], bound);
    let rest = cells.drop_first();
    let tail = walk_cells(store, matcher, dir, rest, bound);
    assert(walk_cells(store, matcher, dir, cells, bound) == head.followed_by(tail));
    if k > 0 {
        assert(rest[k - 1] == cells[k]);
        lemma_cell_in_cells(store, matcher, dir, rest, k - 1, bound);
    }
    assert forall|item: PathDiff|
        walk_cell(store, matcher, dir, cells[k], bound).items.contains(
            item,
        ) implies walk_cells(store, matcher, dir, cells, bound).items.contains(item) by {
        lemma_in_row_contains(head, tail, item);
    }
}

/// What the walk over differences yields, it yields for one of them.
proof fn lemma_item_of_some_cell<M: Matcher>(
    store: StoreView,
    matcher: M,
    dir: Seq<Seq<u8>>,
    cells: Seq<Cell>,
    bound: nat,
    item: PathDiff,
) -> (k: int)
    requires
        walk_cells(store, matcher, dir, cells, bound).items.contains(item),
    ensures
        0 <= k < cells.len(),
        walk_cell(store, matcher, dir, cells[k], bound).items.contains(item),
    decreases cells.len(),
{
    let head = walk_cell(store, matcher, dir, cells[0], bound);
    let rest = cells.drop_first();
    let tail = walk_cells(store, matcher, dir, rest, bound);
    assert(cells.len() > 0);
    assert(walk_cells(store, matcher, dir, cells, bound) == head.followed_by(tail));
    if head.items.contains(item) {
        0
    } else {
        lemma_in_row_contains(head, tail, item);
        let k = lemma_item_of_some_cell(store, matcher, dir, rest, bound, item);
        assert(rest[k] == cells[k + 1]);
        k + 1
    }
}

/// What the walk yields at a path for the difference that the first name of
/// the path makes.
proof fn lemma_cell_exact<M: Matcher>(
    store: StoreView,
    matcher: M,
    dir: Seq<Seq<u8>>,
    d1: Listing,
    d2: Listing,
    bound: nat,
    rel: Seq<Seq<u8>>,
    diff: Diff<ValueView>,
)
    requires
        store.wf(),
        names_ascending(d1),
        names_ascending(d2),
        refs_within(d1, bound),
        refs_within(d2, bound),
        rel.len() > 0,
        lookup(d1, rel[0]) != lookup(d2, rel[0]),
        walk_cell(store, matcher, dir, cell_of(d1, d2, rel[0]), bound).error is None,
    ensures
        walk_cell(store, matcher, dir, cell_of(d1, d2, rel[0]), bound).items.contains(
            (dir + rel, diff),
        ) <==> differs_at(store, matcher, dir, d1, d2, rel, diff),
    decreases rel.len(), 0int,
{
    let name = rel[0];
    let a = lookup(d1, name);
    let b = lookup(d2, name);
    let cell = cell_of(d1, d2, name);
    let path = dir.push(name);
    let item = (dir + rel, diff);
    let w = walk_cell(store, matcher, dir, cell, bound);
    lemma_lookup_within(d1, name, bound);
    lemma_lookup_within(d2, name, bound);
    if rel.len() == 1 {
        assert(dir + rel =~= path);
    } else {
        assert((dir + rel).len() != path.len());
    }
    if is_tree(a) || is_tree(b) {
        let side1 = side_tree(store, a, bound)->0;
        let side2 = side_tree(store, b, bound)->0;
        let sub_bound = max2(side1.1, side2.1);
        let sub_cells = paired(side1.0, side2.0);
        let below = walk_cells(store, matcher, path, sub_cells, sub_bound);
        let removed = leaf_event(matcher, path, leaf_diff(a, None));
        let added = leaf_event(matcher, path, leaf_diff(None, b));
        lemma_side_ascending(store, a, bound);
        lemma_side_ascending(store, b, bound);
        lemma_paired_from_ascending(side1.0, side2.0, 0, 0);
        lemma_cells_ordered(store, matcher, path, sub_cells, sub_bound);
        if a is Some && is_tree(a) {
            lemma_index_of_id(a->0->Tree_0);
            lemma_stored_within(store, a->0->Tree_0, sub_bound);
        }
        if b is Some && is_tree(b) {
            lemma_index_of_id(b->0->Tree_0);
            lemma_stored_within(store, b->0->Tree_0, sub_bound);
        }
        lemma_value_below_nothing(store, rel.drop_first());
        // Whatever is yielded below stands strictly below `path`.
        if below.items.contains(item) {
            let n = choose|n: int| 0 <= n < below.items.len() && below.items[n] == item;
            assert(through_cells(below.items[n].0, path, sub_cells));
        }
        if rel.len() == 1 {
            assert(!below.items.contains(item));
        } else {
            assert(path + rel.drop_first() =~= dir + rel);
            lemma_cells_exact(
                store,
                matcher,
                path,
                side1.0,
                side2.0,
                sub_bound,
                rel.drop_first(),
                diff,
            );
        }
        if removed.items.contains(item) {
            let n = choose|n: int| 0 <= n < removed.items.len() && removed.items[n] == item;
            assert(removed.items[n].0 == path);
        }
        if added.items.contains(item) {
            let n = choose|n: int| 0 <= n < added.items.len() && added.items[n] == item;
            assert(added.items[n].0 == path);
        }
        if removed.items.len() > 0 {
            assert(removed.items[0] == (path, leaf_diff(a, None)->0));
        }
        if added.items.len() > 0 {
            assert(added.items[0] == (path, leaf_diff(None, b)->0));
        }
        if !is_tree(a) {
            lemma_in_row_contains(removed, below, item);
        } else if !is_tree(b) {
            lemma_in_row_contains(below, added, item);
        }
    } else {
        if w.items.contains(item) {
            let n = choose|n: int| 0 <= n < w.items.len() && w.items[n] == item;
            assert(w.items[n].0 == path);
        }
        if w.items.len() > 0 {
            assert(w.items[0] == (path, leaf_diff(a, b)->0));
        }
    }
}

/// What the walk over the differences between two directories yields at a path.
proof fn lemma_cells_exact<M: Matcher>(
    store: StoreView,
    matcher: M,
    dir: Seq<Seq<u8>>,
    d1: Listing,
    d2: Listing,
    bound: nat,
    rel: Seq<Seq<u8>>,
    diff: Diff<ValueView>,
)
    requires
        store.wf(),
        names_ascending(d1),
        names_ascending(d2),
        refs_within(d1, bound),
        refs_within(d2, bound),
        rel.len() > 0,
        walk_cells(store, matcher, dir, paired(d1, d2), bound).error is None,
    ensures
        walk_cells(store, matcher, dir, paired(d1, d2), bound).items.contains((dir + rel, diff))
            <==> differs_at(store, matcher, dir, d1, d2, rel, diff),
    decreases rel.len(), 1int,
{
    let name = rel[0];
    let cells = paired(d1, d2);
    let w = walk_cells(store, matcher, dir, cells, bound);
    let item = (dir + rel, diff);
    let cell = cell_of(d1, d2, name);
    lemma_paired_lookup(d1, d2, name);
    if lookup(d1, name) != lookup(d2, name) {
        let k = choose|k: int| 0 <= k < cells.len() && cells[k] == cell;
        lemma_cell_in_cells(store, matcher, dir, cells, k, bound);
        lemma_cell_exact(store, matcher, dir, d1, d2, bound, rel, diff);
    }
    if w.items.contains(item) {
        let k = lemma_item_of_some_cell(store, matcher, dir, cells, bound, item);
        lemma_cell_ordered(store, matcher, dir, cells[k], bound);
        let one = walk_cell(store, matcher, dir, cells[k], bound);
        let n = choose|n: int| 0 <= n < one.items.len() && one.items[n] == item;
        assert(through_name(one.items[n].0, dir, cells[k].0));
        assert((dir + rel)[dir.len() as int] == name);
        assert(cells[k] == cell_of(d1, d2, cells[k].0));
        assert(cells.contains(cell));
    }
}

/// Where the walk over the differences between two trees of one directory
/// ends well, it yields exactly the differences that the paths below that
/// directory make: a path and a difference are yielded if and only if the
/// matcher accepts the path, the two trees hold different things there that
/// are no trees, or one of them holds nothing there that is no tree, and the
/// difference says which.  Together with the order of the walk: where a
/// file takes the place of a directory, the file is yielded as added, once,
/// behind what the directory held; and where a directory takes the place of
/// a file, the file is yielded as removed, once, before what the directory
/// holds.
pub proof fn lemma_diff_exact<M: Matcher>(
    store: StoreView,
    matcher: M,
    tree1: TreeView,
    tree2: TreeView,
    rel: Seq<Seq<u8>>,
    diff: Diff<ValueView>,
)
    requires
        store.wf(),
        names_ascending(tree1.data),
        names_ascending(tree2.data),
        diff_of(store, matcher, tree1, tree2).error is None,
        rel.len() > 0,
    ensures
        diff_of(store, matcher, tree1, tree2).items.contains((tree1.dir + rel, diff))
            <==> differs_at(store, matcher, tree1.dir, tree1.data, tree2.data, rel, diff),
{
    lemma_within_top(tree1.data);
    lemma_within_top(tree2.data);
    lemma_cells_exact(store, matcher, tree1.dir, tree1.data, tree2.data, top_bound(), rel, diff);
}

/// Where a value that is no tree takes the place of a directory and the
/// matcher accepts the path, the walk over the differences, where it ends
/// well, yields the value as added at that path and yields nothing else
/// there, and whatever it yields below the path it yields before.
pub proof fn lemma_file_replaces_directory<M: Matcher>(
    store: StoreView,
    matcher: M,
    tree1: TreeView,
    tree2: TreeView,
    rel: Seq<Seq<u8>>,
    value: ValueView,
) -> (at: int)
    requires
        store.wf(),
        names_ascending(tree1.data),
        names_ascending(tree2.data),
        diff_of(store, matcher, tree1, tree2).error is None,
        matcher.matches_spec(tree1.dir + rel),
        value_below(store, tree1.data, rel) is Some,
        value_below(store, tree1.data, rel)->0 is Tree,
        value_below(store, tree2.data, rel) == Some(value),
        !(value is Tree),
    ensures
        0 <= at < diff_of(store, matcher, tree1, tree2).items.len(),
        diff_of(store, matcher, tree1, tree2).items[at] == (tree1.dir + rel, Diff::Added(value)),
        forall|n: int|
            0 <= n < diff_of(store, matcher, tree1, tree2).items.len() && n != at ==> (
            #[trigger] diff_of(store, matcher, tree1, tree2).items[n]).0 != tree1.dir + rel,
        forall|n: int|
            0 <= n < diff_of(store, matcher, tree1, tree2).items.len() && is_strictly_under(
                (#[trigger] diff_of(store, matcher, tree1, tree2).items[n]).0,
                tree1.dir + rel,
            ) ==> n < at,
{
    let items = diff_of(store, matcher, tree1, tree2).items;
    let item = (tree1.dir + rel, Diff::Added(value));
    lemma_diff_exact(store, matcher, tree1, tree2, rel, Diff::Added(value));
    lemma_replacement_order(store, matcher, tree1, tree2);
    let at = choose|at: int| 0 <= at < items.len() && items[at] == item;
    assert forall|n: int| 0 <= n < items.len() && n != at implies (#[trigger] items[n]).0
        != tree1.dir + rel by {
        assert(items[n].0 != items[at].0);
    }
    assert forall|n: int|
        0 <= n < items.len() && is_strictly_under(
            (#[trigger] items[n]).0,
            tree1.dir + rel,
        ) implies n < at by {
        assert(items[at].1 is Added);
        assert(is_strictly_under(items[n].0, items[at].0));
    }
    at
}

/// Where a directory takes the place of a value that is no tree and the
/// matcher accepts the path, the walk over the differences, where it ends
/// well, yields the value as removed at that path and yields nothing else
/// there, and whatever it yields below the path it yields behind.
pub proof fn lemma_directory_replaces_file<M: Matcher>(
    store: StoreView,
    matcher: M,
    tree1: TreeView,
    tree2: TreeView,
    rel: Seq<Seq<u8>>,
    value: ValueView,
) -> (at: int)
    requires
        store.wf(),
        names_ascending(tree1.data),
        names_ascending(tree2.data),
        diff_of(store, matcher, tree1, tree2).error is None,
        matcher.matches_spec(tree1.dir + rel),
        value_below(store, tree1.data, rel) == Some(value),
        !(value is Tree),
        value_below(store, tree2.data, rel) is Some,
        value_below(store, tree2.data, rel)->0 is Tree,
    ensures
        0 <= at < diff_of(store, matcher, tree1, tree2).items.len(),
        diff_of(store, matcher, tree1, tree2).items[at] == (
            tree1.dir + rel,
            Diff::Removed(value),
        ),
        forall|n: int|
            0 <= n < diff_of(store, matcher, tree1, tree2).items.len() && n != at ==> (
            #[trigger] diff_of(store, matcher, tree1, tree2).items[n]).0 != tree1.dir + rel,
        forall|n: int|
            0 <= n < diff_of(store, matcher, tree1, tree2).items.len() && is_strictly_under(
                (#[trigger] diff_of(store, matcher, tree1, tree2).items[n]).0,
                tree1.dir + rel,
            ) ==> at < n,
{
    let items = diff_of(store, matcher, tree1, tree2).items;
    let item = (tree1.dir + rel, Diff::Removed(value));
    lemma_diff_exact(store, matcher, tree1, tree2, rel, Diff::Removed(value));
    lemma_replacement_order(store, matcher, tree1, tree2);
    let at = choose|at: int| 0 <= at < items.len() && items[at] == item;
    assert forall|n: int| 0 <= n < items.len() && n != at implies (#[trigger] items[n]).0
        != tree1.dir + rel by {
        assert(items[n].0 != items[at].0);
    }
    assert forall|n: int|
        0 <= n < items.len() && is_strictly_under(
            (#[trigger] items[n]).0,
            tree1.dir + rel,
        ) implies at < n by {
        assert(items[at].1 is Removed);
        assert(is_strictly_under(items[n].0, items[at].0));
    }
    at
}

} // verus!
