//! The order in which the walk over a tree yields its paths.

use vstd::prelude::*;
use crate::entries::{entries_of, walk_entries, walk_entry, PathValue};
use crate::listing::{names_ascending, Listing};
use crate::repo_path::{
    is_strictly_under, lemma_path_lt_at_first_difference, lemma_path_lt_irreflexive, name_lt,
    path_lt,
};
use crate::store::{lemma_stored_within, object_index, top_bound, StoreView};
use crate::tree::TreeView;
use crate::values::ValueView;

verus! {

/// Every item's path is less than the paths of the items behind it.
pub open spec fn paths_ascending(items: Seq<PathValue>) -> bool {
    forall|i: int, j: int|
        0 <= i < j < items.len() ==> path_lt(#[trigger] items[i].0, #[trigger] items[j].0)
}

/// The path leads below `dir` through the entry at position `k` of `data`.
pub open spec fn leads_through(path: Seq<Seq<u8>>, dir: Seq<Seq<u8>>, data: Listing, k: int) -> bool {
    &&& is_strictly_under(path, dir)
    &&& 0 <= k < data.len()
    &&& path[dir.len() as int] == data[k].0
}

/// The path leads below `dir` through an entry of `data` at position `i` or later.
pub open spec fn leads_from(path: Seq<Seq<u8>>, dir: Seq<Seq<u8>>, data: Listing, i: int) -> bool {
    exists|k: int| i <= k && leads_through(path, dir, data, k)
}

proof fn lemma_entries_ordered(
    store: StoreView,
    dir: Seq<Seq<u8>>,
    data: Listing,
    i: int,
    bound: nat,
)
    requires
        store.wf(),
        names_ascending(data),
        0 <= i,
    ensures
        paths_ascending(walk_entries(store, dir, data, i, bound).items),
        forall|n: int|
            0 <= n < walk_entries(store, dir, data, i, bound).items.len() ==> leads_from(
                (#[trigger] walk_entries(store, dir, data, i, bound).items[n]).0,
                dir,
                data,
                i,
            ) && !(walk_entries(store, dir, data, i, bound).items[n].1 is Tree),
    decreases bound, data.len() - i, 1int,
{
    let w = walk_entries(store, dir, data, i, bound);
    if i < data.len() {
        let head = walk_entry(store, dir, data, i, bound);
        let tail = walk_entries(store, dir, data, i + 1, bound);
        lemma_entry_ordered(store, dir, data, i, bound);
        lemma_entries_ordered(store, dir, data, i + 1, bound);
        if head.error is None {
            assert(w.items == head.items + tail.items);
            assert forall|n: int| 0 <= n < w.items.len() implies leads_from(
                (#[trigger] w.items[n]).0,
                dir,
                data,
                i,
            ) && !(w.items[n].1 is Tree) by {
                if n < head.items.len() {
                    assert(w.items[n] == head.items[n]);
                    assert(leads_through(head.items[n].0, dir, data, i));
                } else {
                    let m = n - head.items.len();
                    assert(w.items[n] == tail.items[m]);
                    assert(leads_from(tail.items[m].0, dir, data, i + 1));
                    let k = choose|k: int| i + 1 <= k && leads_through(tail.items[m].0, dir, data, k);
                    assert(i <= k && leads_through(w.items[n].0, dir, data, k));
                }
            }
            assert forall|a: int, b: int| 0 <= a < b < w.items.len() implies path_lt(
                #[trigger] w.items[a].0,
                #[trigger] w.items[b].0,
            ) by {
                if b < head.items.len() {
                    assert(w.items[a] == head.items[a]);
                    assert(w.items[b] == head.items[b]);
                } else if a >= head.items.len() {
                    assert(w.items[a] == tail.items[a - head.items.len()]);
                    assert(w.items[b] == tail.items[b - head.items.len()]);
                } else {
                    let m = b - head.items.len();
                    assert(w.items[a] == head.items[a]);
                    assert(w.items[b] == tail.items[m]);
                    assert(leads_through(head.items[a].0, dir, data, i));
                    assert(leads_from(tail.items[m].0, dir, data, i + 1));
                    let k = choose|k: int| i + 1 <= k && leads_through(tail.items[m].0, dir, data, k);
                    assert(name_lt(data[i].0, data[k].0));
                    lemma_path_lt_at_first_difference(
                        w.items[a].0,
                        w.items[b].0,
                        dir.len() as int,
                    );
                }
            }
        } else {
            assert(w == head);
            assert forall|n: int| 0 <= n < w.items.len() implies leads_from(
                (#[trigger] w.items[n]).0,
                dir,
                data,
                i,
            ) && !(w.items[n].1 is Tree) by {
                assert(leads_through(head.items[n].0, dir, data, i));
            }
        }
    }
}

proof fn lemma_entry_ordered(
    store: StoreView,
    dir: Seq<Seq<u8>>,
    data: Listing,
    i: int,
    bound: nat,
)
    requires
        store.wf(),
        names_ascending(data),
        0 <= i < data.len(),
    ensures
        paths_ascending(walk_entry(store, dir, data, i, bound).items),
        forall|n: int|
            0 <= n < walk_entry(store, dir, data, i, bound).items.len() ==> leads_through(
                (#[trigger] walk_entry(store, dir, data, i, bound).items[n]).0,
                dir,
                data,
                i,
            ) && !(walk_entry(store, dir, data, i, bound).items[n].1 is Tree),
    decreases bound, data.len() - i, 0int,
{
    let w = walk_entry(store, dir, data, i, bound);
    match data[i].1 {
        ValueView::Tree(id) => {
            if store.tree(id) is Some && object_index(id)->0 < bound {
                let index = object_index(id)->0 as nat;
                let sub = store.tree(id)->0;
                let sub_dir = dir.push(data[i].0);
                lemma_stored_within(store, id, index);
                lemma_entries_ordered(store, sub_dir, sub, 0, index);
                assert forall|n: int| 0 <= n < w.items.len() implies leads_through(
                    (#[trigger] w.items[n]).0,
                    dir,
                    data,
                    i,
                ) && !(w.items[n].1 is Tree) by {
                    assert(leads_from(w.items[n].0, sub_dir, sub, 0));
                    let path = w.items[n].0;
                    assert(is_strictly_under(path, sub_dir));
                    assert(path[dir.len() as int] == sub_dir[dir.len() as int]);
                    assert forall|j: int| 0 <= j < dir.len() implies path[j] == dir[j] by {
                        assert(path[j] == sub_dir[j]);
                    }
                }
            }
        },
        _ => {
            assert(w.items[0].0 == dir.push(data[i].0));
        },
    }
}

/// The walk over a tree yields its paths in ascending order, so that no path
/// is yielded twice, and it yields no tree.
pub proof fn lemma_entries_ascending(store: StoreView, tree: TreeView)
    requires
        store.wf(),
        names_ascending(tree.data),
    ensures
        paths_ascending(entries_of(store, tree).items),
        forall|i: int, j: int|
            0 <= i < j < entries_of(store, tree).items.len() ==> (#[trigger] entries_of(
                store,
                tree,
            ).items[i]).0 != (#[trigger] entries_of(store, tree).items[j]).0,
        forall|n: int|
            0 <= n < entries_of(store, tree).items.len() ==> !((#[trigger] entries_of(
                store,
                tree,
            ).items[n]).1 is Tree),
{
    lemma_entries_ordered(store, tree.dir, tree.data, 0, top_bound());
    let items = entries_of(store, tree).items;
    assert forall|i: int, j: int| 0 <= i < j < items.len() implies (#[trigger] items[i]).0 != (
    #[trigger] items[j]).0 by {
        assert(path_lt(items[i].0, items[j].0));
        lemma_path_lt_irreflexive(items[i].0);
    }
}

} // verus!
