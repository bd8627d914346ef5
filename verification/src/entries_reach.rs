//! What the walk over a tree yields, held against what stands at each path.

use vstd::prelude::*;
use crate::entries::{entries_of, walk_entries, walk_entry, PathValue};
use crate::entries_order::lemma_entries_ascending;
use crate::listing::{lemma_position, lemma_unique_position, lookup, names_ascending, position, Listing};
use crate::repo_path::is_strictly_under;
use crate::store::{
    lemma_index_of_id, lemma_stored_within, lemma_within_top, object_index, refs_within,
    top_bound, value_within, StoreError, StoreView,
};
use crate::tree::{descend, path_value_of, TreeView};
use crate::values::ValueView;

verus! {

/// The value that stands at the path `rel` below a directory with the
/// entries `data`, if every component but the last leads to a tree that the
/// store has and the last is a name of the directory reached.
pub open spec fn value_below(store: StoreView, data: Listing, rel: Seq<Seq<u8>>) -> Option<
    ValueView,
>
    decreases rel.len(),
{
    if rel.len() == 0 {
        None
    } else if rel.len() == 1 {
        lookup(data, rel[0])
    } else {
        match lookup(data, rel[0]) {
            Some(ValueView::Tree(id)) => match store.tree(id) {
                Some(sub) => value_below(store, sub, rel.drop_first()),
                None => None,
            },
            _ => None,
        }
    }
}

/// The value below a directory is what the directory of the path holds under
/// the path's last component.
pub proof fn lemma_value_below_descends(store: StoreView, data: Listing, rel: Seq<Seq<u8>>)
    requires
        rel.len() > 0,
    ensures
        value_below(store, data, rel) == (match descend(store, data, rel.drop_last()) {
            Ok(Some(reached)) => lookup(reached, rel.last()),
            _ => None,
        }),
    decreases rel.len(),
{
    if rel.len() > 1 {
        assert(rel.drop_last()[0] == rel[0]);
        assert(rel.drop_last().drop_first() =~= rel.drop_first().drop_last());
        assert(rel.drop_first().last() == rel.last());
        match lookup(data, rel[0]) {
            Some(ValueView::Tree(id)) => {
                if store.tree(id) is Some {
                    lemma_value_below_descends(store, store.tree(id)->0, rel.drop_first());
                }
            },
            _ => {},
        }
    } else {
        assert(rel.drop_last() =~= Seq::<Seq<u8>>::empty());
    }
}

proof fn lemma_entry_in_entries(
    store: StoreView,
    dir: Seq<Seq<u8>>,
    data: Listing,
    i: int,
    k: int,
    bound: nat,
)
    requires
        0 <= i <= k < data.len(),
        walk_entries(store, dir, data, i, bound).error is None,
    ensures
        walk_entry(store, dir, data, k, bound).error is None,
        forall|item: PathValue|
            walk_entry(store, dir, data, k, bound).items.contains(item) ==> walk_entries(
                store,
                dir,
                data,
                i,
                bound,
            ).items.contains(item),
    decreases k - i,
{
    let w = walk_entries(store, dir, data, i, bound);
    let head = walk_entry(store, dir, data, i, bound);
    let tail = walk_entries(store, dir, data, i + 1, bound);
    assert(w == head.followed_by(tail));
    assert(w.items == head.items + tail.items);
    if i == k {
        assert forall|item: PathValue| head.items.contains(item) implies w.items.contains(
            item,
        ) by {
            let n = choose|n: int| 0 <= n < head.items.len() && head.items[n] == item;
            assert(w.items[n] == item);
        }
    } else {
        lemma_entry_in_entries(store, dir, data, i + 1, k, bound);
        let entry = walk_entry(store, dir, data, k, bound);
        assert forall|item: PathValue| entry.items.contains(item) implies w.items.contains(
            item,
        ) by {
            assert(tail.items.contains(item));
            let n = choose|n: int| 0 <= n < tail.items.len() && tail.items[n] == item;
            assert(w.items[head.items.len() + n] == item);
        }
    }
}

proof fn lemma_reachable_is_yielded(
    store: StoreView,
    dir: Seq<Seq<u8>>,
    data: Listing,
    bound: nat,
    rel: Seq<Seq<u8>>,
    value: ValueView,
)
    requires
        store.wf(),
        refs_within(data, bound),
        walk_entries(store, dir, data, 0, bound).error is None,
        value_below(store, data, rel) == Some(value),
        !(value is Tree),
    ensures
        walk_entries(store, dir, data, 0, bound).items.contains((dir + rel, value)),
    decreases rel.len(),
{
    let name = rel[0];
    lemma_position(data, name);
    let k = position(data, name);
    assert(k < data.len());
    lemma_entry_in_entries(store, dir, data, 0, k, bound);
    let entry = walk_entry(store, dir, data, k, bound);
    if rel.len() == 1 {
        assert(dir + rel =~= dir.push(name));
        assert(entry.items[0] == (dir + rel, value));
    } else {
        let id = data[k].1->Tree_0;
        let sub = store.tree(id)->0;
        let index = object_index(id)->0 as nat;
        assert(value_within(data[k].1, bound));
        lemma_index_of_id(id);
        lemma_stored_within(store, id, index);
        lemma_reachable_is_yielded(store, dir.push(name), sub, index, rel.drop_first(), value);
        assert(dir.push(name) + rel.drop_first() =~= dir + rel);
    }
}

proof fn lemma_yielded_is_reachable(
    store: StoreView,
    dir: Seq<Seq<u8>>,
    data: Listing,
    i: int,
    bound: nat,
    n: int,
)
    requires
        store.wf(),
        names_ascending(data),
        0 <= i,
        0 <= n < walk_entries(store, dir, data, i, bound).items.len(),
    ensures
        is_strictly_under(walk_entries(store, dir, data, i, bound).items[n].0, dir),
        value_below(
            store,
            data,
            walk_entries(store, dir, data, i, bound).items[n].0.skip(dir.len() as int),
        ) == Some(walk_entries(store, dir, data, i, bound).items[n].1),
    decreases bound, data.len() - i, n,
{
    let w = walk_entries(store, dir, data, i, bound);
    let head = walk_entry(store, dir, data, i, bound);
    let tail = walk_entries(store, dir, data, i + 1, bound);
    assert(w == head.followed_by(tail));
    if n < head.items.len() {
        assert(w.items[n] == head.items[n]);
        let item = head.items[n];
        let name = data[i].0;
        lemma_unique_position(data, name, i);
        match data[i].1 {
            ValueView::Tree(id) => {
                let sub = store.tree(id)->0;
                let index = object_index(id)->0 as nat;
                let sub_dir = dir.push(name);
                lemma_index_of_id(id);
                lemma_stored_within(store, id, index);
                lemma_yielded_is_reachable(store, sub_dir, sub, 0, index, n);
                let rel = item.0.skip(dir.len() as int);
                assert(item.0[dir.len() as int] == sub_dir[dir.len() as int]);
                assert(rel[0] == name);
                assert(rel.drop_first() =~= item.0.skip(sub_dir.len() as int));
                assert forall|j: int| 0 <= j < dir.len() implies item.0[j] == dir[j] by {
                    assert(item.0[j] == sub_dir[j]);
                }
            },
            _ => {
                assert(item.0 == dir.push(name));
                assert(item.0.skip(dir.len() as int) =~= seq![name]);
            },
        }
    } else {
        assert(head.error is None);
        assert(w.items[n] == tail.items[n - head.items.len()]);
        lemma_yielded_is_reachable(store, dir, data, i + 1, bound, n - head.items.len());
    }
}

/// Where the walk over a tree ends well, it yields exactly the values that
/// stand below the tree and are no trees, each under its full path: a path
/// and a value are yielded if and only if the value is no tree and is the
/// value at that path.
pub proof fn lemma_entries_complete(
    store: StoreView,
    tree: TreeView,
    rel: Seq<Seq<u8>>,
    value: ValueView,
)
    requires
        store.wf(),
        names_ascending(tree.data),
        entries_of(store, tree).error is None,
    ensures
        entries_of(store, tree).items.contains((tree.dir + rel, value)) <==> !(value is Tree)
            && path_value_of(store, tree, rel) == Ok::<Option<ValueView>, StoreError>(Some(value)),
{
    let w = entries_of(store, tree);
    if w.items.contains((tree.dir + rel, value)) {
        let n = choose|n: int| 0 <= n < w.items.len() && w.items[n] == (tree.dir + rel, value);
        lemma_yielded_is_reachable(store, tree.dir, tree.data, 0, top_bound(), n);
        lemma_entries_ascending(store, tree);
        assert((tree.dir + rel).skip(tree.dir.len() as int) =~= rel);
        lemma_value_below_descends(store, tree.data, rel);
    }
    if !(value is Tree) && path_value_of(store, tree, rel) == Ok::<Option<ValueView>, StoreError>(
        Some(value),
    ) {
        lemma_value_below_descends(store, tree.data, rel);
        lemma_within_top(tree.data);
        lemma_reachable_is_yielded(store, tree.dir, tree.data, top_bound(), rel, value);
    }
}

} // verus!
