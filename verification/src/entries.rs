//! The walk over every entry below a tree that is not itself a tree.

use vstd::prelude::*;
use crate::listing::Listing;
use crate::repo_path::RepoPath;
use crate::store::{
    lemma_index_of_id, lemma_stored_within, lemma_within_top, object_index, refs_within,
    top_bound, value_within, Store, StoreError, StoreView,
};
use crate::tree::{Tree, TreeView};
use crate::values::{TreeValue, ValueView};
use crate::walk::{lemma_followed_by_assoc, lemma_followed_by_empty, lemma_followed_by_one, Walk};

verus! {

/// A path and the value found there.
pub type PathValue = (Seq<Seq<u8>>, ValueView);

/// The walk over the entries of `data` at positions `i` and later, where
/// `data` lists the directory `dir`: an entry that is no tree is yielded
/// under its full path, and a tree is walked in its place.  A tree that the
/// store lacks ends the walk with an error.
///
/// Sub-trees are followed only where they stand before `bound`; with
/// `top_bound()` all are.
pub open spec fn walk_entries(
    store: StoreView,
    dir: Seq<Seq<u8>>,
    data: Listing,
    i: int,
    bound: nat,
) -> Walk<PathValue>
    decreases bound, data.len() - i,
{
    if i < 0 || i >= data.len() {
        Walk::empty()
    } else {
        walk_entry(store, dir, data, i, bound).followed_by(walk_entries(store, dir, data, i + 1, bound))
    }
}

/// The walk over the one entry at position `i`.
pub open spec fn walk_entry(
    store: StoreView,
    dir: Seq<Seq<u8>>,
    data: Listing,
    i: int,
    bound: nat,
) -> Walk<PathValue>
    decreases bound, 0int,
    when 0 <= i < data.len()
{
    match data[i].1 {
        ValueView::Tree(id) => {
            if store.tree(id) is Some && object_index(id)->0 < bound {
                walk_entries(
                    store,
                    dir.push(data[i].0),
                    store.tree(id)->0,
                    0,
                    object_index(id)->0 as nat,
                )
            } else {
                Walk::fail(StoreError::NotFound)
            }
        },
        value => Walk::one((dir.push(data[i].0), value)),
    }
}

/// An upper limit on the steps that the walk over the entries of `data` at
/// positions `i` and later takes.
pub open spec fn entries_steps(store: StoreView, data: Listing, i: int, bound: nat) -> nat
    decreases bound, data.len() - i,
{
    if i < 0 || i >= data.len() {
        1
    } else {
        entry_steps(store, data, i, bound) + entries_steps(store, data, i + 1, bound)
    }
}

/// An upper limit on the steps that the walk over the one entry at position `i` takes.
pub open spec fn entry_steps(store: StoreView, data: Listing, i: int, bound: nat) -> nat
    decreases bound, 0int,
    when 0 <= i < data.len()
{
    match data[i].1 {
        ValueView::Tree(id) => {
            if store.tree(id) is Some && object_index(id)->0 < bound {
                1 + entries_steps(store, store.tree(id)->0, 0, object_index(id)->0 as nat)
            } else {
                1
            }
        },
        _ => 1,
    }
}

/// The walk over everything below `tree` that is not itself a tree.
pub open spec fn entries_of(store: StoreView, tree: TreeView) -> Walk<PathValue> {
    walk_entries(store, tree.dir, tree.data, 0, top_bound())
}

/// One directory that the walker is in: its tree, the position of the next
/// entry, and a limit that the tree's sub-trees stand before.
struct EntriesFrame {
    tree: Tree,
    cursor: usize,
    bound: Ghost<nat>,
}

spec fn frame_ok(frame: EntriesFrame) -> bool {
    &&& frame.cursor <= frame.tree@.data.len()
    &&& refs_within(frame.tree@.data, frame.bound@)
}

spec fn frames_ok(frames: Seq<EntriesFrame>) -> bool {
    forall|k: int| 0 <= k < frames.len() ==> frame_ok(#[trigger] frames[k])
}

spec fn frame_walk(store: StoreView, frame: EntriesFrame) -> Walk<PathValue> {
    walk_entries(store, frame.tree@.dir, frame.tree@.data, frame.cursor as int, frame.bound@)
}

spec fn frame_steps(store: StoreView, frame: EntriesFrame) -> nat {
    entries_steps(store, frame.tree@.data, frame.cursor as int, frame.bound@)
}

/// What the frames have yet to give: the innermost directory first.
spec fn frames_walk(store: StoreView, frames: Seq<EntriesFrame>) -> Walk<PathValue>
    decreases frames.len(),
{
    if frames.len() == 0 {
        Walk::empty()
    } else {
        frame_walk(store, frames.last()).followed_by(frames_walk(store, frames.drop_last()))
    }
}

spec fn frames_steps(store: StoreView, frames: Seq<EntriesFrame>) -> nat
    decreases frames.len(),
{
    if frames.len() == 0 {
        0
    } else {
        frame_steps(store, frames.last()) + frames_steps(store, frames.drop_last())
    }
}

proof fn lemma_frames_push(store: StoreView, frames: Seq<EntriesFrame>, frame: EntriesFrame)
    ensures
        frames_walk(store, frames.push(frame)) == frame_walk(store, frame).followed_by(
            frames_walk(store, frames),
        ),
        frames_steps(store, frames.push(frame)) == frame_steps(store, frame) + frames_steps(
            store,
            frames,
        ),
{
    assert(frames.push(frame).drop_last() =~= frames);
}

/// Takes the walk one item further.
fn advance_entries(stack: &mut Vec<EntriesFrame>, store: &Store) -> (r: Option<
    Result<(RepoPath, TreeValue), StoreError>,
>)
    requires
        frames_ok(old(stack)@),
    ensures
        frames_ok(final(stack)@),
        match r {
            None => frames_walk(store@, old(stack)@).is_done() && frames_walk(
                store@,
                final(stack)@,
            ).is_done(),
            Some(Ok((path, value))) => {
                &&& frames_walk(store@, old(stack)@).items.len() > 0
                &&& frames_walk(store@, old(stack)@).items[0] == (path@, value@)
                &&& frames_walk(store@, final(stack)@) == frames_walk(store@, old(stack)@).rest()
            },
            Some(Err(e)) => {
                &&& frames_walk(store@, old(stack)@).items.len() == 0
                &&& frames_walk(store@, old(stack)@).error == Some(e)
                &&& frames_walk(store@, final(stack)@).is_done()
            },
        },
{
    while stack.len() > 0
        invariant
            frames_ok(stack@),
            frames_walk(store@, stack@) == frames_walk(store@, old(stack)@),
        decreases frames_steps(store@, stack@),
    {
        let ghost before = stack@;
        let frame = match stack.pop() {
            Some(frame) => frame,
            None => {
                return None;
            },
        };
        let ghost below = stack@;
        proof {
            assert(before =~= below.push(frame));
            lemma_frames_push(store@, below, frame);
            assert(frame_ok(before[before.len() - 1]));
            assert forall|k: int| 0 <= k < below.len() implies frame_ok(#[trigger] below[k]) by {
                assert(below[k] == before[k]);
            }
        }
        let EntriesFrame { tree, cursor, bound } = frame;
        if cursor == tree.data().len() {
            // No more entries in this directory.
            proof {
                lemma_followed_by_empty(frames_walk(store@, below));
            }
        } else {
            let ghost data = tree@.data;
            let ghost dir = tree@.dir;
            let ghost rest = walk_entries(store@, dir, data, cursor as int + 1, bound@);
            let ghost under = frames_walk(store@, below);
            let ghost head = walk_entry(store@, dir, data, cursor as int, bound@);
            assert(value_within(data[cursor as int].1, bound@));
            assert(frame_walk(store@, frame) == head.followed_by(rest));
            assert(frame_steps(store@, frame) == entry_steps(
                store@,
                data,
                cursor as int,
                bound@,
            ) + entries_steps(store@, data, cursor as int + 1, bound@));
            let name = tree.data().name_at(cursor);
            let sub_tree = match tree.data().value_at(cursor) {
                TreeValue::Tree(id) => {
                    let ghost index = object_index(id@)->0;
                    match tree.known_sub_tree(store, name, id) {
                        Err(e) => {
                            stack.clear();
                            assert(head == Walk::<PathValue>::fail(StoreError::NotFound));
                            assert(frames_walk(store@, stack@).is_done());
                            return Some(Err(e));
                        },
                        Ok(sub_tree) => {
                            proof {
                                lemma_index_of_id(id@);
                                lemma_stored_within(store@, id@, index as nat);
                                assert(head == walk_entries(
                                    store@,
                                    sub_tree@.dir,
                                    sub_tree@.data,
                                    0,
                                    index as nat,
                                ));
                                lemma_followed_by_assoc(
                                    walk_entries(
                                        store@,
                                        sub_tree@.dir,
                                        sub_tree@.data,
                                        0,
                                        index as nat,
                                    ),
                                    rest,
                                    under,
                                );
                            }
                            EntriesFrame { tree: sub_tree, cursor: 0, bound: Ghost(index as nat) }
                        },
                    }
                },
                other => {
                    let path = tree.dir().join(name);
                    let found = other.clone();
                    proof {
                        assert(head == Walk::one((path@, found@)));
                        lemma_followed_by_one((path@, found@), rest, under);
                    }
                    let parent = EntriesFrame { tree, cursor: cursor + 1, bound };
                    proof {
                        lemma_frames_push(store@, below, parent);
                        assert forall|k: int| 0 <= k < below.push(parent).len() implies frame_ok(
                            #[trigger] below.push(parent)[k],
                        ) by {
                            if k < below.len() {
                                assert(below.push(parent)[k] == below[k]);
                            }
                        }
                    }
                    stack.push(parent);
                    return Some(Ok((path, found)));
                },
            };
            let parent = EntriesFrame { tree, cursor: cursor + 1, bound };
            proof {
                lemma_frames_push(store@, below, parent);
                lemma_frames_push(store@, below.push(parent), sub_tree);
                assert forall|k: int|
                    0 <= k < below.push(parent).push(sub_tree).len() implies frame_ok(
                    #[trigger] below.push(parent).push(sub_tree)[k],
                ) by {
                    if k < below.len() {
                        assert(below.push(parent).push(sub_tree)[k] == below[k]);
                    }
                }
            }
            stack.push(parent);
            stack.push(sub_tree);
        }
    }
    None
}

/// The walker over everything below a tree that is not itself a tree.  It
/// goes through the entries of a directory in the order of their names and
/// into each sub-tree where it stands, and holds one frame for each directory
/// that it is in.
pub struct TreeEntriesIter {
    stack: Vec<EntriesFrame>,
}

impl TreeEntriesIter {
    #[verifier::type_invariant]
    spec fn inv(self) -> bool {
        frames_ok(self.stack@)
    }

    /// What the walker has yet to give, read from `store`.
    pub closed spec fn pending(&self, store: StoreView) -> Walk<PathValue> {
        frames_walk(store, self.stack@)
    }

    /// The walker at the beginning of `tree`.
    pub fn new(tree: Tree) -> (r: Self)
        ensures
            forall|store: StoreView| #[trigger] r.pending(store) == entries_of(store, tree@),
    {
        proof {
            lemma_within_top(tree@.data);
        }
        let frame = EntriesFrame { tree, cursor: 0, bound: Ghost(top_bound()) };
        let mut stack: Vec<EntriesFrame> = Vec::new();
        stack.push(frame);
        proof {
            assert forall|store: StoreView| #[trigger]
                frames_walk(store, stack@) == entries_of(store, tree@) by {
                lemma_frames_push(store, Seq::empty(), frame);
                assert(stack@ =~= Seq::<EntriesFrame>::empty().push(frame));
                lemma_followed_by_empty(frame_walk(store, frame));
            }
        }
        TreeEntriesIter { stack }
    }

    /// Gives the next path and value, or the error that ends the walk; `None`
    /// when the walk is over.  After an error the walk is over.
    pub fn next(&mut self, store: &Store) -> (r: Option<Result<(RepoPath, TreeValue), StoreError>>)
        ensures
            match r {
                None => old(self).pending(store@).is_done() && final(self).pending(
                    store@,
                ).is_done(),
                Some(Ok((path, value))) => {
                    &&& old(self).pending(store@).items.len() > 0
                    &&& old(self).pending(store@).items[0] == (path@, value@)
                    &&& final(self).pending(store@) == old(self).pending(store@).rest()
                },
                Some(Err(e)) => {
                    &&& old(self).pending(store@).items.len() == 0
                    &&& old(self).pending(store@).error == Some(e)
                    &&& final(self).pending(store@).is_done()
                },
            },
    {
        proof {
            use_type_invariant(&*self);
        }
        let mut stack: Vec<EntriesFrame> = Vec::new();
        core::mem::swap(&mut self.stack, &mut stack);
        let r = advance_entries(&mut stack, store);
        self.stack = stack;
        r
    }
}

} // verus!
