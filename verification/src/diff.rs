//! The walk over the differences between two trees.

use vstd::prelude::*;
use crate::listing::Listing;
use crate::matchers::Matcher;
use crate::paired::{lemma_cell_within, lemma_paired_same, paired, paired_from, paired_step, Cell};
use crate::repo_path::RepoPath;
use crate::store::{
    lemma_index_of_id, lemma_stored_within, lemma_within_top, object_index, refs_within, top_bound,
    Store, StoreError, StoreView,
};
use crate::tree::{Tree, TreeView};
use crate::values::{opt_value_cloned, TreeValue, ValueView};
use crate::walk::{lemma_followed_by_assoc, lemma_followed_by_empty, lemma_followed_by_one, Walk};

verus! {

/// How what stands at a path differs between a first and a second tree.
#[derive(Debug, PartialEq, Eq)]
pub enum Diff<T> {
    /// Both trees have the path, with different values: the first's, then the second's.
    Modified(T, T),
    /// Only the second tree has the path.
    Added(T),
    /// Only the first tree has the path.
    Removed(T),
}

impl<T> Diff<T> {
    /// The value before, if there was one.
    pub open spec fn before(self) -> Option<T> {
        match self {
            Diff::Modified(left, _) => Some(left),
            Diff::Added(_) => None,
            Diff::Removed(left) => Some(left),
        }
    }

    /// The value after, if there is one.
    pub open spec fn after(self) -> Option<T> {
        match self {
            Diff::Modified(_, right) => Some(right),
            Diff::Added(right) => Some(right),
            Diff::Removed(_) => None,
        }
    }

    /// The difference seen from the other side.
    pub open spec fn reversed(self) -> Diff<T> {
        match self {
            Diff::Modified(left, right) => Diff::Modified(right, left),
            Diff::Added(right) => Diff::Removed(right),
            Diff::Removed(left) => Diff::Added(left),
        }
    }

    /// The value before and the value after, each if there is one, borrowed.
    pub fn as_options(&self) -> (r: (Option<&T>, Option<&T>))
        ensures
            match r.0 {
                Some(left) => self.before() == Some(*left),
                None => self.before() is None,
            },
            match r.1 {
                Some(right) => self.after() == Some(*right),
                None => self.after() is None,
            },
    {
        match self {
            Diff::Modified(left, right) => (Some(left), Some(right)),
            Diff::Added(right) => (None, Some(right)),
            Diff::Removed(left) => (Some(left), None),
        }
    }

    /// The value before and the value after, each if there is one.
    pub fn into_options(self) -> (r: (Option<T>, Option<T>))
        ensures
            r.0 == self.before(),
            r.1 == self.after(),
    {
        match self {
            Diff::Modified(left, right) => (Some(left), Some(right)),
            Diff::Added(right) => (None, Some(right)),
            Diff::Removed(left) => (Some(left), None),
        }
    }
}

/// The mathematical value of a difference of tree values.
pub open spec fn diff_view(diff: Diff<TreeValue>) -> Diff<ValueView> {
    match diff {
        Diff::Modified(left, right) => Diff::Modified(left@, right@),
        Diff::Added(right) => Diff::Added(right@),
        Diff::Removed(left) => Diff::Removed(left@),
    }
}

/// A path and how what stands there differs.
pub type PathDiff = (Seq<Seq<u8>>, Diff<ValueView>);

/// Whether the value is there and is a tree.
pub open spec fn is_tree(value: Option<ValueView>) -> bool {
    value matches Some(ValueView::Tree(_))
}

/// The entries that stand for one side of a difference where a tree is
/// involved, and a limit that their sub-trees stand before: those of the
/// side's tree, or none where the side is no tree.  `None` where the store
/// lacks the tree or the tree does not stand before `bound`.
pub open spec fn side_tree(store: StoreView, value: Option<ValueView>, bound: nat) -> Option<
    (Listing, nat),
> {
    match value {
        Some(ValueView::Tree(id)) => {
            if store.tree(id) is Some && object_index(id)->0 < bound {
                Some((store.tree(id)->0, object_index(id)->0 as nat))
            } else {
                None
            }
        },
        _ => Some((Seq::empty(), 0nat)),
    }
}

/// The difference between two values neither of which is a tree.
pub open spec fn leaf_diff(before: Option<ValueView>, after: Option<ValueView>) -> Option<
    Diff<ValueView>,
> {
    match (before, after) {
        (Some(b), Some(a)) => Some(Diff::Modified(b, a)),
        (None, Some(a)) => Some(Diff::Added(a)),
        (Some(b), None) => Some(Diff::Removed(b)),
        (None, None) => None,
    }
}

/// The walk that yields `diff` at `path` if there is one and the matcher
/// accepts the path, and else yields nothing.
pub open spec fn leaf_event<M: Matcher>(
    matcher: M,
    path: Seq<Seq<u8>>,
    diff: Option<Diff<ValueView>>,
) -> Walk<PathDiff> {
    match diff {
        Some(d) => if matcher.matches_spec(path) {
            Walk::one((path, d))
        } else {
            Walk::empty()
        },
        None => Walk::empty(),
    }
}

/// The greater of two numbers.
pub open spec fn max2(a: nat, b: nat) -> nat {
    if a >= b {
        a
    } else {
        b
    }
}

/// The walk over the differences `cells` of the directory `dir`, in order.
///
/// Sub-trees are followed only where they stand before `bound`; with
/// `top_bound()` all are.
pub open spec fn walk_cells<M: Matcher>(
    store: StoreView,
    matcher: M,
    dir: Seq<Seq<u8>>,
    cells: Seq<Cell>,
    bound: nat,
) -> Walk<PathDiff>
    decreases bound, 1int, cells.len(),
{
    if cells.len() == 0 {
        Walk::empty()
    } else {
        walk_cell(store, matcher, dir, cells[0], bound).followed_by(
            walk_cells(store, matcher, dir, cells.drop_first(), bound),
        )
    }
}

/// The walk over one difference of the directory `dir`.
///
/// Where neither side is a tree, the difference is yielded if the matcher
/// accepts its path.  Where a side is a tree, the differences below it are
/// walked, against no entries where the other side is no tree; a value that
/// a tree replaces is yielded as removed before them, and a value that
/// replaces a tree is yielded as added behind them, each if the matcher
/// accepts the path.  A tree that the store lacks ends the walk with an error.
pub open spec fn walk_cell<M: Matcher>(
    store: StoreView,
    matcher: M,
    dir: Seq<Seq<u8>>,
    cell: Cell,
    bound: nat,
) -> Walk<PathDiff>
    decreases bound, 0int, 0nat,
{
    let path = dir.push(cell.0);
    if is_tree(cell.1) || is_tree(cell.2) {
        match (side_tree(store, cell.1, bound), side_tree(store, cell.2, bound)) {
            (Some(before), Some(after)) => {
                let below = walk_cells(
                    store,
                    matcher,
                    path,
                    paired(before.0, after.0),
                    max2(before.1, after.1),
                );
                if !is_tree(cell.1) {
                    leaf_event(matcher, path, leaf_diff(cell.1, None)).followed_by(below)
                } else if !is_tree(cell.2) {
                    below.followed_by(leaf_event(matcher, path, leaf_diff(None, cell.2)))
                } else {
                    below
                }
            },
            _ => Walk::fail(StoreError::NotFound),
        }
    } else {
        leaf_event(matcher, path, leaf_diff(cell.1, cell.2))
    }
}

/// The walk over the differences between two trees that stand at the same
/// directory.  Every path is a full path: the directory of the trees, and
/// below it the names that lead to the difference.  Where the two trees do
/// not stand at the same directory, it is that of the first.
pub open spec fn diff_of<M: Matcher>(
    store: StoreView,
    matcher: M,
    tree1: TreeView,
    tree2: TreeView,
) -> Walk<PathDiff> {
    walk_cells(store, matcher, tree1.dir, paired(tree1.data, tree2.data), top_bound())
}

/// An upper limit on the steps that the walk over the differences `cells` takes.
pub open spec fn cells_steps(store: StoreView, cells: Seq<Cell>, bound: nat) -> nat
    decreases bound, 1int, cells.len(),
{
    if cells.len() == 0 {
        1
    } else {
        cell_steps(store, cells[0], bound) + cells_steps(store, cells.drop_first(), bound)
    }
}

/// An upper limit on the steps that the walk over one difference takes.
pub open spec fn cell_steps(store: StoreView, cell: Cell, bound: nat) -> nat
    decreases bound, 0int, 0nat,
{
    if is_tree(cell.1) || is_tree(cell.2) {
        match (side_tree(store, cell.1, bound), side_tree(store, cell.2, bound)) {
            (Some(before), Some(after)) => 2 + cells_steps(
                store,
                paired(before.0, after.0),
                max2(before.1, after.1),
            ),
            _ => 1,
        }
    } else {
        1
    }
}

/// The matcher accepts the path of every item of the walk.
pub open spec fn all_matched<M: Matcher>(matcher: M, walk: Walk<PathDiff>) -> bool {
    forall|n: int| 0 <= n < walk.items.len() ==> matcher.matches_spec(#[trigger] walk.items[n].0)
}

proof fn lemma_cells_matched<M: Matcher>(
    store: StoreView,
    matcher: M,
    dir: Seq<Seq<u8>>,
    cells: Seq<Cell>,
    bound: nat,
)
    ensures
        all_matched(matcher, walk_cells(store, matcher, dir, cells, bound)),
    decreases bound, 1int, cells.len(),
{
    if cells.len() > 0 {
        lemma_cell_matched(store, matcher, dir, cells[0], bound);
        lemma_cells_matched(store, matcher, dir, cells.drop_first(), bound);
    }
}

proof fn lemma_cell_matched<M: Matcher>(
    store: StoreView,
    matcher: M,
    dir: Seq<Seq<u8>>,
    cell: Cell,
    bound: nat,
)
    ensures
        all_matched(matcher, walk_cell(store, matcher, dir, cell, bound)),
    decreases bound, 0int, 0nat,
{
    if is_tree(cell.1) || is_tree(cell.2) {
        let before = side_tree(store, cell.1, bound);
        let after = side_tree(store, cell.2, bound);
        if before is Some && after is Some {
            let side1 = before->0;
            let side2 = after->0;
            lemma_cells_matched(
                store,
                matcher,
                dir.push(cell.0),
                paired(side1.0, side2.0),
                max2(side1.1, side2.1),
            );
        }
    }
}

/// Every difference that the walk yields stands at a path that the matcher accepts.
pub proof fn lemma_diff_matched<M: Matcher>(
    store: StoreView,
    matcher: M,
    tree1: TreeView,
    tree2: TreeView,
)
    ensures
        all_matched(matcher, diff_of(store, matcher, tree1, tree2)),
{
    lemma_cells_matched(
        store,
        matcher,
        tree1.dir,
        paired(tree1.data, tree2.data),
        top_bound(),
    );
}

/// The walk over the differences between a tree and itself yields nothing
/// and ends well, whatever the matcher and whatever the store holds.
pub proof fn lemma_diff_same<M: Matcher>(store: StoreView, matcher: M, tree: TreeView)
    ensures
        diff_of(store, matcher, tree, tree) == Walk::<PathDiff>::empty(),
{
    lemma_paired_same(tree.data);
}

/// One directory that the walker is in: its path, the two trees, the
/// positions of the next entries, a value that was added in place of a tree
/// and waits for the walk below its path to end, and a limit that the
/// sub-trees of the two trees stand before.
struct DiffFrame {
    dir: RepoPath,
    tree1: Tree,
    tree2: Tree,
    position1: usize,
    position2: usize,
    added_file: Option<(RepoPath, TreeValue)>,
    bound: Ghost<nat>,
}

spec fn added_walk(added: Option<(RepoPath, TreeValue)>) -> Walk<PathDiff> {
    match added {
        Some((path, value)) => Walk::one((path@, Diff::Added(value@))),
        None => Walk::empty(),
    }
}

spec fn removed_walk(path: Seq<Seq<u8>>, removed: Option<TreeValue>) -> Walk<PathDiff> {
    match removed {
        Some(value) => Walk::one((path, Diff::Removed(value@))),
        None => Walk::empty(),
    }
}

spec fn frame_cells(frame: DiffFrame) -> Seq<Cell> {
    paired_from(
        frame.tree1@.data,
        frame.tree2@.data,
        frame.position1 as int,
        frame.position2 as int,
    )
}

spec fn frame_ok(frame: DiffFrame) -> bool {
    &&& frame.position1 <= frame.tree1@.data.len()
    &&& frame.position2 <= frame.tree2@.data.len()
    &&& refs_within(frame.tree1@.data, frame.bound@)
    &&& refs_within(frame.tree2@.data, frame.bound@)
}

spec fn frames_ok(frames: Seq<DiffFrame>) -> bool {
    forall|k: int| 0 <= k < frames.len() ==> frame_ok(#[trigger] frames[k])
}

spec fn frame_walk<M: Matcher>(store: StoreView, matcher: M, frame: DiffFrame) -> Walk<PathDiff> {
    added_walk(frame.added_file).followed_by(
        walk_cells(store, matcher, frame.dir@, frame_cells(frame), frame.bound@),
    )
}

spec fn frame_steps(store: StoreView, frame: DiffFrame) -> nat {
    (if frame.added_file is Some {
        1nat
    } else {
        0nat
    }) + cells_steps(store, frame_cells(frame), frame.bound@)
}

/// What the frames have yet to give: the innermost directory first.
spec fn frames_walk<M: Matcher>(store: StoreView, matcher: M, frames: Seq<DiffFrame>) -> Walk<
    PathDiff,
>
    decreases frames.len(),
{
    if frames.len() == 0 {
        Walk::empty()
    } else {
        frame_walk(store, matcher, frames.last()).followed_by(
            frames_walk(store, matcher, frames.drop_last()),
        )
    }
}

spec fn frames_steps(store: StoreView, frames: Seq<DiffFrame>) -> nat
    decreases frames.len(),
{
    if frames.len() == 0 {
        0
    } else {
        frame_steps(store, frames.last()) + frames_steps(store, frames.drop_last())
    }
}

proof fn lemma_frames_push<M: Matcher>(
    store: StoreView,
    matcher: M,
    frames: Seq<DiffFrame>,
    frame: DiffFrame,
)
    requires
        frames_ok(frames),
        frame_ok(frame),
    ensures
        frames_ok(frames.push(frame)),
        frames_walk(store, matcher, frames.push(frame)) == frame_walk(
            store,
            matcher,
            frame,
        ).followed_by(frames_walk(store, matcher, frames)),
        frames_steps(store, frames.push(frame)) == frame_steps(store, frame) + frames_steps(
            store,
            frames,
        ),
{
    assert(frames.push(frame).drop_last() =~= frames);
    assert forall|k: int| 0 <= k < frames.push(frame).len() implies frame_ok(
        #[trigger] frames.push(frame)[k],
    ) by {
        if k < frames.len() {
            assert(frames.push(frame)[k] == frames[k]);
        }
    }
}

/// Five walks in a row, grouped as the walker goes through them.
proof fn lemma_regroup<T>(a: Walk<T>, b: Walk<T>, c: Walk<T>, d: Walk<T>, e: Walk<T>)
    ensures
        a.followed_by(b).followed_by(c).followed_by(d).followed_by(e) == a.followed_by(
            b.followed_by(c.followed_by(d).followed_by(e)),
        ),
{
    lemma_followed_by_assoc(a.followed_by(b).followed_by(c), d, e);
    lemma_followed_by_assoc(a.followed_by(b), c, d.followed_by(e));
    lemma_followed_by_assoc(a, b, c.followed_by(d.followed_by(e)));
    lemma_followed_by_assoc(c, d, e);
}

/// Takes the walk one item further.
fn advance_diff<M: Matcher>(stack: &mut Vec<DiffFrame>, store: &Store, matcher: &M) -> (r: Option<
    Result<(RepoPath, Diff<TreeValue>), StoreError>,
>)
    requires
        frames_ok(old(stack)@),
    ensures
        frames_ok(final(stack)@),
        match r {
            None => frames_walk(store@, *matcher, old(stack)@).is_done() && frames_walk(
                store@,
                *matcher,
                final(stack)@,
            ).is_done(),
            Some(Ok((path, diff))) => {
                &&& frames_walk(store@, *matcher, old(stack)@).items.len() > 0
                &&& frames_walk(store@, *matcher, old(stack)@).items[0] == (path@, diff_view(diff))
                &&& frames_walk(store@, *matcher, final(stack)@) == frames_walk(
                    store@,
                    *matcher,
                    old(stack)@,
                ).rest()
            },
            Some(Err(e)) => {
                &&& frames_walk(store@, *matcher, old(stack)@).items.len() == 0
                &&& frames_walk(store@, *matcher, old(stack)@).error == Some(e)
                &&& frames_walk(store@, *matcher, final(stack)@).is_done()
            },
        },
{
    while stack.len() > 0
        invariant
            frames_ok(stack@),
            frames_walk(store@, *matcher, stack@) == frames_walk(store@, *matcher, old(stack)@),
        decreases frames_steps(store@, stack@),
    {
        let ghost before_stack = stack@;
        let frame = match stack.pop() {
            Some(frame) => frame,
            None => {
                return None;
            },
        };
        let ghost below = stack@;
        let ghost under = frames_walk(store@, *matcher, below);
        proof {
            assert(before_stack =~= below.push(frame));
            assert(frame_ok(before_stack[before_stack.len() - 1]));
            assert forall|k: int| 0 <= k < below.len() implies frame_ok(#[trigger] below[k]) by {
                assert(below[k] == before_stack[k]);
            }
            lemma_frames_push(store@, *matcher, below, frame);
        }
        let DiffFrame { dir, tree1, tree2, position1, position2, added_file, bound } = frame;
        let ghost cells = frame_cells(frame);
        let ghost cells_walk = walk_cells(store@, *matcher, dir@, cells, bound@);
        // First the value that waited for the walk below its path to end.
        if let Some((path, value)) = added_file {
            let parent = DiffFrame {
                dir,
                tree1,
                tree2,
                position1,
                position2,
                added_file: None,
                bound,
            };
            proof {
                lemma_frames_push(store@, *matcher, below, parent);
                lemma_followed_by_empty(cells_walk);
                lemma_followed_by_one((path@, Diff::Added(value@)), cells_walk, under);
            }
            stack.push(parent);
            return Some(Ok((path, Diff::Added(value))));
        }
        proof {
            lemma_followed_by_empty(cells_walk);
        }
        // Whenever a "file" is spoken of below, it may also be a symlink or a conflict.
        let (cell, next1, next2) = paired_step(tree1.data(), tree2.data(), position1, position2);
        match cell {
            None => {
                // No more differences in this directory.
                proof {
                    lemma_followed_by_empty(under);
                }
            },
            Some((name, before, after)) => {
                let ghost rest_cells = paired_from(
                    tree1@.data,
                    tree2@.data,
                    next1 as int,
                    next2 as int,
                );
                let ghost rest_walk = walk_cells(store@, *matcher, dir@, rest_cells, bound@);
                let ghost head = walk_cell(store@, *matcher, dir@, cells[0], bound@);
                proof {
                    lemma_cell_within(
                        tree1@.data,
                        tree2@.data,
                        position1 as int,
                        position2 as int,
                        bound@,
                        0,
                    );
                    assert(cells_walk == head.followed_by(rest_walk));
                    assert(cells_steps(store@, cells, bound@) == cell_steps(
                        store@,
                        cells[0],
                        bound@,
                    ) + cells_steps(store@, rest_cells, bound@));
                }
                let tree_before = match before {
                    Some(TreeValue::Tree(_)) => true,
                    _ => false,
                };
                let tree_after = match after {
                    Some(TreeValue::Tree(_)) => true,
                    _ => false,
                };
                let file_path = dir.join(&name);
                if tree_before || tree_after {
                    let before_tree = match before {
                        Some(TreeValue::Tree(id_before)) => {
                            match tree1.known_sub_tree(store, &name, id_before) {
                                Ok(tree) => {
                                    proof {
                                        lemma_index_of_id(id_before@);
                                    }
                                    tree
                                },
                                Err(e) => {
                                    stack.clear();
                                    assert(head == Walk::<PathDiff>::fail(StoreError::NotFound));
                                    return Some(Err(e));
                                },
                            }
                        },
                        _ => Tree::null(file_path.clone()),
                    };
                    let after_tree = match after {
                        Some(TreeValue::Tree(id_after)) => {
                            match tree2.known_sub_tree(store, &name, id_after) {
                                Ok(tree) => {
                                    proof {
                                        lemma_index_of_id(id_after@);
                                    }
                                    tree
                                },
                                Err(e) => {
                                    stack.clear();
                                    assert(head == Walk::<PathDiff>::fail(StoreError::NotFound));
                                    return Some(Err(e));
                                },
                            }
                        },
                        _ => Tree::null(file_path.clone()),
                    };
                    let ghost side1 = side_tree(store@, cells[0].1, bound@)->0;
                    let ghost side2 = side_tree(store@, cells[0].2, bound@)->0;
                    let ghost sub_bound = max2(side1.1, side2.1);
                    let ghost sub = walk_cells(
                        store@,
                        *matcher,
                        file_path@,
                        paired(side1.0, side2.0),
                        sub_bound,
                    );
                    proof {
                        assert(side1.0 == before_tree@.data);
                        assert(side2.0 == after_tree@.data);
                        if tree_before {
                            lemma_stored_within(store@, cells[0].1->0->Tree_0, sub_bound);
                        }
                        if tree_after {
                            lemma_stored_within(store@, cells[0].2->0->Tree_0, sub_bound);
                        }
                    }
                    let matched = matcher.matches(&file_path);
                    let removed: Option<TreeValue> = if !tree_before && matched {
                        opt_value_cloned(before)
                    } else {
                        None
                    };
                    let added: Option<(RepoPath, TreeValue)> = if !tree_after && matched {
                        match after {
                            Some(file_after) => Some((file_path.clone(), file_after.clone())),
                            None => None,
                        }
                    } else {
                        None
                    };
                    let ghost removed_event = removed_walk(file_path@, removed);
                    let ghost added_event = added_walk(added);
                    let parent = DiffFrame {
                        dir,
                        tree1,
                        tree2,
                        position1: next1,
                        position2: next2,
                        added_file: added,
                        bound,
                    };
                    let child = DiffFrame {
                        dir: file_path.clone(),
                        tree1: before_tree,
                        tree2: after_tree,
                        position1: 0,
                        position2: 0,
                        added_file: None,
                        bound: Ghost(sub_bound),
                    };
                    proof {
                        lemma_followed_by_empty(sub);
                        assert(frame_walk(store@, *matcher, child) == sub);
                        assert(head == removed_event.followed_by(sub).followed_by(added_event));
                        lemma_frames_push(store@, *matcher, below, parent);
                        lemma_frames_push(store@, *matcher, below.push(parent), child);
                        lemma_regroup(removed_event, sub, added_event, rest_walk, under);
                    }
                    stack.push(parent);
                    stack.push(child);
                    if let Some(file_before) = removed {
                        let ghost now = frames_walk(store@, *matcher, stack@);
                        proof {
                            lemma_followed_by_one(
                                (file_path@, Diff::Removed(file_before@)),
                                now,
                                Walk::empty(),
                            );
                            lemma_followed_by_empty(now);
                            lemma_followed_by_empty(removed_event.followed_by(now));
                        }
                        return Some(Ok((file_path, Diff::Removed(file_before))));
                    }
                } else {
                    let found: Option<Diff<TreeValue>> = if matcher.matches(&file_path) {
                        match (before, after) {
                            (Some(file_before), Some(file_after)) => Some(
                                Diff::Modified(file_before.clone(), file_after.clone()),
                            ),
                            (None, Some(file_after)) => Some(Diff::Added(file_after.clone())),
                            (Some(file_before), None) => Some(Diff::Removed(file_before.clone())),
                            (None, None) => None,
                        }
                    } else {
                        None
                    };
                    let parent = DiffFrame {
                        dir,
                        tree1,
                        tree2,
                        position1: next1,
                        position2: next2,
                        added_file: None,
                        bound,
                    };
                    proof {
                        lemma_frames_push(store@, *matcher, below, parent);
                        lemma_followed_by_empty(rest_walk);
                        lemma_followed_by_empty(rest_walk.followed_by(under));
                    }
                    stack.push(parent);
                    if let Some(diff) = found {
                        proof {
                            lemma_followed_by_one((file_path@, diff_view(diff)), rest_walk, under);
                        }
                        return Some(Ok((file_path, diff)));
                    }
                }
            },
        }
    }
    None
}

/// The walker over the differences between two trees.  It goes through the
/// differing names of a directory in their order and into each name at which
/// a tree stands on either side, and holds one frame for each directory that
/// it is in.
pub struct TreeDiffIterator<'matcher, M: Matcher> {
    stack: Vec<DiffFrame>,
    matcher: &'matcher M,
}

impl<'matcher, M: Matcher> TreeDiffIterator<'matcher, M> {
    #[verifier::type_invariant]
    spec fn inv(self) -> bool {
        frames_ok(self.stack@)
    }

    /// What the walker has yet to give, read from `store`.
    pub closed spec fn pending(&self, store: StoreView) -> Walk<PathDiff> {
        frames_walk(store, *self.matcher, self.stack@)
    }

    /// The walker at the beginning of the differences between `tree1` and
    /// `tree2`, which yields paths below `dir`.
    pub fn new(dir: RepoPath, tree1: Tree, tree2: Tree, matcher: &'matcher M) -> (r: Self)
        ensures
            forall|store: StoreView| #[trigger]
                r.pending(store) == walk_cells(
                    store,
                    *matcher,
                    dir@,
                    paired(tree1@.data, tree2@.data),
                    top_bound(),
                ),
    {
        proof {
            lemma_within_top(tree1@.data);
            lemma_within_top(tree2@.data);
        }
        let frame = DiffFrame {
            dir,
            tree1,
            tree2,
            position1: 0,
            position2: 0,
            added_file: None,
            bound: Ghost(top_bound()),
        };
        let mut stack: Vec<DiffFrame> = Vec::new();
        stack.push(frame);
        proof {
            assert(stack@ =~= Seq::<DiffFrame>::empty().push(frame));
            assert forall|store: StoreView| #[trigger]
                frames_walk(store, *matcher, stack@) == walk_cells(
                    store,
                    *matcher,
                    dir@,
                    paired(tree1@.data, tree2@.data),
                    top_bound(),
                ) by {
                lemma_frames_push(store, *matcher, Seq::empty(), frame);
                let cells_walk = walk_cells(
                    store,
                    *matcher,
                    dir@,
                    paired(tree1@.data, tree2@.data),
                    top_bound(),
                );
                lemma_followed_by_empty(cells_walk);
            }
        }
        TreeDiffIterator { stack, matcher }
    }

    /// Gives the next path and difference, or the error that ends the walk;
    /// `None` when the walk is over.  After an error the walk is over.
    pub fn next(&mut self, store: &Store) -> (r: Option<
        Result<(RepoPath, Diff<TreeValue>), StoreError>,
    >)
        ensures
            match r {
                None => old(self).pending(store@).is_done() && final(self).pending(
                    store@,
                ).is_done(),
                Some(Ok((path, diff))) => {
                    &&& old(self).pending(store@).items.len() > 0
                    &&& old(self).pending(store@).items[0] == (path@, diff_view(diff))
                    &&& final(self).pending(store@) == old(self).pending(store@).rest()
                },
                Some(Err(e)) => {
                    &&& old(self).pending(store@).items.len() == 0
                    &&& old(self).pending(store@).error == Some(e)
                    &&& final(self).pending(store@).is_done()
                },
            },
    {
        proof {
            use_type_invariant(&*self);
        }
        let mut stack: Vec<DiffFrame> = Vec::new();
        core::mem::swap(&mut self.stack, &mut stack);
        let r = advance_diff(&mut stack, store, self.matcher);
        self.stack = stack;
        r
    }
}

/// The walker over the differences between two trees that stand at the same
/// directory.  It yields full paths, which start with that directory.
pub fn recursive_tree_diff<'matcher, M: Matcher>(
    root1: Tree,
    root2: Tree,
    matcher: &'matcher M,
) -> (r: TreeDiffIterator<'matcher, M>)
    ensures
        forall|store: StoreView| #[trigger]
            r.pending(store) == diff_of(store, *matcher, root1@, root2@),
{
    let dir = root1.dir().clone();
    TreeDiffIterator::new(dir, root1, root2, matcher)
}

} // verus!
