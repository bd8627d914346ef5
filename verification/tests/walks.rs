use std::sync::Arc;
use tree_merge::diff::{recursive_tree_diff, Diff};
use tree_merge::matchers::{EverythingMatcher, FilesMatcher, Matcher};
use tree_merge::paired::diff_entries;
use tree_merge::repo_path::{RepoPath, RepoPathComponent};
use tree_merge::store::{Store, StoreError};
use tree_merge::stored_tree::StoredTree;
use tree_merge::tree::Tree;
use tree_merge::values::{ConflictId, FileId, SymlinkId, TreeId, TreeValue};

fn tree_at(dir: RepoPath, id: TreeId, data: StoredTree) -> Tree {
    Tree::new(dir, id, Arc::new(data))
}

fn name(s: &str) -> RepoPathComponent {
    RepoPathComponent::from_str(s).unwrap()
}

fn path(parts: &[&str]) -> RepoPath {
    let mut p = RepoPath::root();
    for part in parts {
        p = p.join(&name(part));
    }
    p
}

fn file(store: &mut Store, contents: &str) -> TreeValue {
    let id = store.write_file(&RepoPath::root(), &contents.as_bytes().to_vec()).unwrap();
    TreeValue::File { id, executable: false }
}

fn data_of(entries: Vec<(&str, TreeValue)>) -> StoredTree {
    let mut data = StoredTree::new();
    for (n, v) in entries {
        data.set(name(n), v);
    }
    data
}

fn tree_of(store: &mut Store, entries: Vec<(&str, TreeValue)>) -> Tree {
    let data = data_of(entries);
    let id = store.write_tree(&RepoPath::root(), &data).unwrap();
    store.get_tree(&RepoPath::root(), &id).unwrap()
}

fn sub(tree: &Tree) -> TreeValue {
    TreeValue::Tree(tree.id().clone())
}

fn all_entries(store: &Store, tree: &Tree) -> Vec<(RepoPath, TreeValue)> {
    let mut walker = tree.entries();
    let mut out = vec![];
    while let Some(item) = walker.next(store) {
        out.push(item.unwrap());
    }
    out
}

fn all_diffs<M: Matcher>(
    store: &Store,
    t1: &Tree,
    t2: &Tree,
    matcher: &M,
) -> Vec<(RepoPath, Diff<TreeValue>)> {
    let mut walker = t1.diff(t2, matcher);
    let mut out = vec![];
    while let Some(item) = walker.next(store) {
        out.push(item.unwrap());
    }
    out
}

fn reversed(diff: Diff<TreeValue>) -> Diff<TreeValue> {
    match diff {
        Diff::Modified(a, b) => Diff::Modified(b, a),
        Diff::Added(a) => Diff::Removed(a),
        Diff::Removed(a) => Diff::Added(a),
    }
}

#[test]
fn entries_come_in_ascending_order_of_paths() {
    let mut store = Store::new();
    let f = file(&mut store, "f");
    let inner = tree_of(
        &mut store,
        vec![("c", TreeValue::Symlink(SymlinkId(vec![7]))), ("b", f.clone())],
    );
    let deeper = tree_of(&mut store, vec![("z", sub(&inner))]);
    let root = tree_of(
        &mut store,
        vec![("e", f.clone()), ("d", sub(&inner)), ("a", f.clone()), ("dd", sub(&deeper))],
    );
    let entries = all_entries(&store, &root);
    let expected = vec![
        (path(&["a"]), f.clone()),
        (path(&["d", "b"]), f.clone()),
        (path(&["d", "c"]), TreeValue::Symlink(SymlinkId(vec![7]))),
        (path(&["dd", "z", "b"]), f.clone()),
        (path(&["dd", "z", "c"]), TreeValue::Symlink(SymlinkId(vec![7]))),
        (path(&["e"]), f.clone()),
    ];
    assert_eq!(entries, expected);
    for i in 1..entries.len() {
        assert!(entries[i - 1].0.lt(&entries[i].0));
        assert!(!entries[i].0.lt(&entries[i - 1].0));
    }
}

#[test]
fn entries_of_the_empty_tree_are_none() {
    let store = Store::new();
    let tree = Tree::null(RepoPath::root());
    assert_eq!(all_entries(&store, &tree), vec![]);
    let mut walker = tree.entries();
    assert_eq!(walker.next(&store), None);
    assert_eq!(walker.next(&store), None);
}

#[test]
fn entries_are_yielded_below_the_directory_of_the_tree() {
    let mut store = Store::new();
    let f = file(&mut store, "f");
    let stored = tree_of(&mut store, vec![("a", f.clone())]);
    let at_dir = store.get_tree(&path(&["x", "y"]), stored.id()).unwrap();
    assert_eq!(all_entries(&store, &at_dir), vec![(path(&["x", "y", "a"]), f)]);
}

#[test]
fn entries_walk_ends_with_the_error_of_a_missing_tree() {
    let mut store = Store::new();
    let f = file(&mut store, "f");
    let data = data_of(vec![
        ("a", f.clone()),
        ("m", TreeValue::Tree(TreeId(vec![1, 2, 3]))),
        ("z", f.clone()),
    ]);
    let tree = tree_at(RepoPath::root(), TreeId(vec![]), data);
    let mut walker = tree.entries();
    assert_eq!(walker.next(&store), Some(Ok((path(&["a"]), f))));
    assert_eq!(walker.next(&store), Some(Err(StoreError::NotFound)));
    assert_eq!(walker.next(&store), None);
}

#[test]
fn every_leaf_is_found_again_by_its_path() {
    let mut store = Store::new();
    let f = file(&mut store, "f");
    let g = file(&mut store, "g");
    let inner = tree_of(&mut store, vec![("b", f.clone()), ("c", g.clone())]);
    let root = tree_of(&mut store, vec![("a", g.clone()), ("d", sub(&inner))]);
    let entries = all_entries(&store, &root);
    assert_eq!(entries.len(), 3);
    for (p, v) in entries {
        assert_eq!(root.path_value(&store, &p), Ok(Some(v)));
    }
    assert_eq!(root.path_value(&store, &path(&["d"])), Ok(Some(sub(&inner))));
    assert_eq!(root.path_value(&store, &path(&["d", "x"])), Ok(None));
    assert_eq!(root.path_value(&store, &path(&["a", "x"])), Ok(None));
    assert_eq!(root.path_value(&store, &path(&["q", "x"])), Ok(None));
    assert_eq!(
        root.path_value(&store, &RepoPath::root()),
        Ok(Some(TreeValue::Tree(root.id().clone())))
    );
}

#[test]
fn path_value_reports_a_missing_tree_on_the_way() {
    let store = Store::new();
    let data = data_of(vec![("m", TreeValue::Tree(TreeId(vec![1, 2, 3])))]);
    let tree = tree_at(RepoPath::root(), TreeId(vec![]), data);
    assert_eq!(tree.path_value(&store, &path(&["m", "x"])), Err(StoreError::NotFound));
    assert_eq!(
        tree.path_value(&store, &path(&["m"])),
        Ok(Some(TreeValue::Tree(TreeId(vec![1, 2, 3]))))
    );
}

#[test]
fn sub_tree_is_there_for_trees_only() {
    let mut store = Store::new();
    let f = file(&mut store, "f");
    let inner = tree_of(&mut store, vec![("b", f.clone())]);
    let root = tree_of(&mut store, vec![("a", f.clone()), ("d", sub(&inner))]);
    let hydrated = root.sub_tree(&store, &name("d")).unwrap().unwrap();
    assert_eq!(hydrated.dir(), &path(&["d"]));
    assert_eq!(hydrated.id(), inner.id());
    assert_eq!(hydrated.data(), inner.data());
    assert_eq!(root.sub_tree(&store, &name("a")), Ok(None));
    assert_eq!(root.sub_tree(&store, &name("nope")), Ok(None));
    let known = root.known_sub_tree(&store, &name("other"), inner.id()).unwrap();
    assert_eq!(known.dir(), &path(&["other"]));
    assert_eq!(known.data(), inner.data());
    assert_eq!(
        root.known_sub_tree(&store, &name("d"), &TreeId(vec![5])).err(),
        Some(StoreError::NotFound)
    );
}

#[test]
fn lookups_in_one_directory() {
    let mut store = Store::new();
    let f = file(&mut store, "f");
    let g = file(&mut store, "g");
    let root = tree_of(&mut store, vec![("b", g.clone()), ("a", f.clone())]);
    assert_eq!(root.value(&name("a")), Some(&f));
    assert_eq!(root.value(&name("c")), None);
    let entry = root.entry(&name("b")).unwrap();
    assert_eq!(entry.name(), &name("b"));
    assert_eq!(entry.value(), &g);
    assert!(root.entry(&name("c")).is_none());
    let listed = root.entries_non_recursive();
    assert_eq!(listed.len(), 2);
    assert_eq!(listed[0], (name("a"), f));
    assert_eq!(listed[1], (name("b"), g));
}

#[test]
fn paired_walk_gives_each_differing_name_once() {
    let mut store = Store::new();
    let f = file(&mut store, "f");
    let g = file(&mut store, "g");
    let t1 = tree_of(
        &mut store,
        vec![("a", f.clone()), ("b", f.clone()), ("c", f.clone()), ("e", f.clone())],
    );
    let t2 = tree_of(
        &mut store,
        vec![("b", f.clone()), ("c", g.clone()), ("d", g.clone()), ("f", g.clone())],
    );
    let matcher = EverythingMatcher;
    let mut walk = diff_entries(&t1, &t2, &matcher);
    assert_eq!(walk.next(), Some((name("a"), Some(&f), None)));
    assert_eq!(walk.next(), Some((name("c"), Some(&f), Some(&g))));
    assert_eq!(walk.next(), Some((name("d"), None, Some(&g))));
    assert_eq!(walk.next(), Some((name("e"), Some(&f), None)));
    assert_eq!(walk.next(), Some((name("f"), None, Some(&g))));
    assert_eq!(walk.next(), None);
    assert_eq!(walk.next(), None);
}

#[test]
fn paired_walk_never_asks_the_matcher() {
    let mut store = Store::new();
    let f = file(&mut store, "f");
    let t1 = tree_of(&mut store, vec![]);
    let t2 = tree_of(&mut store, vec![("a", f.clone())]);
    let matcher = FilesMatcher::new(vec![]);
    let mut walk = diff_entries(&t1, &t2, &matcher);
    assert_eq!(walk.next(), Some((name("a"), None, Some(&f))));
    assert_eq!(walk.next(), None);
}

#[test]
fn diff_of_a_tree_with_itself_is_empty() {
    let mut store = Store::new();
    let f = file(&mut store, "f");
    let inner = tree_of(&mut store, vec![("b", f.clone())]);
    let root = tree_of(&mut store, vec![("a", f.clone()), ("d", sub(&inner))]);
    assert_eq!(all_diffs(&store, &root, &root, &EverythingMatcher), vec![]);
    assert_eq!(all_diffs(&store, &root, &root, &FilesMatcher::new(vec![path(&["a"])])), vec![]);
    let summary = root.diff_summary(&store, &root, &EverythingMatcher).unwrap();
    assert!(summary.is_empty());
}

#[test]
fn reversed_diff_is_the_diff_seen_from_the_other_side() {
    let mut store = Store::new();
    let f = file(&mut store, "f");
    let g = file(&mut store, "g");
    let inner1 = tree_of(&mut store, vec![("x", f.clone()), ("y", f.clone())]);
    let inner2 = tree_of(&mut store, vec![("y", g.clone()), ("z", g.clone())]);
    let t1 = tree_of(
        &mut store,
        vec![("a", f.clone()), ("d", sub(&inner1)), ("r", sub(&inner1)), ("s", f.clone())],
    );
    let t2 = tree_of(
        &mut store,
        vec![("b", g.clone()), ("d", sub(&inner2)), ("r", g.clone()), ("s", sub(&inner2))],
    );
    let forth = all_diffs(&store, &t1, &t2, &EverythingMatcher);
    let back = all_diffs(&store, &t2, &t1, &EverythingMatcher);
    assert_eq!(forth.len(), 11);
    assert_eq!(back.len(), forth.len());
    let mut mirrored: Vec<(RepoPath, Diff<TreeValue>)> =
        forth.into_iter().map(|(p, d)| (p, reversed(d))).collect();
    for item in back {
        let at = mirrored.iter().position(|m| *m == item).unwrap();
        mirrored.remove(at);
    }
    assert!(mirrored.is_empty());
}

#[test]
fn file_replaced_by_directory() {
    let mut store = Store::new();
    let one = file(&mut store, "1");
    let big = file(&mut store, "X");
    let inner = tree_of(&mut store, vec![("f", one.clone()), ("g", one.clone())]);
    let t1 = tree_of(&mut store, vec![("d", big.clone())]);
    let t2 = tree_of(&mut store, vec![("d", sub(&inner))]);
    assert_eq!(
        all_diffs(&store, &t1, &t2, &EverythingMatcher),
        vec![
            (path(&["d"]), Diff::Removed(big)),
            (path(&["d", "f"]), Diff::Added(one.clone())),
            (path(&["d", "g"]), Diff::Added(one)),
        ]
    );
}

#[test]
fn directory_replaced_by_file_yields_the_file_last() {
    let mut store = Store::new();
    let one = file(&mut store, "1");
    let big = file(&mut store, "X");
    let deep = tree_of(&mut store, vec![("h", one.clone())]);
    let inner = tree_of(&mut store, vec![("f", one.clone()), ("g", sub(&deep))]);
    let t1 = tree_of(&mut store, vec![("d", sub(&inner)), ("e", one.clone())]);
    let t2 = tree_of(&mut store, vec![("d", big.clone())]);
    assert_eq!(
        all_diffs(&store, &t1, &t2, &EverythingMatcher),
        vec![
            (path(&["d", "f"]), Diff::Removed(one.clone())),
            (path(&["d", "g", "h"]), Diff::Removed(one.clone())),
            (path(&["d"]), Diff::Added(big)),
            (path(&["e"]), Diff::Removed(one)),
        ]
    );
}

#[test]
fn matcher_filters_leaves_and_not_directories() {
    let mut store = Store::new();
    let one = file(&mut store, "1");
    let two = file(&mut store, "2");
    let inner1 = tree_of(&mut store, vec![("f", one.clone()), ("g", one.clone())]);
    let inner2 = tree_of(&mut store, vec![("f", two.clone()), ("g", two.clone())]);
    let t1 = tree_of(&mut store, vec![("a", one.clone()), ("d", sub(&inner1))]);
    let t2 = tree_of(&mut store, vec![("a", two.clone()), ("d", sub(&inner2))]);
    let matcher = FilesMatcher::new(vec![path(&["d", "g"]), path(&["nothing"])]);
    assert!(matcher.matches(&path(&["d", "g"])));
    assert!(!matcher.matches(&path(&["d"])));
    assert_eq!(
        all_diffs(&store, &t1, &t2, &matcher),
        vec![(path(&["d", "g"]), Diff::Modified(one.clone(), two.clone()))]
    );
    assert_eq!(all_diffs(&store, &t1, &t2, &FilesMatcher::new(vec![])), vec![]);
    assert_eq!(all_diffs(&store, &t1, &t2, &EverythingMatcher).len(), 3);
}

#[test]
fn matcher_filters_the_file_that_replaces_a_directory() {
    let mut store = Store::new();
    let one = file(&mut store, "1");
    let big = file(&mut store, "X");
    let inner = tree_of(&mut store, vec![("f", one.clone())]);
    let t1 = tree_of(&mut store, vec![("d", sub(&inner))]);
    let t2 = tree_of(&mut store, vec![("d", big.clone())]);
    let only_below = FilesMatcher::new(vec![path(&["d", "f"])]);
    assert_eq!(
        all_diffs(&store, &t1, &t2, &only_below),
        vec![(path(&["d", "f"]), Diff::Removed(one.clone()))]
    );
    let only_file = FilesMatcher::new(vec![path(&["d"])]);
    assert_eq!(all_diffs(&store, &t1, &t2, &only_file), vec![(path(&["d"]), Diff::Added(big.clone()))]);
    assert_eq!(
        all_diffs(&store, &t2, &t1, &only_file),
        vec![(path(&["d"]), Diff::Removed(big))]
    );
}

#[test]
fn diff_walk_ends_with_the_error_of_a_missing_tree() {
    let mut store = Store::new();
    let f = file(&mut store, "f");
    let t1 = tree_at(
        RepoPath::root(),
        TreeId(vec![]),
        data_of(vec![("a", f.clone()), ("m", TreeValue::Tree(TreeId(vec![1]))), ("z", f.clone())]),
    );
    let t2 = Tree::null(RepoPath::root());
    let matcher = EverythingMatcher;
    let mut walker = t1.diff(&t2, &matcher);
    assert_eq!(walker.next(&store), Some(Ok((path(&["a"]), Diff::Removed(f)))));
    assert_eq!(walker.next(&store), Some(Err(StoreError::NotFound)));
    assert_eq!(walker.next(&store), None);
    assert_eq!(t1.diff_summary(&store, &t2, &matcher).err(), Some(StoreError::NotFound));
}

#[test]
fn diff_paths_start_at_the_directory_of_the_trees() {
    let mut store = Store::new();
    let f = file(&mut store, "f");
    let g = file(&mut store, "g");
    let inner = tree_of(&mut store, vec![("b", g.clone())]);
    let stored = tree_of(&mut store, vec![("a", f.clone()), ("d", sub(&inner))]);
    let t1 = store.get_tree(&path(&["x", "y"]), stored.id()).unwrap();
    let t2 = Tree::null(path(&["x", "y"]));
    let matcher = EverythingMatcher;
    let mut walker = recursive_tree_diff(t1.clone(), t2.clone(), &matcher);
    assert_eq!(walker.next(&store), Some(Ok((path(&["x", "y", "a"]), Diff::Removed(f.clone())))));
    assert_eq!(
        walker.next(&store),
        Some(Ok((path(&["x", "y", "d", "b"]), Diff::Removed(g.clone()))))
    );
    assert_eq!(walker.next(&store), None);
    assert_eq!(
        all_diffs(&store, &t2, &t1, &matcher),
        vec![
            (path(&["x", "y", "a"]), Diff::Added(f.clone())),
            (path(&["x", "y", "d", "b"]), Diff::Added(g.clone())),
        ]
    );
    let only = FilesMatcher::new(vec![path(&["x", "y", "a"]), path(&["a"]), path(&["d", "b"])]);
    assert_eq!(
        all_diffs(&store, &t1, &t2, &only),
        vec![(path(&["x", "y", "a"]), Diff::Removed(f.clone()))]
    );
    let summary = t1.diff_summary(&store, &t2, &matcher).unwrap();
    assert_eq!(summary.removed, vec![path(&["x", "y", "a"]), path(&["x", "y", "d", "b"])]);
    let entries: Vec<RepoPath> = all_entries(&store, &t1).into_iter().map(|e| e.0).collect();
    assert_eq!(entries, summary.removed);
}

#[test]
fn diff_summary_sorts_each_list() {
    let mut store = Store::new();
    let one = file(&mut store, "1");
    let two = file(&mut store, "2");
    let inner1 = tree_of(&mut store, vec![("f", one.clone()), ("g", one.clone())]);
    let inner2 = tree_of(&mut store, vec![("g", two.clone()), ("h", two.clone())]);
    let t1 = tree_of(
        &mut store,
        vec![("a", one.clone()), ("d", sub(&inner1)), ("k", sub(&inner1)), ("z", one.clone())],
    );
    let t2 = tree_of(
        &mut store,
        vec![("a", two.clone()), ("b", two.clone()), ("d", sub(&inner2)), ("k", two.clone())],
    );
    let summary = t1.diff_summary(&store, &t2, &EverythingMatcher).unwrap();
    assert!(!summary.is_empty());
    assert_eq!(summary.modified, vec![path(&["a"]), path(&["d", "g"])]);
    assert_eq!(summary.added, vec![path(&["b"]), path(&["d", "h"]), path(&["k"])]);
    assert_eq!(
        summary.removed,
        vec![path(&["d", "f"]), path(&["k", "f"]), path(&["k", "g"]), path(&["z"])]
    );
}

#[test]
fn conflicts_are_listed_in_walk_order() {
    let mut store = Store::new();
    let f = file(&mut store, "f");
    let c1 = TreeValue::Conflict(ConflictId(vec![1]));
    let c2 = TreeValue::Conflict(ConflictId(vec![2]));
    let inner = tree_of(&mut store, vec![("y", c2.clone()), ("x", f.clone())]);
    let root = tree_of(&mut store, vec![("z", c1.clone()), ("d", sub(&inner)), ("a", f.clone())]);
    assert_eq!(
        root.conflicts(&store),
        Ok(vec![(path(&["d", "y"]), ConflictId(vec![2])), (path(&["z"]), ConflictId(vec![1]))])
    );
    assert_eq!(root.has_conflict(&store), Ok(true));
    let clean = tree_of(&mut store, vec![("a", f.clone())]);
    assert_eq!(clean.conflicts(&store), Ok(vec![]));
    assert_eq!(clean.has_conflict(&store), Ok(false));
    let broken = tree_at(
        RepoPath::root(),
        TreeId(vec![]),
        data_of(vec![("a", c1), ("m", TreeValue::Tree(TreeId(vec![1])))]),
    );
    assert_eq!(broken.conflicts(&store), Err(StoreError::NotFound));
    assert_eq!(broken.has_conflict(&store), Err(StoreError::NotFound));
}

#[test]
fn diff_sides_as_options() {
    let modified = Diff::Modified(1u8, 2u8);
    let added = Diff::Added(3u8);
    let removed = Diff::Removed(4u8);
    assert_eq!(modified.as_options(), (Some(&1), Some(&2)));
    assert_eq!(added.as_options(), (None, Some(&3)));
    assert_eq!(removed.as_options(), (Some(&4), None));
    assert_eq!(modified.into_options(), (Some(1), Some(2)));
    assert_eq!(added.into_options(), (None, Some(3)));
    assert_eq!(removed.into_options(), (Some(4), None));
}

#[test]
fn null_tree_has_no_identifier_and_no_entries() {
    let tree = Tree::null(path(&["a"]));
    assert_eq!(tree.id(), &TreeId(vec![]));
    assert_eq!(tree.dir(), &path(&["a"]));
    assert!(tree.data().is_empty());
    let made = tree_at(path(&["b"]), TreeId(vec![4]), StoredTree::new());
    assert_eq!(made.id(), &TreeId(vec![4]));
    assert_eq!(made.dir(), &path(&["b"]));
    assert_eq!(made.data().len(), 0);
    let _ = FileId(vec![]);
}

#[test]
fn views_of_one_tree_share_their_entries() {
    let mut store = Store::new();
    let f = file(&mut store, "f");
    let tree = tree_of(&mut store, vec![("a", f.clone()), ("b", f.clone())]);
    let copy = tree.clone();
    assert_eq!(copy, tree);
    assert!(std::ptr::eq(copy.data(), tree.data()));
    let again = store.get_tree(&path(&["elsewhere"]), tree.id()).unwrap();
    assert!(std::ptr::eq(again.data(), tree.data()));
    assert_eq!(again.dir(), &path(&["elsewhere"]));
    let shared = Arc::new(data_of(vec![("a", f.clone())]));
    let made = Tree::new(RepoPath::root(), TreeId(vec![1]), shared.clone());
    assert!(std::ptr::eq(made.data(), &*shared));
    assert!(std::ptr::eq(made.clone().data(), &*shared));
}
