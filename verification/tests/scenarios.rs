use tree_merge::conflict::{Conflict, ConflictPart};
use tree_merge::diff::Diff;
use tree_merge::files::{FnMerger, MergeResult, WholeFileMerger};
use tree_merge::matchers::EverythingMatcher;
use tree_merge::merge::merge_trees;
use tree_merge::repo_path::{RepoPath, RepoPathComponent};
use tree_merge::simplify::simplify_conflict;
use tree_merge::store::{Store, StoreError};
use tree_merge::stored_tree::StoredTree;
use tree_merge::tree::Tree;
use tree_merge::values::{TreeId, TreeValue};

fn name(s: &str) -> RepoPathComponent {
    RepoPathComponent::from_str(s).unwrap()
}

fn path(parts: &[&str]) -> RepoPath {
    let mut p = RepoPath::root();
    for part in parts {
        p = p.join(&name(part));
    }
    p
}

fn file(store: &mut Store, contents: &str) -> TreeValue {
    let id = store.write_file(&RepoPath::root(), &contents.as_bytes().to_vec()).unwrap();
    TreeValue::File { id, executable: false }
}

fn tree_of(store: &mut Store, entries: Vec<(&str, TreeValue)>) -> Tree {
    let mut data = StoredTree::new();
    for (n, v) in entries {
        data.set(name(n), v);
    }
    let id = store.write_tree(&RepoPath::root(), &data).unwrap();
    store.get_tree(&RepoPath::root(), &id).unwrap()
}

fn all_diffs(store: &Store, t1: &Tree, t2: &Tree) -> Vec<(RepoPath, Diff<TreeValue>)> {
    let matcher = EverythingMatcher;
    let mut walker = t1.diff(t2, &matcher);
    let mut out = vec![];
    while let Some(item) = walker.next(store) {
        out.push(item.unwrap());
    }
    out
}

#[test]
fn pure_addition() {
    let mut store = Store::new();
    let x = file(&mut store, "x");
    let t1 = tree_of(&mut store, vec![]);
    let t2 = tree_of(&mut store, vec![("a", x)]);
    let x = file(&mut store, "x");
    assert_eq!(all_diffs(&store, &t1, &t2), vec![(path(&["a"]), Diff::Added(x))]);
}

#[test]
fn modification() {
    let mut store = Store::new();
    let x = file(&mut store, "x");
    let y = file(&mut store, "y");
    let t1 = tree_of(&mut store, vec![("a", x)]);
    let t2 = tree_of(&mut store, vec![("a", y)]);
    let x = file(&mut store, "x");
    let y = file(&mut store, "y");
    assert_eq!(all_diffs(&store, &t1, &t2), vec![(path(&["a"]), Diff::Modified(x, y))]);
}

#[test]
fn directory_replaced_by_file() {
    let mut store = Store::new();
    let one = file(&mut store, "1");
    let big = file(&mut store, "X");
    let inner = tree_of(&mut store, vec![("f", one)]);
    let t1 = tree_of(&mut store, vec![("d", TreeValue::Tree(TreeId(inner.id().0.clone())))]);
    let t2 = tree_of(&mut store, vec![("d", big)]);
    let one = file(&mut store, "1");
    let big = file(&mut store, "X");
    assert_eq!(
        all_diffs(&store, &t1, &t2),
        vec![(path(&["d", "f"]), Diff::Removed(one)), (path(&["d"]), Diff::Added(big))]
    );
}

#[test]
fn clean_three_way_text_merge() {
    let mut store = Store::new();
    let base_file = file(&mut store, "A\nB\nC\n");
    let side1_file = file(&mut store, "A\nB1\nC\n");
    let side2_file = file(&mut store, "A\nB\nC2\n");
    let base = tree_of(&mut store, vec![("f", base_file)]);
    let side1 = tree_of(&mut store, vec![("f", side1_file)]);
    let side2 = tree_of(&mut store, vec![("f", side2_file)]);
    let merger = FnMerger::new(|_base: &Vec<u8>, _side1: &Vec<u8>, _side2: &Vec<u8>| {
        MergeResult::Resolved(b"A\nB1\nC2\n".to_vec())
    });
    let merged_id = merge_trees(&mut store, &merger, &side1, &base, &side2).unwrap();
    let merged = store.get_tree(&RepoPath::root(), &merged_id).unwrap();
    let expected = file(&mut store, "A\nB1\nC2\n");
    assert_eq!(merged.value(&name("f")), Some(&expected));
    match merged.value(&name("f")) {
        Some(TreeValue::File { id, executable }) => {
            assert_eq!(store.read_file(&RepoPath::root(), id).unwrap(), b"A\nB1\nC2\n".to_vec());
            assert!(!*executable);
        }
        other => panic!("unexpected value {:?}", other),
    }
}

#[test]
fn conflict_cancellation() {
    let mut store = Store::new();
    let a = file(&mut store, "A");
    let b = file(&mut store, "B");
    let c = file(&mut store, "C");
    let inner = Conflict {
        removes: vec![ConflictPart { value: a.clone() }],
        adds: vec![ConflictPart { value: b.clone() }, ConflictPart { value: c.clone() }],
    };
    let inner_id = store.write_conflict(&inner).unwrap();
    let outer = Conflict {
        removes: vec![ConflictPart { value: b.clone() }],
        adds: vec![ConflictPart { value: TreeValue::Conflict(inner_id) }],
    };
    let simplified = simplify_conflict(&mut store, &outer).unwrap();
    match simplified {
        Some(TreeValue::Conflict(id)) => {
            let stored = store.read_conflict(&id).unwrap();
            assert_eq!(
                stored,
                Conflict {
                    removes: vec![ConflictPart { value: a }],
                    adds: vec![ConflictPart { value: c }],
                }
            );
        }
        other => panic!("unexpected value {:?}", other),
    }
}

#[test]
fn simplification_collapse_to_value() {
    let mut store = Store::new();
    let x = file(&mut store, "X");
    let conflict = Conflict { removes: vec![], adds: vec![ConflictPart { value: x.clone() }] };
    assert_eq!(simplify_conflict(&mut store, &conflict), Ok(Some(x)));
}

#[test]
fn whole_file_merger_takes_changed_side() {
    let mut store = Store::new();
    let base_file = file(&mut store, "base");
    let side2_file = file(&mut store, "changed");
    let base = tree_of(&mut store, vec![("f", base_file.clone())]);
    let side1 = tree_of(
        &mut store,
        vec![("f", match base_file {
            TreeValue::File { id, .. } => TreeValue::File { id, executable: true },
            other => other,
        })],
    );
    let side2 = tree_of(&mut store, vec![("f", side2_file)]);
    let merged_id = merge_trees(&mut store, &WholeFileMerger, &side1, &base, &side2).unwrap();
    let merged = store.get_tree(&RepoPath::root(), &merged_id).unwrap();
    match merged.value(&name("f")) {
        Some(TreeValue::File { id, executable }) => {
            assert_eq!(store.read_file(&RepoPath::root(), id).unwrap(), b"changed".to_vec());
            assert!(*executable);
        }
        other => panic!("unexpected value {:?}", other),
    }
}

#[test]
fn missing_tree_is_not_found() {
    let store = Store::new();
    assert_eq!(
        store.get_tree(&RepoPath::root(), &TreeId(vec![9, 9])).err(),
        Some(StoreError::NotFound)
    );
}
