use std::sync::Arc;
use tree_merge::conflict::{Conflict, ConflictPart};
use tree_merge::files::{FnMerger, MergeResult, WholeFileMerger};
use tree_merge::merge::{merge_tree_value, merge_trees};
use tree_merge::repo_path::{RepoPath, RepoPathComponent};
use tree_merge::simplify::{conflict_part_to_conflict, simplify_conflict};
use tree_merge::store::{Store, StoreError};
use tree_merge::stored_tree::StoredTree;
use tree_merge::tree::Tree;
use tree_merge::values::{ConflictId, FileId, SymlinkId, TreeId, TreeValue};

fn tree_at(dir: RepoPath, id: TreeId, data: StoredTree) -> Tree {
    Tree::new(dir, id, Arc::new(data))
}

fn name(s: &str) -> RepoPathComponent {
    RepoPathComponent::from_str(s).unwrap()
}

fn file(store: &mut Store, contents: &str) -> TreeValue {
    let id = store.write_file(&RepoPath::root(), &contents.as_bytes().to_vec()).unwrap();
    TreeValue::File { id, executable: false }
}

fn exec_file(store: &mut Store, contents: &str) -> TreeValue {
    let id = store.write_file(&RepoPath::root(), &contents.as_bytes().to_vec()).unwrap();
    TreeValue::File { id, executable: true }
}

fn data_of(entries: Vec<(&str, TreeValue)>) -> StoredTree {
    let mut data = StoredTree::new();
    for (n, v) in entries {
        data.set(name(n), v);
    }
    data
}

fn tree_of(store: &mut Store, entries: Vec<(&str, TreeValue)>) -> Tree {
    let data = data_of(entries);
    let id = store.write_tree(&RepoPath::root(), &data).unwrap();
    store.get_tree(&RepoPath::root(), &id).unwrap()
}

fn sub(tree: &Tree) -> TreeValue {
    TreeValue::Tree(tree.id().clone())
}

fn part(value: &TreeValue) -> ConflictPart {
    ConflictPart { value: value.clone() }
}

fn merged(store: &mut Store, side1: &Tree, base: &Tree, side2: &Tree) -> Tree {
    let id = merge_trees(store, &WholeFileMerger, side1, base, side2).unwrap();
    store.get_tree(&RepoPath::root(), &id).unwrap()
}

fn stored_conflict(store: &Store, value: Option<&TreeValue>) -> Conflict {
    match value {
        Some(TreeValue::Conflict(id)) => store.read_conflict(id).unwrap(),
        other => panic!("no conflict: {:?}", other),
    }
}

#[test]
fn merging_a_tree_with_itself_gives_the_tree() {
    let mut store = Store::new();
    let f = file(&mut store, "f");
    let t = tree_of(&mut store, vec![("a", f)]);
    assert_eq!(merge_trees(&mut store, &WholeFileMerger, &t, &t, &t), Ok(t.id().clone()));
    let unknown = tree_at(RepoPath::root(), TreeId(vec![42]), StoredTree::new());
    assert_eq!(
        merge_trees(&mut store, &WholeFileMerger, &unknown, &unknown, &unknown),
        Ok(TreeId(vec![42]))
    );
}

#[test]
fn a_side_that_is_the_base_gives_way_to_the_other() {
    let mut store = Store::new();
    let f = file(&mut store, "f");
    let g = file(&mut store, "g");
    let t1 = tree_of(&mut store, vec![("a", f)]);
    let t2 = tree_of(&mut store, vec![("a", g)]);
    assert_eq!(merge_trees(&mut store, &WholeFileMerger, &t1, &t1, &t2), Ok(t2.id().clone()));
    assert_eq!(merge_trees(&mut store, &WholeFileMerger, &t1, &t2, &t2), Ok(t1.id().clone()));
    assert_eq!(merge_trees(&mut store, &WholeFileMerger, &t2, &t1, &t1), Ok(t2.id().clone()));
    assert_eq!(merge_trees(&mut store, &WholeFileMerger, &t1, &t2, &t1), Ok(t1.id().clone()));
}

#[test]
fn changes_of_both_sides_are_taken() {
    let mut store = Store::new();
    let f = file(&mut store, "f");
    let g = file(&mut store, "g");
    let h = file(&mut store, "h");
    let base = tree_of(
        &mut store,
        vec![("keep", f.clone()), ("gone2", f.clone()), ("mod2", f.clone()), ("mod1", f.clone())],
    );
    let side1 = tree_of(
        &mut store,
        vec![
            ("keep", f.clone()),
            ("gone2", f.clone()),
            ("mod2", f.clone()),
            ("mod1", g.clone()),
            ("new1", h.clone()),
        ],
    );
    let side2 = tree_of(
        &mut store,
        vec![("keep", f.clone()), ("mod2", h.clone()), ("mod1", f.clone()), ("new2", g.clone())],
    );
    let result = merged(&mut store, &side1, &base, &side2);
    let expected = data_of(vec![
        ("keep", f.clone()),
        ("mod2", h.clone()),
        ("mod1", g.clone()),
        ("new1", h.clone()),
        ("new2", g.clone()),
    ]);
    assert_eq!(result.data(), &expected);
}

#[test]
fn sides_that_changed_alike_agree() {
    let mut store = Store::new();
    let f = file(&mut store, "f");
    let g = file(&mut store, "g");
    let base = tree_of(&mut store, vec![("a", f.clone()), ("b", f.clone()), ("x", f.clone())]);
    let side1 = tree_of(&mut store, vec![("a", g.clone()), ("c", g.clone()), ("x", f.clone())]);
    let side2 = tree_of(&mut store, vec![("a", g.clone()), ("c", g.clone()), ("x", g.clone())]);
    let result = merged(&mut store, &side1, &base, &side2);
    assert_eq!(
        result.data(),
        &data_of(vec![("a", g.clone()), ("c", g.clone()), ("x", g.clone())])
    );
}

#[test]
fn sub_trees_are_merged_as_trees() {
    let mut store = Store::new();
    let f = file(&mut store, "f");
    let g = file(&mut store, "g");
    let h = file(&mut store, "h");
    let base_d = tree_of(&mut store, vec![("x", f.clone()), ("y", f.clone())]);
    let side1_d = tree_of(&mut store, vec![("x", g.clone()), ("y", f.clone())]);
    let side2_d = tree_of(&mut store, vec![("x", f.clone()), ("y", h.clone())]);
    let base = tree_of(&mut store, vec![("d", sub(&base_d))]);
    let side1 = tree_of(&mut store, vec![("d", sub(&side1_d))]);
    let side2 = tree_of(&mut store, vec![("d", sub(&side2_d))]);
    let result = merged(&mut store, &side1, &base, &side2);
    let inner = result.sub_tree(&store, &name("d")).unwrap().unwrap();
    assert_eq!(inner.data(), &data_of(vec![("x", g.clone()), ("y", h.clone())]));
    assert_eq!(result.data().len(), 1);
}

#[test]
fn a_sub_tree_that_merges_to_nothing_leaves_no_entry() {
    let mut store = Store::new();
    let f = file(&mut store, "f");
    let base_d = tree_of(&mut store, vec![("x", f.clone()), ("y", f.clone())]);
    let side1_d = tree_of(&mut store, vec![("x", f.clone())]);
    let side2_d = tree_of(&mut store, vec![("y", f.clone())]);
    let base = tree_of(&mut store, vec![("d", sub(&base_d))]);
    let side1 = tree_of(&mut store, vec![("d", sub(&side1_d))]);
    let side2 = tree_of(&mut store, vec![("d", sub(&side2_d))]);
    let id = merge_trees(&mut store, &WholeFileMerger, &side1, &base, &side2).unwrap();
    assert_eq!(&id, store.empty_tree_id());
    let other = tree_of(&mut store, vec![("d", sub(&side1_d)), ("k", f.clone())]);
    let result = merged(&mut store, &other, &base, &side2);
    assert_eq!(result.data(), &data_of(vec![("k", f.clone())]));
}

#[test]
fn executable_flag_follows_the_side_that_changed_it() {
    let mut store = Store::new();
    let dir = RepoPath::root();
    let n = name("f");
    let settle = FnMerger::new(|_b: &Vec<u8>, _s1: &Vec<u8>, _s2: &Vec<u8>| {
        MergeResult::Resolved(b"merged".to_vec())
    });
    let cases = [
        (false, false, true, true),
        (false, true, false, true),
        (false, true, true, true),
        (true, true, false, false),
        (true, false, true, false),
        (true, false, false, false),
        (false, false, false, false),
        (true, true, true, true),
    ];
    for (base_x, side1_x, side2_x, expected) in cases {
        let base = TreeValue::File { id: store.write_file(&dir, &b"b".to_vec()).unwrap(), executable: base_x };
        let side1 = TreeValue::File { id: store.write_file(&dir, &b"1".to_vec()).unwrap(), executable: side1_x };
        let side2 = TreeValue::File { id: store.write_file(&dir, &b"2".to_vec()).unwrap(), executable: side2_x };
        let value =
            merge_tree_value(&mut store, &settle, &dir, &n, Some(&base), Some(&side1), Some(&side2))
                .unwrap();
        match value {
            Some(TreeValue::File { id, executable }) => {
                assert_eq!(store.read_file(&dir, &id).unwrap(), b"merged".to_vec());
                assert_eq!(executable, expected);
            }
            other => panic!("unexpected value {:?}", other),
        }
    }
}

#[test]
fn files_that_do_not_merge_become_a_conflict() {
    let mut store = Store::new();
    let b = file(&mut store, "base");
    let s1 = exec_file(&mut store, "one");
    let s2 = file(&mut store, "two");
    let base = tree_of(&mut store, vec![("f", b.clone())]);
    let side1 = tree_of(&mut store, vec![("f", s1.clone())]);
    let side2 = tree_of(&mut store, vec![("f", s2.clone())]);
    let result = merged(&mut store, &side1, &base, &side2);
    assert_eq!(
        stored_conflict(&store, result.value(&name("f"))),
        Conflict { removes: vec![part(&b)], adds: vec![part(&s1), part(&s2)] }
    );
    assert_eq!(result.has_conflict(&store), Ok(true));
}

#[test]
fn the_merger_is_given_the_three_contents() {
    let mut store = Store::new();
    let b = file(&mut store, "base");
    let s1 = file(&mut store, "one");
    let s2 = file(&mut store, "two");
    let joining = FnMerger::new(|base: &Vec<u8>, side1: &Vec<u8>, side2: &Vec<u8>| {
        let mut all = base.clone();
        all.extend_from_slice(side1);
        all.extend_from_slice(side2);
        MergeResult::Resolved(all)
    });
    let value = merge_tree_value(
        &mut store,
        &joining,
        &RepoPath::root(),
        &name("f"),
        Some(&b),
        Some(&s1),
        Some(&s2),
    )
    .unwrap();
    match value {
        Some(TreeValue::File { id, executable }) => {
            assert_eq!(store.read_file(&RepoPath::root(), &id).unwrap(), b"baseonetwo".to_vec());
            assert!(!executable);
        }
        other => panic!("unexpected value {:?}", other),
    }
    let refusing =
        FnMerger::new(|_b: &Vec<u8>, _s1: &Vec<u8>, _s2: &Vec<u8>| MergeResult::Conflict(vec![]));
    let value = merge_tree_value(
        &mut store,
        &refusing,
        &RepoPath::root(),
        &name("f"),
        Some(&b),
        Some(&s1),
        Some(&s2),
    )
    .unwrap();
    assert_eq!(
        stored_conflict(&store, value.as_ref()),
        Conflict { removes: vec![part(&b)], adds: vec![part(&s1), part(&s2)] }
    );
}

#[test]
fn a_change_against_a_removal_is_a_conflict() {
    let mut store = Store::new();
    let f = file(&mut store, "f");
    let g = file(&mut store, "g");
    let base = tree_of(&mut store, vec![("a", f.clone()), ("b", f.clone())]);
    let side1 = tree_of(&mut store, vec![("a", g.clone())]);
    let side2 = tree_of(&mut store, vec![("b", g.clone())]);
    let result = merged(&mut store, &side1, &base, &side2);
    assert_eq!(
        stored_conflict(&store, result.value(&name("a"))),
        Conflict { removes: vec![part(&f)], adds: vec![part(&g)] }
    );
    assert_eq!(
        stored_conflict(&store, result.value(&name("b"))),
        Conflict { removes: vec![part(&f)], adds: vec![part(&g)] }
    );
    assert_eq!(result.value(&name("a")), result.value(&name("b")));
}

#[test]
fn two_additions_of_different_values_are_a_conflict() {
    let mut store = Store::new();
    let f = file(&mut store, "f");
    let link = TreeValue::Symlink(SymlinkId(vec![3]));
    let base = tree_of(&mut store, vec![]);
    let side1 = tree_of(&mut store, vec![("a", f.clone())]);
    let side2 = tree_of(&mut store, vec![("a", link.clone())]);
    let result = merged(&mut store, &side1, &base, &side2);
    assert_eq!(
        stored_conflict(&store, result.value(&name("a"))),
        Conflict { removes: vec![], adds: vec![part(&f), part(&link)] }
    );
}

#[test]
fn a_tree_against_a_file_is_a_conflict() {
    let mut store = Store::new();
    let f = file(&mut store, "f");
    let g = file(&mut store, "g");
    let d = tree_of(&mut store, vec![("x", f.clone())]);
    let base = tree_of(&mut store, vec![("a", f.clone())]);
    let side1 = tree_of(&mut store, vec![("a", sub(&d))]);
    let side2 = tree_of(&mut store, vec![("a", g.clone())]);
    let result = merged(&mut store, &side1, &base, &side2);
    assert_eq!(
        stored_conflict(&store, result.value(&name("a"))),
        Conflict { removes: vec![part(&f)], adds: vec![part(&sub(&d)), part(&g)] }
    );
}

#[test]
fn missing_objects_end_the_merge() {
    let mut store = Store::new();
    let f = file(&mut store, "f");
    let g = file(&mut store, "g");
    let lost = TreeValue::File { id: FileId(vec![1, 2]), executable: false };
    let dir = RepoPath::root();
    assert_eq!(
        merge_tree_value(&mut store, &WholeFileMerger, &dir, &name("a"), Some(&f), Some(&g), Some(&lost)),
        Err(StoreError::NotFound)
    );
    let t = TreeValue::Tree(store.empty_tree_id().clone());
    let lost_tree = TreeValue::Tree(TreeId(vec![9]));
    assert_eq!(
        merge_tree_value(&mut store, &WholeFileMerger, &dir, &name("a"), Some(&t), Some(&t), Some(&lost_tree)),
        Err(StoreError::NotFound)
    );
    let lost_conflict = TreeValue::Conflict(ConflictId(vec![9]));
    assert_eq!(
        merge_tree_value(&mut store, &WholeFileMerger, &dir, &name("a"), Some(&f), Some(&lost_conflict), None),
        Err(StoreError::NotFound)
    );
    let base = tree_at(dir.clone(), TreeId(vec![1]), data_of(vec![("a", f.clone())]));
    let side1 = tree_at(dir.clone(), TreeId(vec![2]), data_of(vec![("a", g.clone())]));
    let side2 = tree_at(dir.clone(), TreeId(vec![3]), data_of(vec![("a", lost.clone())]));
    assert_eq!(
        merge_trees(&mut store, &WholeFileMerger, &side1, &base, &side2),
        Err(StoreError::NotFound)
    );
}

#[test]
fn rebasing_there_and_back_cancels() {
    let mut store = Store::new();
    let a = file(&mut store, "A");
    let b = file(&mut store, "B");
    let c = file(&mut store, "C");
    let inner = Conflict { removes: vec![part(&a)], adds: vec![part(&b), part(&c)] };
    let inner_id = store.write_conflict(&inner).unwrap();
    let outer = Conflict {
        removes: vec![part(&b)],
        adds: vec![part(&a), part(&TreeValue::Conflict(inner_id))],
    };
    assert_eq!(simplify_conflict(&mut store, &outer), Ok(Some(c)));
    assert_eq!(store.read_conflict(&ConflictId(1u64.to_le_bytes().to_vec())), Err(StoreError::NotFound));
}

#[test]
fn simplifying_twice_is_simplifying_once() {
    let mut store = Store::new();
    let a = file(&mut store, "A");
    let b = file(&mut store, "B");
    let c = file(&mut store, "C");
    let d = file(&mut store, "D");
    let inner = Conflict { removes: vec![part(&a)], adds: vec![part(&b), part(&c)] };
    let inner_id = store.write_conflict(&inner).unwrap();
    let outer = Conflict {
        removes: vec![part(&c)],
        adds: vec![part(&d), part(&TreeValue::Conflict(inner_id))],
    };
    let once = simplify_conflict(&mut store, &outer).unwrap();
    let left = stored_conflict(&store, once.as_ref());
    assert_eq!(left, Conflict { removes: vec![part(&a)], adds: vec![part(&d), part(&b)] });
    let twice = simplify_conflict(&mut store, &left).unwrap();
    assert_eq!(twice, once);
    let wrapped = Conflict { removes: vec![], adds: vec![part(once.as_ref().unwrap())] };
    assert_eq!(simplify_conflict(&mut store, &wrapped).unwrap(), once);
}

#[test]
fn each_add_cancels_the_first_equal_remove() {
    let mut store = Store::new();
    let a = file(&mut store, "A");
    let b = file(&mut store, "B");
    let x = file(&mut store, "X");
    let y = file(&mut store, "Y");
    let conflict = Conflict {
        removes: vec![part(&b), part(&a), part(&b)],
        adds: vec![part(&x), part(&b), part(&y)],
    };
    let value = simplify_conflict(&mut store, &conflict).unwrap();
    assert_eq!(
        stored_conflict(&store, value.as_ref()),
        Conflict { removes: vec![part(&a), part(&b)], adds: vec![part(&x), part(&y)] }
    );
}

#[test]
fn equal_adds_are_kept_apart() {
    let mut store = Store::new();
    let a = file(&mut store, "A");
    let conflict = Conflict { removes: vec![], adds: vec![part(&a), part(&a)] };
    let value = simplify_conflict(&mut store, &conflict).unwrap();
    assert_eq!(stored_conflict(&store, value.as_ref()), conflict);
    let b = file(&mut store, "B");
    let three = Conflict { removes: vec![part(&a)], adds: vec![part(&b), part(&a), part(&b)] };
    let value = simplify_conflict(&mut store, &three).unwrap();
    assert_eq!(
        stored_conflict(&store, value.as_ref()),
        Conflict { removes: vec![], adds: vec![part(&b), part(&b)] }
    );
}

#[test]
fn a_conflict_without_adds_is_no_value() {
    let mut store = Store::new();
    let a = file(&mut store, "A");
    let b = file(&mut store, "B");
    let gone = Conflict { removes: vec![part(&a)], adds: vec![part(&a)] };
    assert_eq!(simplify_conflict(&mut store, &gone), Ok(None));
    let only_removes = Conflict { removes: vec![part(&a), part(&b)], adds: vec![] };
    assert_eq!(simplify_conflict(&mut store, &only_removes), Ok(None));
    assert_eq!(simplify_conflict(&mut store, &Conflict::default()), Ok(None));
    assert_eq!(store.read_conflict(&ConflictId(0u64.to_le_bytes().to_vec())), Err(StoreError::NotFound));
}

#[test]
fn a_removed_conflict_is_spliced_in_with_its_sides_exchanged() {
    let mut store = Store::new();
    let a = file(&mut store, "A");
    let b = file(&mut store, "B");
    let c = file(&mut store, "C");
    let inner = Conflict { removes: vec![part(&a)], adds: vec![part(&b), part(&c)] };
    let inner_id = store.write_conflict(&inner).unwrap();
    let outer = Conflict {
        removes: vec![part(&TreeValue::Conflict(inner_id.clone()))],
        adds: vec![part(&b)],
    };
    let value = simplify_conflict(&mut store, &outer).unwrap();
    assert_eq!(
        stored_conflict(&store, value.as_ref()),
        Conflict { removes: vec![part(&c)], adds: vec![part(&a)] }
    );
    let back = Conflict {
        removes: vec![part(&TreeValue::Conflict(inner_id))],
        adds: vec![part(&b), part(&c)],
    };
    assert_eq!(simplify_conflict(&mut store, &back), Ok(Some(a)));
}

#[test]
fn a_part_that_refers_to_an_unknown_conflict_is_not_found() {
    let mut store = Store::new();
    let a = file(&mut store, "A");
    let lost = TreeValue::Conflict(ConflictId(vec![7]));
    let in_adds = Conflict { removes: vec![], adds: vec![part(&a), part(&lost)] };
    assert_eq!(simplify_conflict(&mut store, &in_adds), Err(StoreError::NotFound));
    let in_removes = Conflict { removes: vec![part(&lost)], adds: vec![part(&a)] };
    assert_eq!(simplify_conflict(&mut store, &in_removes), Err(StoreError::NotFound));
    assert_eq!(conflict_part_to_conflict(&store, &part(&lost)), Err(StoreError::NotFound));
}

#[test]
fn a_part_stands_for_a_conflict() {
    let mut store = Store::new();
    let a = file(&mut store, "A");
    let b = file(&mut store, "B");
    assert_eq!(
        conflict_part_to_conflict(&store, &part(&a)),
        Ok(Conflict { removes: vec![], adds: vec![part(&a)] })
    );
    let stored = Conflict { removes: vec![part(&a)], adds: vec![part(&b), part(&b)] };
    let id = store.write_conflict(&stored).unwrap();
    assert_eq!(conflict_part_to_conflict(&store, &part(&TreeValue::Conflict(id))), Ok(stored));
}

#[test]
fn the_removes_of_an_added_conflict_stand_behind_the_own_removes() {
    let mut store = Store::new();
    let a = file(&mut store, "A");
    let b = file(&mut store, "B");
    let c = file(&mut store, "C");
    let d = file(&mut store, "D");
    let inner = Conflict { removes: vec![part(&a)], adds: vec![part(&c), part(&d)] };
    let inner_id = store.write_conflict(&inner).unwrap();
    let outer = Conflict {
        removes: vec![part(&b)],
        adds: vec![part(&TreeValue::Conflict(inner_id))],
    };
    let value = simplify_conflict(&mut store, &outer).unwrap();
    assert_eq!(
        stored_conflict(&store, value.as_ref()),
        Conflict { removes: vec![part(&b), part(&a)], adds: vec![part(&c), part(&d)] }
    );
}

#[test]
fn flattening_keeps_each_side_in_its_order() {
    let mut store = Store::new();
    let a = file(&mut store, "A");
    let b = file(&mut store, "B");
    let c = file(&mut store, "C");
    let d = file(&mut store, "D");
    let e = file(&mut store, "E");
    let f = file(&mut store, "F");
    let g = file(&mut store, "G");
    let h = file(&mut store, "H");
    let one = Conflict { removes: vec![part(&a)], adds: vec![part(&b), part(&c)] };
    let two = Conflict { removes: vec![part(&d)], adds: vec![part(&e)] };
    let one_id = store.write_conflict(&one).unwrap();
    let two_id = store.write_conflict(&two).unwrap();
    let outer = Conflict {
        removes: vec![part(&f), part(&TreeValue::Conflict(two_id)), part(&g)],
        adds: vec![part(&TreeValue::Conflict(one_id)), part(&h)],
    };
    let value = simplify_conflict(&mut store, &outer).unwrap();
    assert_eq!(
        stored_conflict(&store, value.as_ref()),
        Conflict {
            removes: vec![part(&f), part(&e), part(&g), part(&a)],
            adds: vec![part(&b), part(&c), part(&h), part(&d)],
        }
    );
}
