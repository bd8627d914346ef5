use tree_merge::conflict::{Conflict, ConflictPart};
use tree_merge::files::{FileMerger, MergeHunk, MergeResult, WholeFileMerger};
use tree_merge::repo_path::{bytes_eq, bytes_lt, RepoPath, RepoPathComponent};
use tree_merge::store::{Store, StoreError};
use tree_merge::stored_tree::StoredTree;
use tree_merge::summary::{insert_sorted, sort_paths};
use tree_merge::values::{
    opt_value_cloned, opt_value_eq, ConflictId, FileId, SymlinkId, TreeId, TreeValue,
};

fn name(s: &str) -> RepoPathComponent {
    RepoPathComponent::from_str(s).unwrap()
}

fn path(parts: &[&str]) -> RepoPath {
    let mut p = RepoPath::root();
    for part in parts {
        p = p.join(&name(part));
    }
    p
}

fn id_bytes(index: u64) -> Vec<u8> {
    index.to_le_bytes().to_vec()
}

fn plain(id: u8) -> TreeValue {
    TreeValue::File { id: FileId(vec![id]), executable: false }
}

#[test]
fn components_are_not_empty() {
    assert!(RepoPathComponent::new(vec![]).is_none());
    assert!(RepoPathComponent::from_str("").is_none());
    assert_eq!(RepoPathComponent::new(vec![97]).unwrap(), name("a"));
    assert_eq!(name("ab").as_bytes(), &vec![97u8, 98u8]);
    assert_eq!(name("é").as_bytes(), &vec![0xc3u8, 0xa9u8]);
}

#[test]
fn components_are_ordered_by_their_bytes() {
    assert!(name("a").lt(&name("b")));
    assert!(!name("b").lt(&name("a")));
    assert!(name("a").lt(&name("ab")));
    assert!(!name("ab").lt(&name("a")));
    assert!(name("Z").lt(&name("a")));
    assert!(name("ab").lt(&name("b")));
    assert!(!name("a").lt(&name("a")));
    assert!(name("a").equals(&name("a")));
    assert!(!name("a").equals(&name("ab")));
    assert!(bytes_lt(&vec![], &vec![0]));
    assert!(!bytes_lt(&vec![], &vec![]));
    assert!(bytes_lt(&vec![1, 255], &vec![2]));
    assert!(bytes_eq(&vec![1, 2], &vec![1, 2]));
    assert!(!bytes_eq(&vec![1, 2], &vec![1, 3]));
    assert!(!bytes_eq(&vec![1, 2], &vec![1]));
}

#[test]
fn paths_join_and_split() {
    let root = RepoPath::root();
    assert!(root.is_root());
    assert_eq!(root.len(), 0);
    assert_eq!(root.split(), None);
    let file = root.join(&name("dir")).join(&name("file"));
    assert!(!file.is_root());
    assert_eq!(file.len(), 2);
    assert_eq!(file.component(0), &name("dir"));
    assert_eq!(file.component(1), &name("file"));
    assert_eq!(file.split(), Some((path(&["dir"]), name("file"))));
    assert_eq!(path(&["dir"]).split(), Some((RepoPath::root(), name("dir"))));
    assert_eq!(RepoPath::from_components(vec![name("dir"), name("file")]), file);
    assert!(file.equals(&path(&["dir", "file"])));
    assert!(!file.equals(&path(&["dir"])));
    assert!(!file.equals(&path(&["dir", "other"])));
}

#[test]
fn paths_are_ordered_component_by_component() {
    assert!(path(&[]).lt(&path(&["a"])));
    assert!(!path(&[]).lt(&path(&[])));
    assert!(path(&["d"]).lt(&path(&["d", "a"])));
    assert!(!path(&["d", "a"]).lt(&path(&["d"])));
    assert!(path(&["d", "z"]).lt(&path(&["e"])));
    assert!(path(&["a", "b"]).lt(&path(&["ab"])));
    assert!(path(&["a", "zzz"]).lt(&path(&["a-"])));
    assert!(!path(&["a", "b"]).lt(&path(&["a", "b"])));
    assert!(path(&["a", "b"]).lt(&path(&["a", "c"])));
}

#[test]
fn sorting_paths() {
    let sorted = sort_paths(vec![
        path(&["b"]),
        path(&["a", "z"]),
        path(&["a"]),
        path(&["b"]),
        path(&[]),
        path(&["a", "b", "c"]),
    ]);
    assert_eq!(
        sorted,
        vec![
            path(&[]),
            path(&["a"]),
            path(&["a", "b", "c"]),
            path(&["a", "z"]),
            path(&["b"]),
            path(&["b"]),
        ]
    );
    assert_eq!(sort_paths(vec![]), vec![]);
    let mut list = vec![path(&["a"]), path(&["c"])];
    insert_sorted(&mut list, path(&["b"]));
    insert_sorted(&mut list, path(&["d"]));
    insert_sorted(&mut list, path(&[]));
    assert_eq!(list, vec![path(&[]), path(&["a"]), path(&["b"]), path(&["c"]), path(&["d"])]);
}

#[test]
fn stored_tree_keeps_its_entries_ascending() {
    let mut tree = StoredTree::new();
    assert!(tree.is_empty());
    tree.set(name("m"), plain(1));
    tree.set(name("a"), plain(2));
    tree.set(name("z"), plain(3));
    tree.set(name("mm"), plain(4));
    assert_eq!(tree.len(), 4);
    let names: Vec<RepoPathComponent> = tree.entries().iter().map(|e| e.0.clone()).collect();
    assert_eq!(names, vec![name("a"), name("m"), name("mm"), name("z")]);
    assert_eq!(tree.name_at(1), &name("m"));
    assert_eq!(tree.value_at(1), &plain(1));
    tree.set(name("m"), plain(9));
    assert_eq!(tree.len(), 4);
    assert_eq!(tree.value(&name("m")), Some(&plain(9)));
    assert_eq!(tree.value(&name("a")), Some(&plain(2)));
    assert_eq!(tree.value(&name("b")), None);
    tree.remove(&name("a"));
    assert_eq!(tree.len(), 3);
    assert_eq!(tree.value(&name("a")), None);
    assert_eq!(tree.value(&name("z")), Some(&plain(3)));
    tree.remove(&name("nothing"));
    assert_eq!(tree.len(), 3);
    let entry = tree.entry(&name("mm")).unwrap();
    assert_eq!(entry.name(), &name("mm"));
    assert_eq!(entry.value(), &plain(4));
    assert!(tree.entry(&name("a")).is_none());
}

#[test]
fn stored_trees_are_equal_by_their_entries() {
    let mut one = StoredTree::new();
    one.set(name("a"), plain(1));
    one.set(name("b"), plain(2));
    let mut other = StoredTree::default();
    other.set(name("b"), plain(2));
    assert!(!one.equals(&other));
    other.set(name("a"), plain(1));
    assert!(one.equals(&other));
    assert_eq!(one, other);
    assert!(one.equals(&one.clone()));
    other.set(name("a"), plain(3));
    assert!(!one.equals(&other));
}

#[test]
fn values_are_equal_by_kind_and_data() {
    let file = TreeValue::File { id: FileId(vec![1]), executable: false };
    let exec = TreeValue::File { id: FileId(vec![1]), executable: true };
    let link = TreeValue::Symlink(SymlinkId(vec![1]));
    let tree = TreeValue::Tree(TreeId(vec![1]));
    let conflict = TreeValue::Conflict(ConflictId(vec![1]));
    assert!(file.equals(&file.clone()));
    assert!(!file.equals(&exec));
    assert!(!file.equals(&link));
    assert!(!link.equals(&tree));
    assert!(!tree.equals(&conflict));
    assert!(tree.equals(&TreeValue::Tree(TreeId(vec![1]))));
    assert!(!tree.equals(&TreeValue::Tree(TreeId(vec![2]))));
    assert!(tree.is_tree());
    assert!(!file.is_tree());
    assert!(TreeId(vec![1, 2]).equals(&TreeId(vec![1, 2])));
    assert!(!TreeId(vec![1, 2]).equals(&TreeId(vec![1])));
    assert!(opt_value_eq(None, None));
    assert!(opt_value_eq(Some(&file), Some(&file)));
    assert!(!opt_value_eq(Some(&file), None));
    assert!(!opt_value_eq(None, Some(&file)));
    assert!(!opt_value_eq(Some(&file), Some(&exec)));
    assert_eq!(opt_value_cloned(Some(&exec)), Some(exec));
    assert_eq!(opt_value_cloned(None), None);
}

#[test]
fn a_new_store_holds_the_empty_tree() {
    let store = Store::new();
    assert_eq!(store.empty_tree_id(), &TreeId(id_bytes(0)));
    let tree = store.get_tree(&path(&["d"]), store.empty_tree_id()).unwrap();
    assert!(tree.data().is_empty());
    assert_eq!(tree.dir(), &path(&["d"]));
    assert_eq!(tree.id(), &TreeId(id_bytes(0)));
}

#[test]
fn equal_contents_get_equal_identifiers() {
    let mut store = Store::new();
    let root = RepoPath::root();
    let first = store.write_file(&root, &b"one".to_vec()).unwrap();
    let second = store.write_file(&path(&["elsewhere"]), &b"two".to_vec()).unwrap();
    let again = store.write_file(&root, &b"one".to_vec()).unwrap();
    let third = store.write_file(&root, &b"".to_vec()).unwrap();
    assert_eq!(first, FileId(id_bytes(0)));
    assert_eq!(second, FileId(id_bytes(1)));
    assert_eq!(again, first);
    assert_eq!(third, FileId(id_bytes(2)));
    assert_eq!(store.read_file(&root, &first), Ok(b"one".to_vec()));
    assert_eq!(store.read_file(&root, &second), Ok(b"two".to_vec()));
    assert_eq!(store.read_file(&root, &third), Ok(vec![]));
}

#[test]
fn unknown_identifiers_are_not_found() {
    let mut store = Store::new();
    let root = RepoPath::root();
    store.write_file(&root, &b"one".to_vec()).unwrap();
    assert_eq!(store.read_file(&root, &FileId(id_bytes(1))), Err(StoreError::NotFound));
    assert_eq!(store.read_file(&root, &FileId(vec![])), Err(StoreError::NotFound));
    assert_eq!(store.read_file(&root, &FileId(vec![0; 9])), Err(StoreError::NotFound));
    assert_eq!(store.read_file(&root, &FileId(id_bytes(u64::MAX))), Err(StoreError::NotFound));
    assert_eq!(store.get_tree(&root, &TreeId(id_bytes(1))).err(), Some(StoreError::NotFound));
    assert_eq!(store.get_tree(&root, &TreeId(vec![])).err(), Some(StoreError::NotFound));
    assert_eq!(store.read_conflict(&ConflictId(id_bytes(0))), Err(StoreError::NotFound));
}

#[test]
fn trees_are_written_once() {
    let mut store = Store::new();
    let root = RepoPath::root();
    let empty = store.write_tree(&root, &StoredTree::new()).unwrap();
    assert_eq!(&empty, store.empty_tree_id());
    let mut data = StoredTree::new();
    data.set(name("a"), plain(1));
    let first = store.write_tree(&root, &data).unwrap();
    assert_eq!(first, TreeId(id_bytes(1)));
    assert_eq!(store.write_tree(&path(&["x"]), &data.clone()).unwrap(), first);
    let mut outer = StoredTree::new();
    outer.set(name("d"), TreeValue::Tree(first.clone()));
    let second = store.write_tree(&root, &outer).unwrap();
    assert_eq!(second, TreeId(id_bytes(2)));
    assert_eq!(store.get_tree(&root, &second).unwrap().data(), &outer);
    assert_eq!(store.get_tree(&root, &first).unwrap().data(), &data);
}

#[test]
fn a_tree_with_an_unknown_sub_tree_is_refused() {
    let mut store = Store::new();
    let root = RepoPath::root();
    let mut data = StoredTree::new();
    data.set(name("a"), plain(1));
    data.set(name("d"), TreeValue::Tree(TreeId(id_bytes(1))));
    assert_eq!(store.write_tree(&root, &data), Err(StoreError::NotFound));
    let mut short = StoredTree::new();
    short.set(name("d"), TreeValue::Tree(TreeId(vec![])));
    assert_eq!(store.write_tree(&root, &short), Err(StoreError::NotFound));
    let mut fine = StoredTree::new();
    fine.set(name("a"), plain(1));
    assert_eq!(store.write_tree(&root, &fine), Ok(TreeId(id_bytes(1))));
    assert_eq!(store.write_tree(&root, &data), Ok(TreeId(id_bytes(2))));
}

#[test]
fn conflicts_are_written_once() {
    let mut store = Store::new();
    let conflict = Conflict {
        removes: vec![ConflictPart { value: plain(1) }],
        adds: vec![ConflictPart { value: plain(2) }, ConflictPart { value: plain(3) }],
    };
    let swapped = Conflict {
        removes: vec![ConflictPart { value: plain(1) }],
        adds: vec![ConflictPart { value: plain(3) }, ConflictPart { value: plain(2) }],
    };
    let first = store.write_conflict(&conflict).unwrap();
    let second = store.write_conflict(&swapped).unwrap();
    assert_eq!(first, ConflictId(id_bytes(0)));
    assert_eq!(second, ConflictId(id_bytes(1)));
    assert_eq!(store.write_conflict(&conflict.clone()).unwrap(), first);
    assert_eq!(store.read_conflict(&first), Ok(conflict.clone()));
    assert_eq!(store.read_conflict(&second), Ok(swapped.clone()));
    assert!(conflict.equals(&conflict.clone()));
    assert!(!conflict.equals(&swapped));
    let none = Conflict::default();
    assert!(none.removes.is_empty() && none.adds.is_empty());
}

#[test]
fn whole_file_merger_settles_where_one_side_is_the_base() {
    let merger = WholeFileMerger;
    let a = b"a".to_vec();
    let b = b"b".to_vec();
    let c = b"c".to_vec();
    assert_eq!(merger.merge(&a, &a, &b), MergeResult::Resolved(b.clone()));
    assert_eq!(merger.merge(&a, &b, &a), MergeResult::Resolved(b.clone()));
    assert_eq!(merger.merge(&a, &b, &b), MergeResult::Resolved(b.clone()));
    assert_eq!(merger.merge(&a, &a, &a), MergeResult::Resolved(a.clone()));
    assert_eq!(
        merger.merge(&a, &b, &c),
        MergeResult::Conflict(vec![MergeHunk::Conflict { base: a, left: b, right: c }])
    );
}
