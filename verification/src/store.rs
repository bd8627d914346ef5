//! An in-memory object store.  Equal contents get equal identifiers.

use std::sync::Arc;
use vstd::prelude::*;
use vstd::bytes::{
    lemma_auto_spec_u64_to_from_le_bytes, spec_u64_from_le_bytes, spec_u64_to_le_bytes,
    u64_from_le_bytes, u64_to_le_bytes,
};
use crate::conflict::{Conflict, ConflictView};
use crate::listing::{names_ascending, Listing};
use crate::repo_path::{bytes_eq, RepoPath};
use crate::seqs::{first_index, first_index_from, lemma_first_index, with_object};
use crate::stored_tree::{listing_of, share, StoredTree};
use crate::tree::Tree;
use crate::values::{ConflictId, FileId, TreeId, TreeValue, ValueView};

verus! {

/// Why an operation on a store failed.  The store of this crate is held in
/// memory and fails in one way only, with `NotFound`; the other kinds are
/// there for callers that keep their objects behind input and output and
/// report in the same terms.
#[derive(Debug, Clone, Copy, PartialEq, Eq, Structural)]
pub enum StoreError {
    /// Reading from or writing to the backing storage failed.
    StoreIo,
    /// No object has the identifier that was asked for.
    NotFound,
    /// The stored bytes of an object cannot be decoded.
    Corrupt,
    /// A state was reached that the design rules out.
    InvariantViolation,
}

/// The identifier of the object at position `index` of its kind.
pub open spec fn id_of(index: int) -> Seq<u8> {
    spec_u64_to_le_bytes(index as u64)
}

/// The position that an identifier names, if it has the form of one.
pub open spec fn object_index(id: Seq<u8>) -> Option<int> {
    if id.len() == 8 {
        Some(spec_u64_from_le_bytes(id) as int)
    } else {
        None
    }
}

/// Identifiers and positions correspond one to one.
pub proof fn lemma_id_of_index(index: int)
    requires
        0 <= index <= u64::MAX,
    ensures
        object_index(id_of(index)) == Some(index),
{
    lemma_auto_spec_u64_to_from_le_bytes();
}

/// An identifier that names a position is the identifier of that position.
pub proof fn lemma_index_of_id(id: Seq<u8>)
    requires
        object_index(id) is Some,
    ensures
        id_of(object_index(id)->0) == id,
        0 <= object_index(id)->0 <= u64::MAX,
{
    lemma_auto_spec_u64_to_from_le_bytes();
}

/// A value that is a sub-tree names a position before `bound`.
pub open spec fn child_below(value: ValueView, bound: int) -> bool {
    match value {
        ValueView::Tree(id) => object_index(id) is Some && object_index(id)->0 < bound,
        _ => true,
    }
}

/// Every sub-tree of the listing names a position before `bound`.
pub open spec fn refs_below(t: Listing, bound: int) -> bool {
    forall|k: int| 0 <= k < t.len() ==> child_below(#[trigger] t[k].1, bound)
}

/// The number of positions that an identifier can name.
pub open spec fn top_bound() -> nat {
    0x1_0000_0000_0000_0000
}

/// A value that is a sub-tree and names a position names one before `bound`.
pub open spec fn value_within(value: ValueView, bound: nat) -> bool {
    match value {
        ValueView::Tree(id) => object_index(id) is Some ==> object_index(id)->0 < bound,
        _ => true,
    }
}

/// The value, if there is one, is within `bound`.
pub open spec fn opt_within(value: Option<ValueView>, bound: nat) -> bool {
    value is Some ==> value_within(value->0, bound)
}

/// Every sub-tree of the listing that names a position names one before `bound`.
pub open spec fn refs_within(t: Listing, bound: nat) -> bool {
    forall|k: int| 0 <= k < t.len() ==> value_within(#[trigger] t[k].1, bound)
}

/// Every listing is within the number of positions that identifiers can name.
pub proof fn lemma_within_top(t: Listing)
    ensures
        refs_within(t, top_bound()),
{
    assert forall|k: int| 0 <= k < t.len() implies value_within(#[trigger] t[k].1, top_bound()) by {
        match t[k].1 {
            ValueView::Tree(id) => {
                if object_index(id) is Some {
                    lemma_index_of_id(id);
                }
            },
            _ => {},
        }
    }
}

/// Every value is within the number of positions that identifiers can name.
pub proof fn lemma_value_within_top(value: ValueView)
    ensures
        value_within(value, top_bound()),
{
    match value {
        ValueView::Tree(id) => {
            if object_index(id) is Some {
                lemma_index_of_id(id);
            }
        },
        _ => {},
    }
}

/// The sub-trees of a stored tree stand before the tree itself.
pub proof fn lemma_stored_within(store: StoreView, id: Seq<u8>, bound: nat)
    requires
        store.wf(),
        store.tree(id) is Some,
        object_index(id)->0 <= bound,
    ensures
        refs_within(store.tree(id)->0, bound),
        names_ascending(store.tree(id)->0),
{
    let i = object_index(id)->0;
    let t = store.trees[i];
    assert(refs_below(t, i));
    assert forall|k: int| 0 <= k < t.len() implies value_within(#[trigger] t[k].1, bound) by {
        assert(child_below(t[k].1, i));
    }
}

/// The mathematical value of a [`Store`]: the objects of each kind, in the
/// order in which they were first written.
pub struct StoreView {
    pub trees: Seq<Listing>,
    pub files: Seq<Seq<u8>>,
    pub conflicts: Seq<ConflictView>,
}

impl StoreView {
    /// The store's promises: the first tree is the empty one, every tree is
    /// ascending by name, the sub-trees of a tree were written before it, and
    /// of no kind are there more objects than identifiers can name.
    pub open spec fn wf(self) -> bool {
        &&& self.trees.len() > 0
        &&& self.trees.len() <= top_bound()
        &&& self.files.len() <= top_bound()
        &&& self.conflicts.len() <= top_bound()
        &&& self.trees[0].len() == 0
        &&& forall|i: int|
            0 <= i < self.trees.len() ==> names_ascending(#[trigger] self.trees[i])
        &&& forall|i: int| 0 <= i < self.trees.len() ==> refs_below(#[trigger] self.trees[i], i)
    }

    /// The identifier of the tree without entries.
    pub open spec fn empty_tree_id(self) -> Seq<u8> {
        id_of(0)
    }

    /// The entries of the tree `id`, if the store has it.
    pub open spec fn tree(self, id: Seq<u8>) -> Option<Listing> {
        match object_index(id) {
            Some(i) => if i < self.trees.len() {
                Some(self.trees[i])
            } else {
                None
            },
            None => None,
        }
    }

    /// The contents of the file `id`, if the store has it.
    pub open spec fn file(self, id: Seq<u8>) -> Option<Seq<u8>> {
        match object_index(id) {
            Some(i) => if i < self.files.len() {
                Some(self.files[i])
            } else {
                None
            },
            None => None,
        }
    }

    /// The conflict `id`, if the store has it.
    pub open spec fn conflict(self, id: Seq<u8>) -> Option<ConflictView> {
        match object_index(id) {
            Some(i) => if i < self.conflicts.len() {
                Some(self.conflicts[i])
            } else {
                None
            },
            None => None,
        }
    }

    /// The store after a file of the given contents is written, and the file's identifier.
    pub open spec fn write_file(self, contents: Seq<u8>) -> (StoreView, Seq<u8>) {
        (
            StoreView { files: with_object(self.files, contents), ..self },
            id_of(first_index(self.files, contents)),
        )
    }

    /// The store after the conflict is written, and the conflict's identifier.
    pub open spec fn write_conflict(self, conflict: ConflictView) -> (StoreView, Seq<u8>) {
        (
            StoreView { conflicts: with_object(self.conflicts, conflict), ..self },
            id_of(first_index(self.conflicts, conflict)),
        )
    }

    /// The store after a tree of the given entries is written, and the tree's
    /// identifier.  A tree with a sub-tree that the store lacks is not written.
    pub open spec fn write_tree(self, data: Listing) -> (StoreView, Result<Seq<u8>, StoreError>) {
        if refs_below(data, self.trees.len() as int) {
            (
                StoreView { trees: with_object(self.trees, data), ..self },
                Ok(id_of(first_index(self.trees, data))),
            )
        } else {
            (self, Err(StoreError::NotFound))
        }
    }
}

/// In a store that can name one object more, what is written is read again
/// under the identifier that the write gave.
pub proof fn lemma_written_is_read<T>(objects: Seq<T>, object: T)
    requires
        objects.len() < top_bound(),
    ensures
        object_index(id_of(first_index(objects, object))) == Some(first_index(objects, object)),
        first_index(objects, object) < with_object(objects, object).len(),
        with_object(objects, object)[first_index(objects, object)] == object,
        with_object(objects, object).len() <= top_bound(),
{
    lemma_first_index(objects, object);
    lemma_id_of_index(first_index(objects, object));
}

/// Writing a tree to a store that can name one tree more keeps the store's promises.
pub proof fn lemma_write_tree_wf(store: StoreView, data: Listing)
    requires
        store.wf(),
        store.trees.len() < top_bound(),
        names_ascending(data),
    ensures
        store.write_tree(data).0.wf(),
{
    let after = store.write_tree(data).0;
    lemma_first_index(store.trees, data);
    assert forall|i: int| 0 <= i < after.trees.len() implies names_ascending(
        #[trigger] after.trees[i],
    ) && refs_below(after.trees[i], i) by {
        if i < store.trees.len() {
            assert(after.trees[i] == store.trees[i]);
        }
    }
}

/// The identifier of the object at position `index`.
fn encode_index(index: usize) -> (r: Vec<u8>)
    ensures
        r@ == id_of(index as int),
        object_index(r@) == Some(index as int),
{
    proof {
        lemma_auto_spec_u64_to_from_le_bytes();
    }
    u64_to_le_bytes(index as u64)
}

/// The position that `id` names, if it has the form of an identifier and the
/// position is less than `len`.
fn decode_index(id: &Vec<u8>, len: usize) -> (r: Option<usize>)
    ensures
        match r {
            Some(i) => object_index(id@) == Some(i as int) && i < len,
            None => object_index(id@) is None || object_index(id@)->0 >= len,
        },
{
    if id.len() != 8 {
        return None;
    }
    let index = u64_from_le_bytes(id.as_slice());
    if index < len as u64 {
        Some(index as usize)
    } else {
        None
    }
}

/// The first position of `files` that holds `contents`; the length if none does.
fn find_file(files: &Vec<Vec<u8>>, contents: &Vec<u8>) -> (i: usize)
    ensures
        i == first_index(files@.map_values(|f: Vec<u8>| f@), contents@),
        i <= files.len(),
{
    let ghost views = files@.map_values(|f: Vec<u8>| f@);
    proof {
        lemma_first_index(views, contents@);
    }
    let mut i: usize = 0;
    while i < files.len()
        invariant
            i <= files.len(),
            views == files@.map_values(|f: Vec<u8>| f@),
            first_index(views, contents@) == first_index_from(views, contents@, i as int),
        decreases files.len() - i,
    {
        if bytes_eq(&files[i], contents) {
            return i;
        }
        i = i + 1;
    }
    i
}

/// The first position of `conflicts` that holds `conflict`; the length if none does.
fn find_conflict(conflicts: &Vec<Conflict>, conflict: &Conflict) -> (i: usize)
    ensures
        i == first_index(conflicts@.map_values(|c: Conflict| c@), conflict@),
        i <= conflicts.len(),
{
    let ghost views = conflicts@.map_values(|c: Conflict| c@);
    proof {
        lemma_first_index(views, conflict@);
    }
    let mut i: usize = 0;
    while i < conflicts.len()
        invariant
            i <= conflicts.len(),
            views == conflicts@.map_values(|c: Conflict| c@),
            first_index(views, conflict@) == first_index_from(views, conflict@, i as int),
        decreases conflicts.len() - i,
    {
        if conflicts[i].equals(conflict) {
            return i;
        }
        i = i + 1;
    }
    i
}

/// The first position of `trees` that holds the entries of `data`; the length if none does.
fn find_tree(trees: &Vec<Arc<StoredTree>>, data: &StoredTree) -> (i: usize)
    ensures
        i == first_index(trees@.map_values(|t: Arc<StoredTree>| t@), data@),
        i <= trees.len(),
{
    let ghost views = trees@.map_values(|t: Arc<StoredTree>| t@);
    proof {
        lemma_first_index(views, data@);
    }
    let mut i: usize = 0;
    while i < trees.len()
        invariant
            i <= trees.len(),
            views == trees@.map_values(|t: Arc<StoredTree>| t@),
            first_index(views, data@) == first_index_from(views, data@, i as int),
        decreases trees.len() - i,
    {
        if trees[i].equals(data) {
            return i;
        }
        i = i + 1;
    }
    i
}

/// An object store held in memory.  Objects are found by the identifiers that
/// the store gave them when they were written, and writing contents that the
/// store already holds gives their first identifier again.
#[derive(Debug)]
pub struct Store {
    trees: Vec<Arc<StoredTree>>,
    files: Vec<Vec<u8>>,
    conflicts: Vec<Conflict>,
    empty_id: TreeId,
}

impl View for Store {
    type V = StoreView;

    closed spec fn view(&self) -> StoreView {
        StoreView {
            trees: self.trees@.map_values(|t: Arc<StoredTree>| t@),
            files: self.files@.map_values(|f: Vec<u8>| f@),
            conflicts: self.conflicts@.map_values(|c: Conflict| c@),
        }
    }
}

impl Store {
    /// The identifier that the store keeps for the empty tree.
    pub closed spec fn kept_empty_id(&self) -> Seq<u8> {
        self.empty_id@
    }

    /// What holds of every store: its promises, and that it keeps the
    /// identifier of the empty tree.
    #[verifier::type_invariant]
    pub open spec fn inv(self) -> bool {
        &&& self@.wf()
        &&& self.kept_empty_id() == id_of(0)
    }

    /// A store that holds the empty tree and nothing else.
    pub fn new() -> (r: Self)
        ensures
            r@.wf(),
            r@.trees.len() == 1,
            r@.files.len() == 0,
            r@.conflicts.len() == 0,
    {
        let mut trees: Vec<Arc<StoredTree>> = Vec::new();
        trees.push(Arc::new(StoredTree::new()));
        let empty_id = TreeId(encode_index(0));
        Store { trees, files: Vec::new(), conflicts: Vec::new(), empty_id }
    }

    /// The identifier of the tree without entries.
    pub fn empty_tree_id(&self) -> (r: &TreeId)
        ensures
            r@ == self@.empty_tree_id(),
            self@.tree(r@) == Some(Seq::<(Seq<u8>, ValueView)>::empty()),
            self@.wf(),
    {
        proof {
            use_type_invariant(self);
            lemma_id_of_index(0);
            assert(self@.trees[0] =~= Seq::<(Seq<u8>, ValueView)>::empty());
        }
        &self.empty_id
    }

    /// Reads the tree `id` as a view at `dir`.
    pub fn get_tree(&self, dir: &RepoPath, id: &TreeId) -> (r: Result<Tree, StoreError>)
        ensures
            self@.wf(),
            match r {
                Ok(tree) => self@.tree(id@) == Some(tree@.data) && tree@.dir == dir@ && tree@.id
                    == id@,
                Err(e) => self@.tree(id@) is None && e == StoreError::NotFound,
            },
    {
        proof {
            use_type_invariant(self);
        }
        match decode_index(&id.0, self.trees.len()) {
            Some(i) => Ok(Tree::new(dir.clone(), id.clone(), share(&self.trees[i]))),
            None => Err(StoreError::NotFound),
        }
    }

    /// Reads the contents of the file `id`.  The path plays no part.
    pub fn read_file(&self, path: &RepoPath, id: &FileId) -> (r: Result<Vec<u8>, StoreError>)
        ensures
            match r {
                Ok(contents) => self@.file(id@) == Some(contents@),
                Err(e) => self@.file(id@) is None && e == StoreError::NotFound,
            },
    {
        match decode_index(&id.0, self.files.len()) {
            Some(i) => Ok(self.files[i].clone()),
            None => Err(StoreError::NotFound),
        }
    }

    /// Reads the conflict `id`.
    pub fn read_conflict(&self, id: &ConflictId) -> (r: Result<Conflict, StoreError>)
        ensures
            match r {
                Ok(conflict) => self@.conflict(id@) == Some(conflict@),
                Err(e) => self@.conflict(id@) is None && e == StoreError::NotFound,
            },
    {
        match decode_index(&id.0, self.conflicts.len()) {
            Some(i) => Ok(self.conflicts[i].clone()),
            None => Err(StoreError::NotFound),
        }
    }

    /// Writes a file and returns its identifier.  The path plays no part.
    pub fn write_file(&mut self, path: &RepoPath, contents: &Vec<u8>) -> (r: Result<
        FileId,
        StoreError,
    >)
        ensures
            final(self)@ == old(self)@.write_file(contents@).0,
            final(self)@.wf(),
            match r {
                Ok(id) => id@ == old(self)@.write_file(contents@).1 && final(self)@.file(id@)
                    == Some(contents@),
                Err(_) => false,
            },
    {
        // The store is taken apart and put together again with the new list of
        // files, so that it keeps its promises at every step.
        let mut taken = Store::new();
        core::mem::swap(self, &mut taken);
        proof {
            use_type_invariant(&taken);
        }
        let ghost before = taken@;
        let Store { trees, mut files, conflicts, empty_id } = taken;
        let i = find_file(&files, contents);
        proof {
            lemma_first_index(before.files, contents@);
        }
        if i == files.len() {
            files.push(contents.clone());
            assert(files@.map_values(|f: Vec<u8>| f@) =~= before.files.push(contents@));
        }
        assert(files.len() <= usize::MAX);
        *self = Store { trees, files, conflicts, empty_id };
        Ok(FileId(encode_index(i)))
    }

    /// Writes a conflict and returns its identifier.
    pub fn write_conflict(&mut self, conflict: &Conflict) -> (r: Result<ConflictId, StoreError>)
        ensures
            final(self)@ == old(self)@.write_conflict(conflict@).0,
            final(self)@.wf(),
            match r {
                Ok(id) => id@ == old(self)@.write_conflict(conflict@).1
                    && final(self)@.conflict(id@) == Some(conflict@),
                Err(_) => false,
            },
    {
        let mut taken = Store::new();
        core::mem::swap(self, &mut taken);
        proof {
            use_type_invariant(&taken);
        }
        let ghost before = taken@;
        let Store { trees, files, mut conflicts, empty_id } = taken;
        let i = find_conflict(&conflicts, conflict);
        proof {
            lemma_first_index(before.conflicts, conflict@);
        }
        if i == conflicts.len() {
            conflicts.push(conflict.clone());
            assert(conflicts@.map_values(|c: Conflict| c@) =~= before.conflicts.push(conflict@));
        }
        assert(conflicts.len() <= usize::MAX);
        *self = Store { trees, files, conflicts, empty_id };
        Ok(ConflictId(encode_index(i)))
    }

    /// Writes a tree and returns its identifier.  The directory plays no part.
    /// A tree that names a sub-tree which the store lacks is refused.
    pub fn write_tree(&mut self, dir: &RepoPath, data: &StoredTree) -> (r: Result<
        TreeId,
        StoreError,
    >)
        ensures
            final(self)@ == old(self)@.write_tree(data@).0,
            final(self)@.wf(),
            match r {
                Ok(id) => old(self)@.write_tree(data@).1 == Ok::<Seq<u8>, StoreError>(id@)
                    && final(self)@.tree(id@) == Some(data@),
                Err(e) => old(self)@.write_tree(data@).1 == Err::<Seq<u8>, StoreError>(e),
            },
    {
        proof {
            use_type_invariant(&*self);
        }
        let entries = data.entries();
        let mut k: usize = 0;
        while k < entries.len()
            invariant
                k <= entries.len(),
                self@.wf(),
                listing_of(entries@) == data@,
                forall|j: int| 0 <= j < k ==> child_below(#[trigger] data@[j].1, self.trees.len() as int),
            decreases entries.len() - k,
        {
            match &entries[k].1 {
                TreeValue::Tree(id) => {
                    if decode_index(&id.0, self.trees.len()).is_none() {
                        assert(!child_below(data@[k as int].1, self.trees.len() as int));
                        return Err(StoreError::NotFound);
                    }
                },
                _ => {},
            }
            k = k + 1;
        }
        let mut taken = Store::new();
        core::mem::swap(self, &mut taken);
        let ghost before = taken@;
        let Store { mut trees, files, conflicts, empty_id } = taken;
        let i = find_tree(&trees, data);
        proof {
            assert(trees.len() <= usize::MAX);
            lemma_write_tree_wf(before, data@);
            lemma_first_index(before.trees, data@);
        }
        if i == trees.len() {
            trees.push(Arc::new(data.clone()));
            assert(trees@.map_values(|t: Arc<StoredTree>| t@) =~= before.trees.push(data@));
        }
        *self = Store { trees, files, conflicts, empty_id };
        Ok(TreeId(encode_index(i)))
    }
}

} // verus!
