//! Object identifiers and the values that a tree holds under a name.

use vstd::prelude::*;
use crate::repo_path::bytes_eq;

verus! {

/// Identifier of a stored tree.
#[derive(Debug, PartialEq, Eq, Hash)]
pub struct TreeId(pub Vec<u8>);

/// Identifier of a stored file.
#[derive(Debug, PartialEq, Eq, Hash)]
pub struct FileId(pub Vec<u8>);

/// Identifier of a stored symbolic link.
#[derive(Debug, PartialEq, Eq, Hash)]
pub struct SymlinkId(pub Vec<u8>);

/// Identifier of a stored conflict.
#[derive(Debug, PartialEq, Eq, Hash)]
pub struct ConflictId(pub Vec<u8>);

impl View for TreeId {
    type V = Seq<u8>;

    open spec fn view(&self) -> Seq<u8> {
        self.0@
    }
}

impl View for FileId {
    type V = Seq<u8>;

    open spec fn view(&self) -> Seq<u8> {
        self.0@
    }
}

impl View for SymlinkId {
    type V = Seq<u8>;

    open spec fn view(&self) -> Seq<u8> {
        self.0@
    }
}

impl View for ConflictId {
    type V = Seq<u8>;

    open spec fn view(&self) -> Seq<u8> {
        self.0@
    }
}

impl Clone for TreeId {
    fn clone(&self) -> (r: Self)
        ensures
            r@ == self@,
    {
        TreeId(self.0.clone())
    }
}

impl Clone for FileId {
    fn clone(&self) -> (r: Self)
        ensures
            r@ == self@,
    {
        FileId(self.0.clone())
    }
}

impl Clone for SymlinkId {
    fn clone(&self) -> (r: Self)
        ensures
            r@ == self@,
    {
        SymlinkId(self.0.clone())
    }
}

impl Clone for ConflictId {
    fn clone(&self) -> (r: Self)
        ensures
            r@ == self@,
    {
        ConflictId(self.0.clone())
    }
}

impl TreeId {
    /// Whether the two identifiers hold the same bytes.
    pub fn equals(&self, other: &TreeId) -> (r: bool)
        ensures
            r == (self@ == other@),
    {
        bytes_eq(&self.0, &other.0)
    }
}

/// What a tree holds under one name.
#[derive(Debug, PartialEq, Eq)]
pub enum TreeValue {
    /// A regular file, with its executable flag.
    File { id: FileId, executable: bool },
    /// A symbolic link.
    Symlink(SymlinkId),
    /// A sub-tree.
    Tree(TreeId),
    /// A reference to an unresolved conflict.
    Conflict(ConflictId),
}

/// The mathematical value of a [`TreeValue`]: identifiers are byte sequences.
pub enum ValueView {
    File { id: Seq<u8>, executable: bool },
    Symlink(Seq<u8>),
    Tree(Seq<u8>),
    Conflict(Seq<u8>),
}

impl View for TreeValue {
    type V = ValueView;

    open spec fn view(&self) -> ValueView {
        match self {
            TreeValue::File { id, executable } => ValueView::File {
                id: id@,
                executable: *executable,
            },
            TreeValue::Symlink(id) => ValueView::Symlink(id@),
            TreeValue::Tree(id) => ValueView::Tree(id@),
            TreeValue::Conflict(id) => ValueView::Conflict(id@),
        }
    }
}

impl Clone for TreeValue {
    fn clone(&self) -> (r: Self)
        ensures
            r@ == self@,
    {
        match self {
            TreeValue::File { id, executable } => TreeValue::File {
                id: id.clone(),
                executable: *executable,
            },
            TreeValue::Symlink(id) => TreeValue::Symlink(id.clone()),
            TreeValue::Tree(id) => TreeValue::Tree(id.clone()),
            TreeValue::Conflict(id) => TreeValue::Conflict(id.clone()),
        }
    }
}

impl TreeValue {
    /// Whether the two values are of the same kind and hold the same data.
    pub fn equals(&self, other: &TreeValue) -> (r: bool)
        ensures
            r == (self@ == other@),
    {
        match (self, other) {
            (
                TreeValue::File { id: id1, executable: executable1 },
                TreeValue::File { id: id2, executable: executable2 },
            ) => bytes_eq(&id1.0, &id2.0) && *executable1 == *executable2,
            (TreeValue::Symlink(id1), TreeValue::Symlink(id2)) => bytes_eq(&id1.0, &id2.0),
            (TreeValue::Tree(id1), TreeValue::Tree(id2)) => bytes_eq(&id1.0, &id2.0),
            (TreeValue::Conflict(id1), TreeValue::Conflict(id2)) => bytes_eq(&id1.0, &id2.0),
            _ => false,
        }
    }

    /// Whether the value is a sub-tree.
    pub fn is_tree(&self) -> (r: bool)
        ensures
            r == (self@ is Tree),
    {
        match self {
            TreeValue::Tree(_) => true,
            _ => false,
        }
    }
}

/// The mathematical value of an optional tree value.
pub open spec fn opt_view(value: Option<TreeValue>) -> Option<ValueView> {
    match value {
        Some(v) => Some(v@),
        None => None,
    }
}

/// The mathematical value of an optional borrowed tree value.
pub open spec fn opt_ref_view(value: Option<&TreeValue>) -> Option<ValueView> {
    match value {
        Some(v) => Some(v@),
        None => None,
    }
}

/// Whether two optional values are both absent or both present and equal.
pub fn opt_value_eq(a: Option<&TreeValue>, b: Option<&TreeValue>) -> (r: bool)
    ensures
        r == (opt_ref_view(a) == opt_ref_view(b)),
{
    match (a, b) {
        (None, None) => true,
        (Some(x), Some(y)) => x.equals(y),
        _ => false,
    }
}

/// Copies an optional borrowed value.
pub fn opt_value_cloned(a: Option<&TreeValue>) -> (r: Option<TreeValue>)
    ensures
        opt_view(r) == opt_ref_view(a),
{
    match a {
        Some(x) => Some(x.clone()),
        None => None,
    }
}

} // verus!
