//! Unresolved merge outcomes: values added and values removed.

use vstd::prelude::*;
use crate::values::{TreeValue, ValueView};

verus! {

/// One term of a conflict.
#[derive(Debug, PartialEq, Eq)]
pub struct ConflictPart {
    pub value: TreeValue,
}

/// A conflict stands for the sum of its `adds` less the sum of its `removes`.
#[derive(Debug, PartialEq, Eq)]
pub struct Conflict {
    pub removes: Vec<ConflictPart>,
    pub adds: Vec<ConflictPart>,
}

/// The mathematical value of a [`Conflict`].
pub struct ConflictView {
    pub removes: Seq<ValueView>,
    pub adds: Seq<ValueView>,
}

/// The values of a sequence of parts.
pub open spec fn parts_view(parts: Seq<ConflictPart>) -> Seq<ValueView> {
    parts.map_values(|p: ConflictPart| p.value@)
}

impl View for ConflictPart {
    type V = ValueView;

    open spec fn view(&self) -> ValueView {
        self.value@
    }
}

impl View for Conflict {
    type V = ConflictView;

    open spec fn view(&self) -> ConflictView {
        ConflictView { removes: parts_view(self.removes@), adds: parts_view(self.adds@) }
    }
}

impl Clone for ConflictPart {
    fn clone(&self) -> (r: Self)
        ensures
            r@ == self@,
    {
        ConflictPart { value: self.value.clone() }
    }
}

/// Copies a list of parts.
pub fn clone_parts(parts: &Vec<ConflictPart>) -> (r: Vec<ConflictPart>)
    ensures
        parts_view(r@) == parts_view(parts@),
{
    let mut copy: Vec<ConflictPart> = Vec::new();
    let mut i: usize = 0;
    while i < parts.len()
        invariant
            i <= parts.len(),
            copy@.len() == i,
            forall|j: int| 0 <= j < i ==> copy@[j]@ == parts@[j]@,
        decreases parts.len() - i,
    {
        copy.push(parts[i].clone());
        i = i + 1;
    }
    assert(parts_view(copy@) =~= parts_view(parts@));
    copy
}

/// Whether the two lists hold equal values at every position.
pub fn parts_eq(a: &Vec<ConflictPart>, b: &Vec<ConflictPart>) -> (r: bool)
    ensures
        r == (parts_view(a@) == parts_view(b@)),
{
    if a.len() != b.len() {
        assert(parts_view(a@).len() != parts_view(b@).len());
        return false;
    }
    let mut i: usize = 0;
    while i < a.len()
        invariant
            i <= a.len(),
            a.len() == b.len(),
            forall|j: int| 0 <= j < i ==> parts_view(a@)[j] == parts_view(b@)[j],
        decreases a.len() - i,
    {
        if !a[i].value.equals(&b[i].value) {
            assert(parts_view(a@)[i as int] != parts_view(b@)[i as int]);
            return false;
        }
        i = i + 1;
    }
    assert(parts_view(a@) =~= parts_view(b@));
    true
}

impl Clone for Conflict {
    fn clone(&self) -> (r: Self)
        ensures
            r@ == self@,
    {
        Conflict { removes: clone_parts(&self.removes), adds: clone_parts(&self.adds) }
    }
}

impl Default for Conflict {
    fn default() -> (r: Self)
        ensures
            r@.removes.len() == 0,
            r@.adds.len() == 0,
    {
        Conflict { removes: Vec::new(), adds: Vec::new() }
    }
}

impl Conflict {
    /// Whether the two conflicts have the same removes and the same adds, in the same order.
    pub fn equals(&self, other: &Conflict) -> (r: bool)
        ensures
            r == (self@ == other@),
    {
        parts_eq(&self.removes, &other.removes) && parts_eq(&self.adds, &other.adds)
    }
}

} // verus!
