//! The stored form of one directory: named values, kept ascending by name.

use std::sync::Arc;
use vstd::prelude::*;
use crate::listing::{
    lemma_lookup_put, lemma_lower_bound, lemma_position, lemma_position_is_lower_bound,
    lemma_with_entry_ascending, lemma_without_entry_ascending, lookup, lower_bound,
    names_ascending, position, with_entry, without_entry, Listing,
};
use crate::repo_path::{lemma_name_lt_transitive, name_lt, RepoPathComponent};
use crate::values::{opt_ref_view, TreeValue, ValueView};

verus! {

/// The mathematical value of one stored entry.
pub open spec fn entry_view(e: (RepoPathComponent, TreeValue)) -> (Seq<u8>, ValueView) {
    (e.0@, e.1@)
}

/// The listing that a sequence of stored entries stands for.
pub open spec fn listing_of(entries: Seq<(RepoPathComponent, TreeValue)>) -> Listing {
    entries.map_values(|e: (RepoPathComponent, TreeValue)| entry_view(e))
}

/// One entry of a stored tree, borrowed from it.
#[derive(Debug)]
pub struct TreeEntry<'a> {
    name: &'a RepoPathComponent,
    value: &'a TreeValue,
}

impl<'a> TreeEntry<'a> {
    /// The name and value that the entry stands for.
    pub closed spec fn view(&self) -> (Seq<u8>, ValueView) {
        (self.name@, self.value@)
    }

    /// Makes the entry of a name and the value under it.
    pub fn new(name: &'a RepoPathComponent, value: &'a TreeValue) -> (r: Self)
        ensures
            r.view() == (name@, value@),
    {
        TreeEntry { name, value }
    }

    /// The entry's name.
    pub fn name(&self) -> (r: &'a RepoPathComponent)
        ensures
            r@ == self.view().0,
    {
        self.name
    }

    /// The entry's value.
    pub fn value(&self) -> (r: &'a TreeValue)
        ensures
            r@ == self.view().1,
    {
        self.value
    }
}

/// The entries of one directory.  No two have the same name, and they are
/// kept in ascending order of their names.
#[derive(Debug, PartialEq, Eq)]
pub struct StoredTree {
    entries: Vec<(RepoPathComponent, TreeValue)>,
}

impl View for StoredTree {
    type V = Listing;

    closed spec fn view(&self) -> Listing {
        listing_of(self.entries@)
    }
}

impl Default for StoredTree {
    fn default() -> (r: Self)
        ensures
            r@ == Seq::<(Seq<u8>, ValueView)>::empty(),
    {
        let entries: Vec<(RepoPathComponent, TreeValue)> = Vec::new();
        assert(listing_of(entries@) =~= Seq::<(Seq<u8>, ValueView)>::empty());
        StoredTree { entries }
    }
}

impl Clone for StoredTree {
    fn clone(&self) -> (r: Self)
        ensures
            r@ == self@,
    {
        proof {
            use_type_invariant(self);
        }
        let mut entries: Vec<(RepoPathComponent, TreeValue)> = Vec::new();
        let mut i: usize = 0;
        while i < self.entries.len()
            invariant
                i <= self.entries.len(),
                entries@.len() == i,
                forall|j: int| 0 <= j < i ==> entry_view(entries@[j]) == entry_view(self.entries@[j]),
            decreases self.entries.len() - i,
        {
            let name = self.entries[i].0.clone();
            let value = self.entries[i].1.clone();
            entries.push((name, value));
            i = i + 1;
        }
        assert(listing_of(entries@) =~= self@);
        StoredTree { entries }
    }
}

impl StoredTree {
    /// What holds of every stored tree: its entries are ascending by name.
    #[verifier::type_invariant]
    pub open spec fn is_ascending(self) -> bool {
        names_ascending(self@)
    }

    /// The tree without entries.
    pub fn new() -> (r: Self)
        ensures
            r@ == Seq::<(Seq<u8>, ValueView)>::empty(),
    {
        StoredTree::default()
    }

    /// The number of entries.
    pub fn len(&self) -> (r: usize)
        ensures
            r == self@.len(),
    {
        self.entries.len()
    }

    /// Whether the tree has no entries.
    pub fn is_empty(&self) -> (r: bool)
        ensures
            r == (self@.len() == 0),
    {
        self.entries.len() == 0
    }

    /// The entries, ascending by name.
    pub fn entries(&self) -> (r: &Vec<(RepoPathComponent, TreeValue)>)
        ensures
            listing_of(r@) == self@,
            names_ascending(self@),
    {
        proof {
            use_type_invariant(self);
        }
        &self.entries
    }

    /// The name of the entry at position `i` of the listing.
    pub fn name_at(&self, i: usize) -> (r: &RepoPathComponent)
        requires
            i < self@.len(),
        ensures
            r@ == self@[i as int].0,
    {
        &self.entries[i].0
    }

    /// The value of the entry at position `i` of the listing.
    pub fn value_at(&self, i: usize) -> (r: &TreeValue)
        requires
            i < self@.len(),
        ensures
            r@ == self@[i as int].1,
    {
        &self.entries[i].1
    }

    /// The position of the entry called `name`; the number of entries if
    /// there is none.  Found by halving.
    fn find(&self, name: &RepoPathComponent) -> (i: usize)
        ensures
            i == position(self@, name@),
            i <= self@.len(),
            i < self@.len() ==> self@[i as int].0 == name@,
    {
        proof {
            use_type_invariant(self);
            lemma_position(self@, name@);
            lemma_position_is_lower_bound(self@, name@);
        }
        let k = self.find_lower_bound(name);
        if k < self.entries.len() && self.entries[k].0.equals(name) {
            k
        } else {
            self.entries.len()
        }
    }

    /// The number of entries whose names are less than `name`.  Found by halving.
    fn find_lower_bound(&self, name: &RepoPathComponent) -> (i: usize)
        ensures
            i == lower_bound(self@, name@),
            i <= self@.len(),
    {
        proof {
            use_type_invariant(self);
            lemma_lower_bound(self@, name@);
        }
        let mut low: usize = 0;
        let mut high: usize = self.entries.len();
        while low < high
            invariant
                low <= high <= self.entries.len(),
                names_ascending(self@),
                forall|j: int| 0 <= j < low ==> name_lt((#[trigger] self@[j]).0, name@),
                forall|j: int| high <= j < self@.len() ==> !name_lt((#[trigger] self@[j]).0, name@),
            decreases high - low,
        {
            let middle = low + (high - low) / 2;
            if self.entries[middle].0.lt(name) {
                assert forall|j: int| 0 <= j < middle + 1 implies name_lt(
                    (#[trigger] self@[j]).0,
                    name@,
                ) by {
                    if j < middle {
                        assert(name_lt(self@[j].0, self@[middle as int].0));
                        lemma_name_lt_transitive(self@[j].0, self@[middle as int].0, name@);
                    }
                }
                low = middle + 1;
            } else {
                assert forall|j: int| middle <= j < self@.len() implies !name_lt(
                    (#[trigger] self@[j]).0,
                    name@,
                ) by {
                    if j > middle && name_lt(self@[j].0, name@) {
                        assert(name_lt(self@[middle as int].0, self@[j].0));
                        lemma_name_lt_transitive(self@[middle as int].0, self@[j].0, name@);
                    }
                }
                high = middle;
            }
        }
        proof {
            let bound = lower_bound(self@, name@);
            if bound < low {
                assert(name_lt(self@[bound].0, name@));
            } else if bound > low {
                assert(!name_lt(self@[low as int].0, name@));
            }
        }
        low
    }

    /// The entry called `name`, if there is one.
    pub fn entry<'a>(&'a self, name: &RepoPathComponent) -> (r: Option<TreeEntry<'a>>)
        ensures
            match r {
                Some(e) => lookup(self@, name@) == Some(e.view().1) && e.view().0 == name@,
                None => lookup(self@, name@) is None,
            },
    {
        let i = self.find(name);
        if i < self.entries.len() {
            Some(TreeEntry::new(&self.entries[i].0, &self.entries[i].1))
        } else {
            None
        }
    }

    /// The value under `name`, if there is one.
    pub fn value(&self, name: &RepoPathComponent) -> (r: Option<&TreeValue>)
        ensures
            opt_ref_view(r) == lookup(self@, name@),
    {
        let i = self.find(name);
        if i < self.entries.len() {
            Some(&self.entries[i].1)
        } else {
            None
        }
    }

    /// Puts `value` under `name`, in place of what was there if anything was.
    pub fn set(&mut self, name: RepoPathComponent, value: TreeValue)
        ensures
            final(self)@ == with_entry(old(self)@, name@, value@),
            forall|other: Seq<u8>| #[trigger]
                lookup(final(self)@, other) == if other == name@ {
                    Some(value@)
                } else {
                    lookup(old(self)@, other)
                },
    {
        proof {
            use_type_invariant(&*self);
            assert forall|other: Seq<u8>| #[trigger]
                lookup(with_entry(self@, name@, value@), other) == if other == name@ {
                    Some(value@)
                } else {
                    lookup(self@, other)
                } by {
                lemma_lookup_put(self@, name@, Some(value@), other);
            }
        }
        let k = self.find_lower_bound(&name);
        proof {
            use_type_invariant(&*self);
            lemma_with_entry_ascending(self@, name@, value@);
            lemma_lower_bound(self@, name@);
        }
        let replace = k < self.entries.len() && self.entries[k].0.equals(&name);
        let ghost before = self.entries@;
        // The entries are taken out, changed and put back, so that the tree is
        // ascending at every step.
        let mut entries: Vec<(RepoPathComponent, TreeValue)> = Vec::new();
        core::mem::swap(&mut self.entries, &mut entries);
        if replace {
            assert(listing_of(before.update(k as int, (name, value))) =~= with_entry(
                listing_of(before),
                name@,
                value@,
            ));
            entries[k] = (name, value);
        } else {
            assert(listing_of(before.insert(k as int, (name, value))) =~= with_entry(
                listing_of(before),
                name@,
                value@,
            ));
            entries.insert(k, (name, value));
        }
        self.entries = entries;
    }

    /// Takes out the entry called `name`, if there is one.
    pub fn remove(&mut self, name: &RepoPathComponent)
        ensures
            final(self)@ == without_entry(old(self)@, name@),
            forall|other: Seq<u8>| #[trigger]
                lookup(final(self)@, other) == if other == name@ {
                    None
                } else {
                    lookup(old(self)@, other)
                },
    {
        proof {
            use_type_invariant(&*self);
            assert forall|other: Seq<u8>| #[trigger]
                lookup(without_entry(self@, name@), other) == if other == name@ {
                    None
                } else {
                    lookup(self@, other)
                } by {
                lemma_lookup_put(self@, name@, None, other);
            }
        }
        let k = self.find(name);
        proof {
            use_type_invariant(&*self);
            lemma_without_entry_ascending(self@, name@);
            lemma_position(self@, name@);
        }
        if k < self.entries.len() {
            let ghost before = self.entries@;
            let mut entries: Vec<(RepoPathComponent, TreeValue)> = Vec::new();
            core::mem::swap(&mut self.entries, &mut entries);
            assert(listing_of(before.remove(k as int)) =~= without_entry(
                listing_of(before),
                name@,
            ));
            entries.remove(k);
            self.entries = entries;
        }
    }

    /// Whether the two trees have the same entries.
    pub fn equals(&self, other: &StoredTree) -> (r: bool)
        ensures
            r == (self@ == other@),
    {
        if self.entries.len() != other.entries.len() {
            assert(self@.len() != other@.len());
            return false;
        }
        let mut i: usize = 0;
        while i < self.entries.len()
            invariant
                i <= self.entries.len(),
                self.entries.len() == other.entries.len(),
                forall|j: int| 0 <= j < i ==> self@[j] == other@[j],
            decreases self.entries.len() - i,
        {
            if !self.entries[i].0.equals(&other.entries[i].0) || !self.entries[i].1.equals(
                &other.entries[i].1,
            ) {
                assert(self@[i as int] != other@[i as int]);
                return false;
            }
            i = i + 1;
        }
        assert(self@ =~= other@);
        true
    }
}

/// A second handle to the entries that `data` points to.  The body calls
/// `Arc::clone` of the standard library, which makes another pointer to the
/// same allocation and copies nothing; the contract says no more than that
/// the new handle leads to the same entries.
#[verifier::external_body]
pub(crate) fn share(data: &Arc<StoredTree>) -> (r: Arc<StoredTree>)
    ensures
        *r == **data,
{
    Arc::clone(data)
}

} // verus!
