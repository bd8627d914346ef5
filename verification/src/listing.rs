//! Directory listings: the entries of one tree, ascending by name.

use vstd::prelude::*;
use crate::repo_path::{
    lemma_name_lt_irreflexive, lemma_name_lt_total, lemma_name_lt_transitive, name_lt,
};
use crate::values::ValueView;

verus! {

/// The mathematical value of a directory: its entries in listing order.
pub type Listing = Seq<(Seq<u8>, ValueView)>;

/// Every entry's name is less than the names of the entries behind it.
pub open spec fn names_ascending(t: Listing) -> bool {
    forall|i: int, j: int| 0 <= i < j < t.len() ==> name_lt(#[trigger] t[i].0, #[trigger] t[j].0)
}

/// The first position at or behind `i` whose entry is called `name`;
/// the length of the listing if there is none.
pub open spec fn position_from(t: Listing, name: Seq<u8>, i: int) -> int
    decreases t.len() - i,
{
    if i < 0 || i >= t.len() {
        t.len() as int
    } else if t[i].0 == name {
        i
    } else {
        position_from(t, name, i + 1)
    }
}

/// The position of the entry called `name`; the length of the listing if there is none.
pub open spec fn position(t: Listing, name: Seq<u8>) -> int {
    position_from(t, name, 0)
}

/// The value under `name`, if the listing has such an entry.
pub open spec fn lookup(t: Listing, name: Seq<u8>) -> Option<ValueView> {
    if position(t, name) < t.len() {
        Some(t[position(t, name)].1)
    } else {
        None
    }
}

/// The first position at or behind `i` whose name is not less than `name`;
/// the length of the listing if there is none.
pub open spec fn lower_bound_from(t: Listing, name: Seq<u8>, i: int) -> int
    decreases t.len() - i,
{
    if i < 0 || i >= t.len() {
        t.len() as int
    } else if !name_lt(t[i].0, name) {
        i
    } else {
        lower_bound_from(t, name, i + 1)
    }
}

/// The number of leading entries whose names are less than `name`.
pub open spec fn lower_bound(t: Listing, name: Seq<u8>) -> int {
    lower_bound_from(t, name, 0)
}

/// The listing with `value` under `name`, in place of an entry of that name
/// or else at the place that the order of names gives it.
pub open spec fn with_entry(t: Listing, name: Seq<u8>, value: ValueView) -> Listing {
    let k = lower_bound(t, name);
    if k < t.len() && t[k].0 == name {
        t.update(k, (name, value))
    } else {
        t.insert(k, (name, value))
    }
}

/// The listing without the entry called `name`.
pub open spec fn without_entry(t: Listing, name: Seq<u8>) -> Listing {
    let k = position(t, name);
    if k < t.len() {
        t.remove(k)
    } else {
        t
    }
}

/// The listing after `name` is given `value`, or loses its entry where `value` is absent.
pub open spec fn put(t: Listing, name: Seq<u8>, value: Option<ValueView>) -> Listing {
    match value {
        Some(v) => with_entry(t, name, v),
        None => without_entry(t, name),
    }
}

proof fn lemma_position_from_bounds(t: Listing, name: Seq<u8>, i: int)
    requires
        0 <= i <= t.len(),
    ensures
        i <= position_from(t, name, i) <= t.len(),
        position_from(t, name, i) < t.len() ==> t[position_from(t, name, i)].0 == name,
        forall|j: int| i <= j < position_from(t, name, i) ==> (#[trigger] t[j]).0 != name,
    decreases t.len() - i,
{
    if i < t.len() && t[i].0 != name {
        lemma_position_from_bounds(t, name, i + 1);
    }
}

/// Where `position` points, and that no earlier entry has the name.
pub proof fn lemma_position(t: Listing, name: Seq<u8>)
    ensures
        0 <= position(t, name) <= t.len(),
        position(t, name) < t.len() ==> t[position(t, name)].0 == name,
        forall|j: int| 0 <= j < position(t, name) ==> (#[trigger] t[j]).0 != name,
{
    lemma_position_from_bounds(t, name, 0);
}

proof fn lemma_lower_bound_from_bounds(t: Listing, name: Seq<u8>, i: int)
    requires
        0 <= i <= t.len(),
    ensures
        i <= lower_bound_from(t, name, i) <= t.len(),
        lower_bound_from(t, name, i) < t.len() ==> !name_lt(
            t[lower_bound_from(t, name, i)].0,
            name,
        ),
        forall|j: int| i <= j < lower_bound_from(t, name, i) ==> name_lt((#[trigger] t[j]).0, name),
    decreases t.len() - i,
{
    if i < t.len() && name_lt(t[i].0, name) {
        lemma_lower_bound_from_bounds(t, name, i + 1);
    }
}

/// Where `lower_bound` points: behind the names that are less, at one that is not.
pub proof fn lemma_lower_bound(t: Listing, name: Seq<u8>)
    ensures
        0 <= lower_bound(t, name) <= t.len(),
        lower_bound(t, name) < t.len() ==> !name_lt(t[lower_bound(t, name)].0, name),
        forall|j: int| 0 <= j < lower_bound(t, name) ==> name_lt((#[trigger] t[j]).0, name),
{
    lemma_lower_bound_from_bounds(t, name, 0);
}

/// In an ascending listing the entry called `name`, if any, stands at the lower bound of `name`.
pub proof fn lemma_position_is_lower_bound(t: Listing, name: Seq<u8>)
    requires
        names_ascending(t),
    ensures
        position(t, name) < t.len() ==> position(t, name) == lower_bound(t, name),
        position(t, name) == t.len() ==> (lower_bound(t, name) == t.len() || t[lower_bound(
            t,
            name,
        )].0 != name),
{
    lemma_position(t, name);
    lemma_lower_bound(t, name);
    let p = position(t, name);
    let k = lower_bound(t, name);
    lemma_name_lt_irreflexive(name);
    if p < t.len() {
        if k < p {
            assert(name_lt(t[k].0, t[p].0));
        } else if p < k {
            assert(name_lt(t[p].0, name));
        }
    } else if k < t.len() && t[k].0 == name {
        assert(t[k].0 != name);
    }
}

/// Setting an entry keeps a listing ascending.
pub proof fn lemma_with_entry_ascending(t: Listing, name: Seq<u8>, value: ValueView)
    requires
        names_ascending(t),
    ensures
        names_ascending(with_entry(t, name, value)),
{
    lemma_lower_bound(t, name);
    let k = lower_bound(t, name);
    let r = with_entry(t, name, value);
    if k < t.len() && t[k].0 == name {
        assert forall|i: int, j: int| 0 <= i < j < r.len() implies name_lt(
            #[trigger] r[i].0,
            #[trigger] r[j].0,
        ) by {
            assert(name_lt(t[i].0, t[j].0));
        }
    } else {
        assert forall|i: int, j: int| 0 <= i < j < r.len() implies name_lt(
            #[trigger] r[i].0,
            #[trigger] r[j].0,
        ) by {
            if j < k {
                assert(name_lt(t[i].0, t[j].0));
            } else if j == k {
                assert(name_lt(t[i].0, name));
            } else if i == k {
                lemma_name_lt_total(t[k].0, name);
                if j - 1 > k {
                    assert(name_lt(t[k].0, t[j - 1].0));
                    lemma_name_lt_transitive(name, t[k].0, t[j - 1].0);
                }
            } else if i < k {
                assert(name_lt(t[i].0, t[j - 1].0));
            } else {
                assert(name_lt(t[i - 1].0, t[j - 1].0));
            }
        }
    }
}

/// Removing an entry keeps a listing ascending.
pub proof fn lemma_without_entry_ascending(t: Listing, name: Seq<u8>)
    requires
        names_ascending(t),
    ensures
        names_ascending(without_entry(t, name)),
{
    lemma_position(t, name);
    let k = position(t, name);
    let r = without_entry(t, name);
    if k < t.len() {
        assert forall|i: int, j: int| 0 <= i < j < r.len() implies name_lt(
            #[trigger] r[i].0,
            #[trigger] r[j].0,
        ) by {
            let i0 = if i < k { i } else { i + 1 };
            let j0 = if j < k { j } else { j + 1 };
            assert(name_lt(t[i0].0, t[j0].0));
        }
    }
}

/// After `put`, the name holds the value given and every other name holds what it held.
pub proof fn lemma_lookup_put(t: Listing, name: Seq<u8>, value: Option<ValueView>, other: Seq<u8>)
    requires
        names_ascending(t),
    ensures
        lookup(put(t, name, value), other) == if other == name {
            value
        } else {
            lookup(t, other)
        },
{
    let r = put(t, name, value);
    lemma_position(t, name);
    lemma_position(t, other);
    lemma_position(r, other);
    lemma_lower_bound(t, name);
    lemma_position_is_lower_bound(t, name);
    lemma_name_lt_irreflexive(name);
    let k = lower_bound(t, name);
    let p = position(t, other);
    let q = position(r, other);
    match value {
        Some(v) => {
            lemma_with_entry_ascending(t, name, v);
            if k < t.len() && t[k].0 == name {
                if other == name {
                    lemma_unique_position(r, other, k);
                } else if p < t.len() {
                    lemma_unique_position(r, other, p);
                } else if q < r.len() {
                    assert(t[q].0 == other);
                }
            } else {
                if other == name {
                    lemma_unique_position(r, other, k);
                } else if p < t.len() {
                    lemma_unique_position(r, other, if p < k { p } else { p + 1 });
                } else if q < r.len() {
                    assert(t[if q < k { q } else { q - 1 }].0 == other);
                }
            }
        },
        None => {
            lemma_without_entry_ascending(t, name);
            let d = position(t, name);
            if d < t.len() {
                if other == name {
                    if q < r.len() {
                        let q0 = if q < d { q } else { q + 1 };
                        assert(t[q0].0 == name);
                        lemma_unique_position(t, name, q0);
                    }
                } else if p < t.len() {
                    lemma_unique_position(r, other, if p < d { p } else { p - 1 });
                } else if q < r.len() {
                    assert(t[if q < d { q } else { q + 1 }].0 == other);
                }
            }
        },
    }
}

/// In an ascending listing a name stands at one position at most.
pub proof fn lemma_unique_position(t: Listing, name: Seq<u8>, i: int)
    requires
        names_ascending(t),
        0 <= i < t.len(),
        t[i].0 == name,
    ensures
        position(t, name) == i,
{
    lemma_position(t, name);
    lemma_name_lt_irreflexive(name);
    let p = position(t, name);
    if p < i {
        assert(name_lt(t[p].0, t[i].0));
    } else if i < p {
        assert(t[i].0 != name);
    }
}

/// An ascending listing holds under the name of each entry the entry's value.
pub proof fn lemma_lookup_entry(t: Listing, k: int)
    requires
        names_ascending(t),
        0 <= k < t.len(),
    ensures
        lookup(t, t[k].0) == Some(t[k].1),
{
    lemma_unique_position(t, t[k].0, k);
}

/// A listing holds nothing under a name that none of its entries has.
pub proof fn lemma_lookup_absent(t: Listing, name: Seq<u8>)
    requires
        forall|k: int| 0 <= k < t.len() ==> (#[trigger] t[k]).0 != name,
    ensures
        lookup(t, name) is None,
{
    lemma_position(t, name);
}

/// What a listing holds under a name is the value of one of its entries of that name.
pub proof fn lemma_lookup_found(t: Listing, name: Seq<u8>) -> (k: int)
    requires
        lookup(t, name) is Some,
    ensures
        0 <= k < t.len(),
        t[k] == (name, lookup(t, name)->0),
{
    lemma_position(t, name);
    position(t, name)
}

} // verus!
