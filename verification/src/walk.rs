//! What a walker gives: items in order, and the error that ended it if one did.

use vstd::prelude::*;
use crate::store::StoreError;

verus! {

/// The items that a walk yields, in order, and the error that it reports
/// behind them if it ends in one.
pub struct Walk<T> {
    pub items: Seq<T>,
    pub error: Option<StoreError>,
}

impl<T> Walk<T> {
    /// The walk that yields nothing and ends well.
    pub open spec fn empty() -> Self {
        Walk { items: Seq::empty(), error: None }
    }

    /// The walk that yields one item and ends well.
    pub open spec fn one(item: T) -> Self {
        Walk { items: seq![item], error: None }
    }

    /// The walk that yields nothing and ends in `e`.
    pub open spec fn fail(e: StoreError) -> Self {
        Walk { items: Seq::empty(), error: Some(e) }
    }

    /// This walk, and `next` behind it unless this walk ends in an error.
    pub open spec fn followed_by(self, next: Walk<T>) -> Walk<T> {
        if self.error is Some {
            self
        } else {
            Walk { items: self.items + next.items, error: next.error }
        }
    }

    /// The walk behind its first item.
    pub open spec fn rest(self) -> Walk<T> {
        Walk { items: self.items.drop_first(), error: self.error }
    }

    /// Whether the walk yields nothing and ends well.
    pub open spec fn is_done(self) -> bool {
        self.items.len() == 0 && self.error is None
    }
}

/// Walking on behind the empty walk, or with the empty walk, changes nothing.
pub proof fn lemma_followed_by_empty<T>(w: Walk<T>)
    ensures
        Walk::<T>::empty().followed_by(w) == w,
        w.followed_by(Walk::<T>::empty()) == w,
{
    assert(Walk::<T>::empty().followed_by(w).items =~= w.items);
    assert(w.followed_by(Walk::<T>::empty()).items =~= w.items);
}

/// Three walks in a row are the same walk however they are grouped.
pub proof fn lemma_followed_by_assoc<T>(a: Walk<T>, b: Walk<T>, c: Walk<T>)
    ensures
        a.followed_by(b).followed_by(c) == a.followed_by(b.followed_by(c)),
{
    assert(a.followed_by(b).followed_by(c).items =~= a.followed_by(b.followed_by(c)).items);
}

/// A walk that starts with one item yields that item first and goes on
/// as the walks behind it.
pub proof fn lemma_followed_by_one<T>(item: T, a: Walk<T>, b: Walk<T>)
    ensures
        Walk::one(item).followed_by(a).followed_by(b).items.len() > 0,
        Walk::one(item).followed_by(a).followed_by(b).items[0] == item,
        Walk::one(item).followed_by(a).followed_by(b).rest() == a.followed_by(b),
{
    let w = Walk::one(item).followed_by(a).followed_by(b);
    assert(w.rest().items =~= a.followed_by(b).items);
}

} // verus!
