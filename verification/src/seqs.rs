//! Searching a sequence for the first occurrence of a value.

use vstd::prelude::*;

verus! {

/// The first position at or behind `i` that holds `x`; the length of `s` if there is none.
pub open spec fn first_index_from<T>(s: Seq<T>, x: T, i: int) -> int
    decreases s.len() - i,
{
    if i < 0 || i >= s.len() {
        s.len() as int
    } else if s[i] == x {
        i
    } else {
        first_index_from(s, x, i + 1)
    }
}

/// The first position that holds `x`; the length of `s` if there is none.
pub open spec fn first_index<T>(s: Seq<T>, x: T) -> int {
    first_index_from(s, x, 0)
}

/// `s` itself where it holds `x` already, else `s` with `x` at its end.
pub open spec fn with_object<T>(s: Seq<T>, x: T) -> Seq<T> {
    if first_index(s, x) < s.len() {
        s
    } else {
        s.push(x)
    }
}

proof fn lemma_first_index_from<T>(s: Seq<T>, x: T, i: int)
    requires
        0 <= i <= s.len(),
    ensures
        i <= first_index_from(s, x, i) <= s.len(),
        first_index_from(s, x, i) < s.len() ==> s[first_index_from(s, x, i)] == x,
        forall|j: int| i <= j < first_index_from(s, x, i) ==> s[j] != x,
    decreases s.len() - i,
{
    if i < s.len() && s[i] != x {
        lemma_first_index_from(s, x, i + 1);
    }
}

/// Where `first_index` points, and that no earlier position holds the value.
pub proof fn lemma_first_index<T>(s: Seq<T>, x: T)
    ensures
        0 <= first_index(s, x) <= s.len(),
        first_index(s, x) < s.len() ==> s[first_index(s, x)] == x,
        forall|j: int| 0 <= j < first_index(s, x) ==> s[j] != x,
        first_index(s, x) < s.len() <==> s.contains(x),
        first_index(with_object(s, x), x) == first_index(s, x),
        with_object(s, x)[first_index(s, x)] == x,
{
    lemma_first_index_from(s, x, 0);
    let k = first_index(s, x);
    if k == s.len() {
        let r = s.push(x);
        lemma_first_index_from(r, x, 0);
        let m = first_index(r, x);
        if m < k {
            assert(s[m] == r[m]);
        }
        assert(r[k] == x);
    }
}

/// `part` is what is left of `whole` when some of its items are taken out:
/// the items of `part` are items of `whole`, in the order that they have there.
pub open spec fn is_subsequence<T>(part: Seq<T>, whole: Seq<T>) -> bool
    decreases whole.len(),
{
    if part.len() == 0 {
        true
    } else if whole.len() == 0 {
        false
    } else if part.last() == whole.last() && is_subsequence(part.drop_last(), whole.drop_last()) {
        true
    } else {
        is_subsequence(part, whole.drop_last())
    }
}

/// A sequence is a subsequence of itself.
pub proof fn lemma_subsequence_self<T>(s: Seq<T>)
    ensures
        is_subsequence(s, s),
    decreases s.len(),
{
    if s.len() > 0 {
        lemma_subsequence_self(s.drop_last());
    }
}

/// A subsequence stays one when an item is taken out of it.
pub proof fn lemma_subsequence_remove<T>(part: Seq<T>, whole: Seq<T>, k: int)
    requires
        is_subsequence(part, whole),
        0 <= k < part.len(),
    ensures
        is_subsequence(part.remove(k), whole),
    decreases whole.len(),
{
    let fewer = part.remove(k);
    if part.last() == whole.last() && is_subsequence(part.drop_last(), whole.drop_last()) {
        if k == part.len() - 1 {
            assert(fewer =~= part.drop_last());
        } else {
            lemma_subsequence_remove(part.drop_last(), whole.drop_last(), k);
            assert(fewer.drop_last() =~= part.drop_last().remove(k));
            assert(fewer.last() == part.last());
        }
    } else {
        lemma_subsequence_remove(part, whole.drop_last(), k);
    }
}

} // verus!
