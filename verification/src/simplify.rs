//! Simplification of conflicts: nested conflicts are spliced into the outer
//! one, an add and a remove of the same value cancel, and what is left is a
//! value, nothing, or a smaller conflict.

use vstd::prelude::*;
use crate::conflict::{parts_view, Conflict, ConflictPart, ConflictView};
use crate::seqs::{
    first_index, first_index_from, is_subsequence, lemma_first_index, lemma_subsequence_remove,
    lemma_subsequence_self, with_object,
};
use crate::store::{lemma_written_is_read, object_index, top_bound, Store, StoreError, StoreView};
use crate::values::{opt_view, TreeValue, ValueView};

verus! {

/// The conflict that one part stands for: the stored conflict it refers to,
/// or else the addition of the part's own value.  `None` where the part
/// refers to a conflict that the store lacks.
pub open spec fn part_to_conflict(store: StoreView, part: ValueView) -> Option<ConflictView> {
    match part {
        ValueView::Conflict(id) => store.conflict(id),
        other => Some(ConflictView { removes: Seq::empty(), adds: seq![other] }),
    }
}

/// `acc` with the terms of `inner` appended, each on its own side, or on the
/// opposite side where `inverted` is set.
pub open spec fn absorb(acc: ConflictView, inner: ConflictView, inverted: bool) -> ConflictView {
    if inverted {
        ConflictView { removes: acc.removes + inner.adds, adds: acc.adds + inner.removes }
    } else {
        ConflictView { removes: acc.removes + inner.removes, adds: acc.adds + inner.adds }
    }
}

/// `acc` after the parts at positions `i` and later have been absorbed in turn.
/// `None` where one of them refers to a conflict that the store lacks.
pub open spec fn splice_from(
    store: StoreView,
    parts: Seq<ValueView>,
    i: int,
    inverted: bool,
    acc: ConflictView,
) -> Option<ConflictView>
    decreases parts.len() - i,
{
    if i < 0 || i >= parts.len() {
        Some(acc)
    } else {
        match part_to_conflict(store, parts[i]) {
            None => None,
            Some(inner) => splice_from(store, parts, i + 1, inverted, absorb(acc, inner, inverted)),
        }
    }
}

/// The conflict with the conflicts that its parts refer to written out.
/// Each side keeps its own parts first and in their order, a part that
/// refers to a conflict giving way, where it stands, to what that conflict
/// holds for the side: its adds for an add, and for a remove its adds too,
/// which are then removed.  Behind them stands what the conflicts of the
/// other side hold against it: behind the removes the removes of the
/// conflicts that were added, behind the adds the removes of the conflicts
/// that were removed.
pub open spec fn flatten(store: StoreView, conflict: ConflictView) -> Option<ConflictView> {
    let nothing = ConflictView { removes: Seq::empty(), adds: Seq::empty() };
    match splice_from(store, conflict.adds, 0, false, nothing) {
        None => None,
        Some(added) => match splice_from(store, conflict.removes, 0, true, nothing) {
            None => None,
            Some(removed) => Some(
                ConflictView {
                    removes: removed.removes + added.removes,
                    adds: added.adds + removed.adds,
                },
            ),
        },
    }
}

/// What is left when the adds at positions `i` and later have each been set
/// against the first equal remove, if there is one: the remove goes and the
/// add is dropped, else the add joins `kept`.
pub open spec fn cancel_from(
    removes: Seq<ValueView>,
    adds: Seq<ValueView>,
    i: int,
    kept: Seq<ValueView>,
) -> ConflictView
    decreases adds.len() - i,
{
    if i < 0 || i >= adds.len() {
        ConflictView { removes, adds: kept }
    } else {
        let k = first_index(removes, adds[i]);
        if k < removes.len() {
            cancel_from(removes.remove(k), adds, i + 1, kept)
        } else {
            cancel_from(removes, adds, i + 1, kept.push(adds[i]))
        }
    }
}

/// The conflict without the pairs of an add and a remove of the same value.
pub open spec fn cancel(conflict: ConflictView) -> ConflictView {
    cancel_from(conflict.removes, conflict.adds, 0, Seq::empty())
}

/// Whether what cancelling left is a conflict still: it adds something, and
/// it is not the addition of one value with nothing removed.
pub open spec fn stays_conflict(rest: ConflictView) -> bool {
    rest.adds.len() > 0 && !(rest.removes.len() == 0 && rest.adds.len() == 1)
}

/// The conflict that the result of a simplification stands for: the empty
/// one for no value, the stored conflict for a reference to it, and else
/// the addition of the value.  `None` for a reference to a conflict that
/// the store lacks.
pub open spec fn standing_for(store: StoreView, value: Option<ValueView>) -> Option<ConflictView> {
    match value {
        None => Some(ConflictView { removes: Seq::empty(), adds: Seq::empty() }),
        Some(v) => part_to_conflict(store, v),
    }
}

/// No conflict of the store has a part that refers to a conflict.
pub open spec fn conflicts_are_flat(store: StoreView) -> bool {
    forall|i: int|
        0 <= i < store.conflicts.len() ==> no_conflict_parts(
            (#[trigger] store.conflicts[i]).removes,
        ) && no_conflict_parts(store.conflicts[i].adds)
}

/// The outcome of simplifying `conflict` in `store`: the store afterwards, and
/// the value that stands for the conflict, `None` for a path that does not
/// exist.  Only a conflict that is still one after cancelling is written.
pub open spec fn simplify(store: StoreView, conflict: ConflictView) -> (
    StoreView,
    Result<Option<ValueView>, StoreError>,
) {
    match flatten(store, conflict) {
        None => (store, Err(StoreError::NotFound)),
        Some(flat) => {
            let rest = cancel(flat);
            if rest.adds.len() == 0 {
                (store, Ok(None))
            } else if rest.removes.len() == 0 && rest.adds.len() == 1 {
                (store, Ok(Some(rest.adds[0])))
            } else {
                (
                    store.write_conflict(rest).0,
                    Ok(Some(ValueView::Conflict(store.write_conflict(rest).1))),
                )
            }
        },
    }
}

/// The mathematical value of the result of a simplification or of the merge of one name.
pub open spec fn outcome_view(r: Result<Option<TreeValue>, StoreError>) -> Result<
    Option<ValueView>,
    StoreError,
> {
    match r {
        Ok(v) => Ok(opt_view(v)),
        Err(e) => Err(e),
    }
}

/// No part of the sequence refers to a conflict.
pub open spec fn no_conflict_parts(parts: Seq<ValueView>) -> bool {
    forall|i: int| 0 <= i < parts.len() ==> !(#[trigger] parts[i] is Conflict)
}

proof fn lemma_cancel_from_disjoint(
    removes: Seq<ValueView>,
    adds: Seq<ValueView>,
    i: int,
    kept: Seq<ValueView>,
)
    requires
        0 <= i <= adds.len(),
        forall|j: int| 0 <= j < kept.len() ==> !removes.contains(#[trigger] kept[j]),
    ensures
        forall|j: int|
            0 <= j < cancel_from(removes, adds, i, kept).adds.len() ==> !cancel_from(
                removes,
                adds,
                i,
                kept,
            ).removes.contains(#[trigger] cancel_from(removes, adds, i, kept).adds[j]),
    decreases adds.len() - i,
{
    if i < adds.len() {
        lemma_first_index(removes, adds[i]);
        let k = first_index(removes, adds[i]);
        if k < removes.len() {
            let fewer = removes.remove(k);
            assert forall|j: int| 0 <= j < kept.len() implies !fewer.contains(
                #[trigger] kept[j],
            ) by {
                if fewer.contains(kept[j]) {
                    let m = choose|m: int| 0 <= m < fewer.len() && fewer[m] == kept[j];
                    let m0 = if m < k { m } else { m + 1 };
                    assert(removes[m0] == kept[j]);
                }
            }
            lemma_cancel_from_disjoint(fewer, adds, i + 1, kept);
            assert(cancel_from(removes, adds, i, kept) == cancel_from(fewer, adds, i + 1, kept));
        } else {
            let more = kept.push(adds[i]);
            assert forall|j: int| 0 <= j < more.len() implies !removes.contains(
                #[trigger] more[j],
            ) by {
                if j < kept.len() {
                    assert(more[j] == kept[j]);
                }
            }
            lemma_cancel_from_disjoint(removes, adds, i + 1, more);
            assert(cancel_from(removes, adds, i, kept) == cancel_from(removes, adds, i + 1, more));
        }
    } else {
        assert(cancel_from(removes, adds, i, kept) == (ConflictView { removes, adds: kept }));
    }
}

proof fn lemma_cancel_from_nothing(
    removes: Seq<ValueView>,
    adds: Seq<ValueView>,
    i: int,
)
    requires
        0 <= i <= adds.len(),
        forall|j: int| 0 <= j < adds.len() ==> !removes.contains(#[trigger] adds[j]),
    ensures
        cancel_from(removes, adds, i, adds.take(i)) == (ConflictView { removes, adds }),
    decreases adds.len() - i,
{
    if i < adds.len() {
        lemma_first_index(removes, adds[i]);
        assert(adds.take(i).push(adds[i]) =~= adds.take(i + 1));
        lemma_cancel_from_nothing(removes, adds, i + 1);
    } else {
        assert(adds.take(i) =~= adds);
    }
}

/// After cancelling, no value is both added and removed.
pub proof fn lemma_cancel_disjoint(conflict: ConflictView)
    ensures
        forall|j: int|
            0 <= j < cancel(conflict).adds.len() ==> !cancel(conflict).removes.contains(
                #[trigger] cancel(conflict).adds[j],
            ),
{
    lemma_cancel_from_disjoint(conflict.removes, conflict.adds, 0, Seq::empty());
}

/// Cancelling a second time changes nothing.
pub proof fn lemma_cancel_idempotent(conflict: ConflictView)
    ensures
        cancel(cancel(conflict)) == cancel(conflict),
{
    lemma_cancel_disjoint(conflict);
    let once = cancel(conflict);
    lemma_cancel_from_nothing(once.removes, once.adds, 0);
    assert(once.adds.take(0) =~= Seq::<ValueView>::empty());
}

proof fn lemma_cancel_from_order(
    removes: Seq<ValueView>,
    adds: Seq<ValueView>,
    i: int,
    kept: Seq<ValueView>,
    all_removes: Seq<ValueView>,
)
    requires
        0 <= i <= adds.len(),
        is_subsequence(kept, adds.take(i)),
        is_subsequence(removes, all_removes),
    ensures
        is_subsequence(cancel_from(removes, adds, i, kept).adds, adds),
        is_subsequence(cancel_from(removes, adds, i, kept).removes, all_removes),
    decreases adds.len() - i,
{
    if i < adds.len() {
        lemma_first_index(removes, adds[i]);
        let k = first_index(removes, adds[i]);
        assert(adds.take(i + 1).drop_last() =~= adds.take(i));
        assert(adds.take(i + 1).last() == adds[i]);
        if k < removes.len() {
            lemma_subsequence_remove(removes, all_removes, k);
            lemma_cancel_from_order(removes.remove(k), adds, i + 1, kept, all_removes);
        } else {
            assert(kept.push(adds[i]).drop_last() =~= kept);
            lemma_cancel_from_order(removes, adds, i + 1, kept.push(adds[i]), all_removes);
        }
    } else {
        assert(adds.take(i) =~= adds);
    }
}

/// The adds and the removes that are left after cancelling stand in the
/// order in which they stood before.
pub proof fn lemma_cancel_keeps_order(conflict: ConflictView)
    ensures
        is_subsequence(cancel(conflict).adds, conflict.adds),
        is_subsequence(cancel(conflict).removes, conflict.removes),
{
    lemma_subsequence_self(conflict.removes);
    assert(conflict.adds.take(0) =~= Seq::<ValueView>::empty());
    lemma_cancel_from_order(
        conflict.removes,
        conflict.adds,
        0,
        Seq::empty(),
        conflict.removes,
    );
}

proof fn lemma_splice_plain(
    store: StoreView,
    parts: Seq<ValueView>,
    i: int,
    inverted: bool,
    acc: ConflictView,
)
    requires
        0 <= i <= parts.len(),
        no_conflict_parts(parts),
    ensures
        splice_from(store, parts, i, inverted, acc) == Some(
            if inverted {
                ConflictView { removes: acc.removes + parts.skip(i), adds: acc.adds }
            } else {
                ConflictView { removes: acc.removes, adds: acc.adds + parts.skip(i) }
            },
        ),
    decreases parts.len() - i,
{
    if i < parts.len() {
        let inner = part_to_conflict(store, parts[i])->0;
        let next = absorb(acc, inner, inverted);
        lemma_splice_plain(store, parts, i + 1, inverted, next);
        if inverted {
            assert(next.removes + parts.skip(i + 1) =~= acc.removes + parts.skip(i));
            assert(next.adds =~= acc.adds);
        } else {
            assert(next.adds + parts.skip(i + 1) =~= acc.adds + parts.skip(i));
            assert(next.removes =~= acc.removes);
        }
    } else {
        assert(acc.removes + parts.skip(i) =~= acc.removes);
        assert(acc.adds + parts.skip(i) =~= acc.adds);
    }
}

/// A conflict none of whose parts refers to a conflict is its own flattening.
pub proof fn lemma_flatten_plain(store: StoreView, conflict: ConflictView)
    requires
        no_conflict_parts(conflict.removes),
        no_conflict_parts(conflict.adds),
    ensures
        flatten(store, conflict) == Some(conflict),
{
    let empty = ConflictView { removes: Seq::empty(), adds: Seq::empty() };
    lemma_splice_plain(store, conflict.adds, 0, false, empty);
    lemma_splice_plain(store, conflict.removes, 0, true, empty);
    let added = splice_from(store, conflict.adds, 0, false, empty)->0;
    let removed = splice_from(store, conflict.removes, 0, true, empty)->0;
    assert(added.adds =~= conflict.adds);
    assert(removed.removes =~= conflict.removes);
    assert(removed.removes + added.removes =~= conflict.removes);
    assert(added.adds + removed.adds =~= conflict.adds);
}

/// What the removes of a cancelled conflict hold, the removes held before.
proof fn lemma_cancel_from_parts(
    removes: Seq<ValueView>,
    adds: Seq<ValueView>,
    i: int,
    kept: Seq<ValueView>,
)
    requires
        0 <= i <= adds.len(),
        no_conflict_parts(removes),
        no_conflict_parts(adds),
        no_conflict_parts(kept),
    ensures
        no_conflict_parts(cancel_from(removes, adds, i, kept).removes),
        no_conflict_parts(cancel_from(removes, adds, i, kept).adds),
    decreases adds.len() - i,
{
    if i < adds.len() {
        lemma_first_index(removes, adds[i]);
        let k = first_index(removes, adds[i]);
        if k < removes.len() {
            let fewer = removes.remove(k);
            assert forall|j: int| 0 <= j < fewer.len() implies !(#[trigger] fewer[j] is Conflict) by {
                let j0 = if j < k { j } else { j + 1 };
                assert(fewer[j] == removes[j0]);
            }
            lemma_cancel_from_parts(fewer, adds, i + 1, kept);
        } else {
            lemma_cancel_from_parts(removes, adds, i + 1, kept.push(adds[i]));
        }
    }
}

proof fn lemma_splice_flat(
    store: StoreView,
    parts: Seq<ValueView>,
    i: int,
    inverted: bool,
    acc: ConflictView,
)
    requires
        0 <= i <= parts.len(),
        conflicts_are_flat(store),
        no_conflict_parts(acc.removes),
        no_conflict_parts(acc.adds),
        splice_from(store, parts, i, inverted, acc) is Some,
    ensures
        no_conflict_parts(splice_from(store, parts, i, inverted, acc)->0.removes),
        no_conflict_parts(splice_from(store, parts, i, inverted, acc)->0.adds),
    decreases parts.len() - i,
{
    if i < parts.len() {
        let inner = part_to_conflict(store, parts[i])->0;
        match parts[i] {
            ValueView::Conflict(id) => {
                let at = object_index(id)->0;
                assert(inner == store.conflicts[at]);
            },
            _ => {},
        }
        lemma_splice_flat(store, parts, i + 1, inverted, absorb(acc, inner, inverted));
    }
}

/// In a store none of whose conflicts has a part that refers to a conflict,
/// no part of a flattened conflict refers to a conflict.
pub proof fn lemma_flatten_is_flat(store: StoreView, conflict: ConflictView)
    requires
        conflicts_are_flat(store),
        flatten(store, conflict) is Some,
    ensures
        no_conflict_parts(flatten(store, conflict)->0.removes),
        no_conflict_parts(flatten(store, conflict)->0.adds),
{
    let nothing = ConflictView { removes: Seq::empty(), adds: Seq::empty() };
    lemma_splice_flat(store, conflict.adds, 0, false, nothing);
    lemma_splice_flat(store, conflict.removes, 0, true, nothing);
}

/// Simplifying a second time changes nothing: the conflict that the result
/// of a simplification stands for simplifies to the same result again, and
/// the store stays as the first simplification left it.  So the empty
/// conflict gives no value again, the addition of the one value gives the
/// value again, and the conflict that was written is read under the
/// identifier returned and gives that identifier again.
///
/// This is stated of conflicts whose flattening holds no reference to a
/// further conflict, and of a store that can name one conflict more.
pub proof fn lemma_simplify_idempotent(store: StoreView, conflict: ConflictView)
    requires
        store.conflicts.len() < top_bound(),
        flatten(store, conflict) is Some,
        no_conflict_parts(flatten(store, conflict)->0.removes),
        no_conflict_parts(flatten(store, conflict)->0.adds),
    ensures
        simplify(store, conflict).1 is Ok,
        standing_for(simplify(store, conflict).0, simplify(store, conflict).1->Ok_0) is Some,
        stays_conflict(cancel(flatten(store, conflict)->0)) ==> standing_for(
            simplify(store, conflict).0,
            simplify(store, conflict).1->Ok_0,
        ) == Some(cancel(flatten(store, conflict)->0)),
        simplify(
            simplify(store, conflict).0,
            standing_for(simplify(store, conflict).0, simplify(store, conflict).1->Ok_0)->0,
        ) == simplify(store, conflict),
{
    let flat = flatten(store, conflict)->0;
    let rest = cancel(flat);
    let after = simplify(store, conflict).0;
    lemma_cancel_from_parts(flat.removes, flat.adds, 0, Seq::empty());
    lemma_cancel_idempotent(flat);
    if rest.adds.len() == 0 {
        let nothing = ConflictView { removes: Seq::empty(), adds: Seq::empty() };
        lemma_flatten_plain(after, nothing);
    } else if rest.removes.len() == 0 && rest.adds.len() == 1 {
        let value = rest.adds[0];
        let one = ConflictView { removes: Seq::empty(), adds: seq![value] };
        assert(one.adds[0] == value);
        lemma_flatten_plain(after, one);
        assert(one.adds.take(0) =~= Seq::<ValueView>::empty());
        lemma_cancel_from_nothing(one.removes, one.adds, 0);
    } else {
        lemma_flatten_plain(after, rest);
        lemma_written_is_read(store.conflicts, rest);
        lemma_first_index(store.conflicts, rest);
        assert(with_object(after.conflicts, rest) == after.conflicts);
    }
}

/// Moving a change onto another base and back leaves the change: the conflict
/// of adding `a` and the stored conflict "`b` and `c` for `a`", for `b`,
/// simplifies to `c`, and nothing is written.
pub proof fn lemma_round_trip_cancels(
    store: StoreView,
    a: ValueView,
    b: ValueView,
    c: ValueView,
    inner: Seq<u8>,
)
    requires
        !(a is Conflict),
        !(b is Conflict),
        !(c is Conflict),
        store.conflict(inner) == Some(ConflictView { removes: seq![a], adds: seq![b, c] }),
    ensures
        simplify(
            store,
            ConflictView { removes: seq![b], adds: seq![a, ValueView::Conflict(inner)] },
        ) == (store, Ok::<Option<ValueView>, StoreError>(Some(c))),
{
    let outer = ConflictView { removes: seq![b], adds: seq![a, ValueView::Conflict(inner)] };
    let empty = ConflictView { removes: Seq::empty(), adds: Seq::empty() };
    let acc1 = absorb(empty, part_to_conflict(store, outer.adds[0])->0, false);
    let acc2 = absorb(acc1, part_to_conflict(store, outer.adds[1])->0, false);
    assert(splice_from(store, outer.adds, 2, false, acc2) == Some(acc2));
    assert(splice_from(store, outer.adds, 1, false, acc1) == Some(acc2));
    assert(splice_from(store, outer.adds, 0, false, empty) == Some(acc2));
    let acc3 = absorb(empty, part_to_conflict(store, outer.removes[0])->0, true);
    assert(splice_from(store, outer.removes, 1, true, acc3) == Some(acc3));
    assert(splice_from(store, outer.removes, 0, true, empty) == Some(acc3));
    let adds = seq![a, b, c];
    let r0 = seq![b, a];
    assert(acc2.adds + acc3.adds =~= adds);
    assert(acc3.removes + acc2.removes =~= r0);
    assert(flatten(store, outer) == Some(ConflictView { removes: r0, adds }));
    lemma_first_index(r0, a);
    assert(r0[1] == a);
    assert(first_index(r0, a) == 0 || first_index(r0, a) == 1);
    let r1 = r0.remove(first_index(r0, a));
    assert(r1 =~= seq![b]);
    lemma_first_index(r1, b);
    assert(r1[0] == b);
    assert(first_index(r1, b) == 0);
    let r2 = r1.remove(0);
    assert(r2 =~= Seq::<ValueView>::empty());
    lemma_first_index(r2, c);
    let none = Seq::<ValueView>::empty();
    assert(cancel_from(r2, adds, 3, none.push(c)) == (ConflictView {
        removes: r2,
        adds: none.push(c),
    }));
    assert(cancel_from(r2, adds, 2, none) == cancel_from(r2, adds, 3, none.push(c)));
    assert(cancel_from(r1, adds, 1, none) == cancel_from(r2, adds, 2, none));
    assert(cancel_from(r0, adds, 0, none) == cancel_from(r1, adds, 1, none));
}

/// Appends copies of the parts of `src` to `dst`.
fn append_parts(dst: &mut Vec<ConflictPart>, src: &Vec<ConflictPart>)
    ensures
        parts_view(final(dst)@) == parts_view(old(dst)@) + parts_view(src@),
{
    let ghost before = parts_view(dst@);
    assert(before + parts_view(src@).take(0) =~= before);
    let mut i: usize = 0;
    while i < src.len()
        invariant
            i <= src.len(),
            parts_view(dst@) == before + parts_view(src@).take(i as int),
        decreases src.len() - i,
    {
        let ghost prev = parts_view(dst@);
        dst.push(src[i].clone());
        assert(parts_view(dst@) =~= prev.push(src@[i as int]@));
        assert(parts_view(src@).take(i as int).push(src@[i as int]@) =~= parts_view(src@).take(
            i as int + 1,
        ));
        assert(parts_view(dst@) =~= before + parts_view(src@).take(i as int + 1));
        i = i + 1;
    }
    assert(parts_view(src@).take(src.len() as int) =~= parts_view(src@));
}

/// The first position of `parts` that holds `value`; the length if none does.
fn find_part(parts: &Vec<ConflictPart>, value: &TreeValue) -> (i: usize)
    ensures
        i == first_index(parts_view(parts@), value@),
        i <= parts.len(),
{
    let mut i: usize = 0;
    while i < parts.len()
        invariant
            i <= parts.len(),
            first_index(parts_view(parts@), value@) == first_index_from(
                parts_view(parts@),
                value@,
                i as int,
            ),
        decreases parts.len() - i,
    {
        if parts[i].value.equals(value) {
            return i;
        }
        i = i + 1;
    }
    i
}

/// The conflict that `part` stands for: the stored conflict that it refers
/// to, or the addition of its own value.
pub fn conflict_part_to_conflict(store: &Store, part: &ConflictPart) -> (r: Result<
    Conflict,
    StoreError,
>)
    ensures
        match r {
            Ok(conflict) => part_to_conflict(store@, part@) == Some(conflict@),
            Err(e) => part_to_conflict(store@, part@) is None && e == StoreError::NotFound,
        },
{
    match &part.value {
        TreeValue::Conflict(id) => store.read_conflict(id),
        other => {
            let mut adds: Vec<ConflictPart> = Vec::new();
            adds.push(ConflictPart { value: other.clone() });
            let conflict = Conflict { removes: Vec::new(), adds };
            assert(conflict@.removes =~= Seq::<ValueView>::empty());
            assert(conflict@.adds =~= seq![part@]);
            Ok(conflict)
        },
    }
}

/// Absorbs the parts in turn into the two lists.
fn splice_parts(
    store: &Store,
    parts: &Vec<ConflictPart>,
    inverted: bool,
    removes: &mut Vec<ConflictPart>,
    adds: &mut Vec<ConflictPart>,
) -> (r: Result<(), StoreError>)
    ensures
        match r {
            Ok(_) => splice_from(
                store@,
                parts_view(parts@),
                0,
                inverted,
                ConflictView {
                    removes: parts_view(old(removes)@),
                    adds: parts_view(old(adds)@),
                },
            ) == Some(
                ConflictView {
                    removes: parts_view(final(removes)@),
                    adds: parts_view(final(adds)@),
                },
            ),
            Err(e) => e == StoreError::NotFound && splice_from(
                store@,
                parts_view(parts@),
                0,
                inverted,
                ConflictView {
                    removes: parts_view(old(removes)@),
                    adds: parts_view(old(adds)@),
                },
            ) is None,
        },
{
    let ghost start = ConflictView { removes: parts_view(removes@), adds: parts_view(adds@) };
    let ghost all = parts_view(parts@);
    let mut i: usize = 0;
    while i < parts.len()
        invariant
            i <= parts.len(),
            all == parts_view(parts@),
            start == (ConflictView {
                removes: parts_view(old(removes)@),
                adds: parts_view(old(adds)@),
            }),
            splice_from(store@, all, 0, inverted, start) == splice_from(
                store@,
                all,
                i as int,
                inverted,
                ConflictView { removes: parts_view(removes@), adds: parts_view(adds@) },
            ),
        decreases parts.len() - i,
    {
        let ghost acc = ConflictView { removes: parts_view(removes@), adds: parts_view(adds@) };
        match &parts[i].value {
            TreeValue::Conflict(_) => {
                match conflict_part_to_conflict(store, &parts[i]) {
                    Err(e) => {
                        assert(all[i as int] == parts@[i as int]@);
                        assert(splice_from(store@, all, i as int, inverted, acc) is None);
                        return Err(e);
                    },
                    Ok(inner) => {
                        assert(all[i as int] == parts@[i as int]@);
                        if inverted {
                            append_parts(removes, &inner.adds);
                            append_parts(adds, &inner.removes);
                        } else {
                            append_parts(removes, &inner.removes);
                            append_parts(adds, &inner.adds);
                        }
                    },
                }
            },
            _ => {
                let ghost inner = part_to_conflict(store@, all[i as int])->0;
                if inverted {
                    removes.push(parts[i].clone());
                } else {
                    adds.push(parts[i].clone());
                }
                assert(parts_view(removes@) =~= absorb(acc, inner, inverted).removes);
                assert(parts_view(adds@) =~= absorb(acc, inner, inverted).adds);
            },
        }
        i = i + 1;
    }
    Ok(())
}

/// Simplifies a conflict: splices in the conflicts that its parts refer to,
/// cancels each add against the first equal remove, and returns what stands
/// for the rest: nothing where no add is left, the value where one add and no
/// remove is left, and else the rest itself, written to the store.
pub fn simplify_conflict(store: &mut Store, conflict: &Conflict) -> (r: Result<
    Option<TreeValue>,
    StoreError,
>)
    ensures
        final(store)@ == simplify(old(store)@, conflict@).0,
        outcome_view(r) == simplify(old(store)@, conflict@).1,
        final(store)@.wf(),
        flatten(old(store)@, conflict@) is Some && stays_conflict(
            cancel(flatten(old(store)@, conflict@)->0),
        ) ==> (match r {
            Ok(Some(TreeValue::Conflict(id))) => final(store)@.conflict(id@) == Some(
                cancel(flatten(old(store)@, conflict@)->0),
            ),
            _ => false,
        }),
{
    proof {
        use_type_invariant(&*store);
    }
    let mut new_removes: Vec<ConflictPart> = Vec::new();
    let mut new_adds: Vec<ConflictPart> = Vec::new();
    assert(parts_view(new_removes@) =~= Seq::<ValueView>::empty());
    assert(parts_view(new_adds@) =~= Seq::<ValueView>::empty());
    match splice_parts(store, &conflict.adds, false, &mut new_removes, &mut new_adds) {
        Err(e) => {
            return Err(e);
        },
        Ok(_) => {},
    }
    // What the added conflicts remove stands behind the removes of the
    // conflict itself, and what the removed conflicts remove stands behind
    // its adds.
    let mut removes_of_added: Vec<ConflictPart> = Vec::new();
    core::mem::swap(&mut new_removes, &mut removes_of_added);
    let mut adds_of_removed: Vec<ConflictPart> = Vec::new();
    assert(parts_view(adds_of_removed@) =~= Seq::<ValueView>::empty());
    match splice_parts(store, &conflict.removes, true, &mut new_removes, &mut adds_of_removed) {
        Err(e) => {
            return Err(e);
        },
        Ok(_) => {},
    }
    let ghost own_removes = parts_view(new_removes@);
    let ghost own_adds = parts_view(new_adds@);
    let ghost other_removes = parts_view(removes_of_added@);
    let ghost other_adds = parts_view(adds_of_removed@);
    new_removes.append(&mut removes_of_added);
    new_adds.append(&mut adds_of_removed);
    assert(parts_view(new_removes@) =~= own_removes + other_removes);
    assert(parts_view(new_adds@) =~= own_adds + other_adds);
    let ghost flat = ConflictView {
        removes: parts_view(new_removes@),
        adds: parts_view(new_adds@),
    };
    assert(flatten(store@, conflict@) == Some(flat));
    let mut kept: Vec<ConflictPart> = Vec::new();
    assert(parts_view(kept@) =~= Seq::<ValueView>::empty());
    let mut i: usize = 0;
    while i < new_adds.len()
        invariant
            i <= new_adds.len(),
            flat.adds == parts_view(new_adds@),
            cancel(flat) == cancel_from(
                parts_view(new_removes@),
                flat.adds,
                i as int,
                parts_view(kept@),
            ),
        decreases new_adds.len() - i,
    {
        let k = find_part(&new_removes, &new_adds[i].value);
        let ghost before = parts_view(new_removes@);
        let ghost held = parts_view(kept@);
        if k < new_removes.len() {
            new_removes.remove(k);
            assert(parts_view(new_removes@) =~= before.remove(k as int));
        } else {
            kept.push(new_adds[i].clone());
            assert(parts_view(kept@) =~= held.push(flat.adds[i as int]));
        }
        i = i + 1;
    }
    if kept.len() == 0 {
        return Ok(None);
    }
    if new_removes.len() == 0 && kept.len() == 1 {
        return Ok(Some(kept[0].value.clone()));
    }
    let rest = Conflict { removes: new_removes, adds: kept };
    match store.write_conflict(&rest) {
        Ok(id) => Ok(Some(TreeValue::Conflict(id))),
        Err(e) => Err(e),
    }
}

} // verus!
