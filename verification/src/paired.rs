//! The paired walk of two listings: one step for each name at which they differ.

use vstd::prelude::*;
use crate::listing::{
    lemma_lookup_absent, lemma_lookup_entry, lemma_lookup_found, lookup, names_ascending, Listing,
};
use crate::matchers::Matcher;
use crate::repo_path::{
    lemma_name_lt_asymmetric, lemma_name_lt_irreflexive, lemma_name_lt_total,
    lemma_name_lt_transitive, name_lt, RepoPathComponent,
};
use crate::store::{opt_within, refs_within, value_within};
use crate::stored_tree::StoredTree;
use crate::tree::Tree;
use crate::values::{opt_ref_view, TreeValue, ValueView};

verus! {

/// One difference between two listings: a name, what the first listing holds
/// under it and what the second holds under it.
pub type Cell = (Seq<u8>, Option<ValueView>, Option<ValueView>);

/// The differences between what `d1` holds from position `i1` on and what `d2`
/// holds from position `i2` on, in ascending order of the names: a name that
/// only one side has, with that side's value, and a name that both have with
/// different values, with both.
pub open spec fn paired_from(d1: Listing, d2: Listing, i1: int, i2: int) -> Seq<Cell>
    decreases d1.len() - i1 + d2.len() - i2,
{
    if i1 < 0 || i2 < 0 || i1 > d1.len() || i2 > d2.len() {
        Seq::empty()
    } else if i1 == d1.len() && i2 == d2.len() {
        Seq::empty()
    } else if i2 == d2.len() {
        seq![(d1[i1].0, Some(d1[i1].1), None)] + paired_from(d1, d2, i1 + 1, i2)
    } else if i1 == d1.len() {
        seq![(d2[i2].0, None, Some(d2[i2].1))] + paired_from(d1, d2, i1, i2 + 1)
    } else if name_lt(d1[i1].0, d2[i2].0) {
        seq![(d1[i1].0, Some(d1[i1].1), None)] + paired_from(d1, d2, i1 + 1, i2)
    } else if name_lt(d2[i2].0, d1[i1].0) {
        seq![(d2[i2].0, None, Some(d2[i2].1))] + paired_from(d1, d2, i1, i2 + 1)
    } else if d1[i1].1 != d2[i2].1 {
        seq![(d1[i1].0, Some(d1[i1].1), Some(d2[i2].1))] + paired_from(d1, d2, i1 + 1, i2 + 1)
    } else {
        paired_from(d1, d2, i1 + 1, i2 + 1)
    }
}

/// The differences between two listings.
pub open spec fn paired(d1: Listing, d2: Listing) -> Seq<Cell> {
    paired_from(d1, d2, 0, 0)
}

/// A difference with its two sides exchanged.
pub open spec fn swap_cell(cell: Cell) -> Cell {
    (cell.0, cell.2, cell.1)
}

/// The differences with the two sides of each exchanged.
pub open spec fn swapped(cells: Seq<Cell>) -> Seq<Cell> {
    cells.map_values(|c: Cell| swap_cell(c))
}

proof fn lemma_paired_from_same(d: Listing, i: int)
    requires
        0 <= i <= d.len(),
    ensures
        paired_from(d, d, i, i).len() == 0,
    decreases d.len() - i,
{
    if i < d.len() {
        lemma_name_lt_irreflexive(d[i].0);
        lemma_paired_from_same(d, i + 1);
    }
}

/// A listing does not differ from itself.
pub proof fn lemma_paired_same(d: Listing)
    ensures
        paired(d, d) == Seq::<Cell>::empty(),
{
    lemma_paired_from_same(d, 0);
    assert(paired(d, d) =~= Seq::<Cell>::empty());
}

proof fn lemma_paired_from_swap(d1: Listing, d2: Listing, i1: int, i2: int)
    requires
        0 <= i1 <= d1.len(),
        0 <= i2 <= d2.len(),
    ensures
        paired_from(d2, d1, i2, i1) == swapped(paired_from(d1, d2, i1, i2)),
    decreases d1.len() - i1 + d2.len() - i2,
{
    let forth = paired_from(d1, d2, i1, i2);
    let back = paired_from(d2, d1, i2, i1);
    if i1 == d1.len() && i2 == d2.len() {
        assert(back =~= swapped(forth));
    } else if i2 == d2.len() {
        lemma_paired_from_swap(d1, d2, i1 + 1, i2);
        assert(back =~= swapped(forth));
    } else if i1 == d1.len() {
        lemma_paired_from_swap(d1, d2, i1, i2 + 1);
        assert(back =~= swapped(forth));
    } else {
        lemma_name_lt_asymmetric(d1[i1].0, d2[i2].0);
        lemma_name_lt_total(d1[i1].0, d2[i2].0);
        if name_lt(d1[i1].0, d2[i2].0) {
            lemma_paired_from_swap(d1, d2, i1 + 1, i2);
            assert(back =~= swapped(forth));
        } else if name_lt(d2[i2].0, d1[i1].0) {
            lemma_paired_from_swap(d1, d2, i1, i2 + 1);
            assert(back =~= swapped(forth));
        } else {
            lemma_paired_from_swap(d1, d2, i1 + 1, i2 + 1);
            assert(back =~= swapped(forth));
        }
    }
}

/// Exchanging the two listings exchanges the two sides of every difference
/// and changes nothing else.
pub proof fn lemma_paired_swap(d1: Listing, d2: Listing)
    ensures
        paired(d2, d1) == swapped(paired(d1, d2)),
{
    lemma_paired_from_swap(d1, d2, 0, 0);
}

/// What holds of every difference: a side that is present is an entry of its
/// listing under the difference's name, at or behind the starting position;
/// one side at least is present; and two present sides differ.
pub open spec fn cell_from(d1: Listing, d2: Listing, i1: int, i2: int, cell: Cell) -> bool {
    &&& cell.1 is Some ==> exists|k: int| i1 <= k < d1.len() && d1[k] == (cell.0, cell.1->0)
    &&& cell.2 is Some ==> exists|k: int| i2 <= k < d2.len() && d2[k] == (cell.0, cell.2->0)
    &&& cell.1 is Some || cell.2 is Some
    &&& cell.1 != cell.2
}

/// Every side of every difference from given positions on is an entry of its
/// listing at or behind its position, one side at least is present, and two
/// present sides differ.
pub proof fn lemma_paired_from_cells(d1: Listing, d2: Listing, i1: int, i2: int)
    requires
        0 <= i1 <= d1.len(),
        0 <= i2 <= d2.len(),
    ensures
        forall|n: int|
            0 <= n < paired_from(d1, d2, i1, i2).len() ==> cell_from(
                d1,
                d2,
                i1,
                i2,
                #[trigger] paired_from(d1, d2, i1, i2)[n],
            ),
    decreases d1.len() - i1 + d2.len() - i2,
{
    let cells = paired_from(d1, d2, i1, i2);
    if i1 == d1.len() && i2 == d2.len() {
    } else {
        let left = i2 == d2.len() || (i1 < d1.len() && name_lt(d1[i1].0, d2[i2].0));
        let right = !left && (i1 == d1.len() || name_lt(d2[i2].0, d1[i1].0));
        let j1 = if right { i1 } else { i1 + 1 };
        let j2 = if left { i2 } else { i2 + 1 };
        lemma_paired_from_cells(d1, d2, j1, j2);
        let rest = paired_from(d1, d2, j1, j2);
        if !left && !right {
            lemma_name_lt_total(d1[i1].0, d2[i2].0);
        }
        assert forall|n: int| 0 <= n < cells.len() implies cell_from(
            d1,
            d2,
            i1,
            i2,
            #[trigger] cells[n],
        ) by {
            if cells.len() == rest.len() {
                assert(cells[n] == rest[n]);
                assert(cell_from(d1, d2, j1, j2, rest[n]));
                let c = rest[n];
                if c.1 is Some {
                    let k = choose|k: int| j1 <= k < d1.len() && d1[k] == (c.0, c.1->0);
                    assert(i1 <= k < d1.len() && d1[k] == (c.0, c.1->0));
                }
                if c.2 is Some {
                    let k = choose|k: int| j2 <= k < d2.len() && d2[k] == (c.0, c.2->0);
                    assert(i2 <= k < d2.len() && d2[k] == (c.0, c.2->0));
                }
            } else if n == 0 {
                if cells[0].1 is Some {
                    assert(d1[i1] == (cells[0].0, cells[0].1->0));
                }
                if cells[0].2 is Some {
                    assert(d2[i2] == (cells[0].0, cells[0].2->0));
                }
            } else {
                assert(cells[n] == rest[n - 1]);
                assert(cell_from(d1, d2, j1, j2, rest[n - 1]));
                let c = rest[n - 1];
                if c.1 is Some {
                    let k = choose|k: int| j1 <= k < d1.len() && d1[k] == (c.0, c.1->0);
                    assert(i1 <= k < d1.len() && d1[k] == (c.0, c.1->0));
                }
                if c.2 is Some {
                    let k = choose|k: int| j2 <= k < d2.len() && d2[k] == (c.0, c.2->0);
                    assert(i2 <= k < d2.len() && d2[k] == (c.0, c.2->0));
                }
            }
        }
    }
}

/// Every difference's name is less than the names of the differences behind it.
pub open spec fn cells_ascending(cells: Seq<Cell>) -> bool {
    forall|a: int, b: int|
        0 <= a < b < cells.len() ==> name_lt(#[trigger] cells[a].0, #[trigger] cells[b].0)
}

/// The differences between two ascending listings are ascending by name.
pub proof fn lemma_paired_from_ascending(d1: Listing, d2: Listing, i1: int, i2: int)
    requires
        0 <= i1 <= d1.len(),
        0 <= i2 <= d2.len(),
        names_ascending(d1),
        names_ascending(d2),
    ensures
        cells_ascending(paired_from(d1, d2, i1, i2)),
    decreases d1.len() - i1 + d2.len() - i2,
{
    let cells = paired_from(d1, d2, i1, i2);
    if i1 == d1.len() && i2 == d2.len() {
    } else {
        let left = i2 == d2.len() || (i1 < d1.len() && name_lt(d1[i1].0, d2[i2].0));
        let right = !left && (i1 == d1.len() || name_lt(d2[i2].0, d1[i1].0));
        let j1 = if right { i1 } else { i1 + 1 };
        let j2 = if left { i2 } else { i2 + 1 };
        let rest = paired_from(d1, d2, j1, j2);
        lemma_paired_from_ascending(d1, d2, j1, j2);
        lemma_paired_from_cells(d1, d2, j1, j2);
        if cells.len() != rest.len() {
            if !left && !right {
                lemma_name_lt_total(d1[i1].0, d2[i2].0);
            }
            assert forall|a: int, b: int| 0 <= a < b < cells.len() implies name_lt(
                #[trigger] cells[a].0,
                #[trigger] cells[b].0,
            ) by {
                assert(cells[b] == rest[b - 1]);
                if a > 0 {
                    assert(cells[a] == rest[a - 1]);
                } else {
                    let c = rest[b - 1];
                    assert(cell_from(d1, d2, j1, j2, c));
                    if c.1 is Some {
                        let k = choose|k: int| j1 <= k < d1.len() && d1[k] == (c.0, c.1->0);
                        if left || (!left && !right) {
                            assert(name_lt(d1[i1].0, d1[k].0));
                        } else {
                            if k > i1 {
                                assert(name_lt(d1[i1].0, d1[k].0));
                                lemma_name_lt_transitive(d2[i2].0, d1[i1].0, d1[k].0);
                            }
                        }
                    } else {
                        let k = choose|k: int| j2 <= k < d2.len() && d2[k] == (c.0, c.2->0);
                        if right || (!left && !right) {
                            assert(name_lt(d2[i2].0, d2[k].0));
                        } else {
                            if k > i2 {
                                assert(name_lt(d2[i2].0, d2[k].0));
                                lemma_name_lt_transitive(d1[i1].0, d2[i2].0, d2[k].0);
                            }
                        }
                    }
                }
            }
        } else {
            assert(cells =~= rest);
        }
    }
}

/// The difference that a name makes: the name, and what each listing holds under it.
pub open spec fn cell_of(d1: Listing, d2: Listing, name: Seq<u8>) -> Cell {
    (name, lookup(d1, name), lookup(d2, name))
}

/// The names before the two positions are less than the names that the other
/// listing holds at its position and behind it.
spec fn frontier(d1: Listing, d2: Listing, i1: int, i2: int) -> bool {
    &&& forall|k1: int, k2: int|
        0 <= k1 < i1 && i2 <= k2 < d2.len() ==> name_lt(
            (#[trigger] d1[k1]).0,
            (#[trigger] d2[k2]).0,
        )
    &&& forall|k1: int, k2: int|
        0 <= k2 < i2 && i1 <= k1 < d1.len() ==> name_lt(
            (#[trigger] d2[k2]).0,
            (#[trigger] d1[k1]).0,
        )
}

/// An entry of the first listing that the second does not hold is the cause of a difference.
spec fn left_covered(d1: Listing, d2: Listing, cells: Seq<Cell>, k: int) -> bool {
    lookup(d2, d1[k].0) != Some(d1[k].1) ==> cells.contains(cell_of(d1, d2, d1[k].0))
}

/// An entry of the second listing that the first does not hold is the cause of a difference.
spec fn right_covered(d1: Listing, d2: Listing, cells: Seq<Cell>, k: int) -> bool {
    lookup(d1, d2[k].0) != Some(d2[k].1) ==> cells.contains(cell_of(d1, d2, d2[k].0))
}

proof fn lemma_paired_from_exact(d1: Listing, d2: Listing, i1: int, i2: int)
    requires
        0 <= i1 <= d1.len(),
        0 <= i2 <= d2.len(),
        names_ascending(d1),
        names_ascending(d2),
        frontier(d1, d2, i1, i2),
    ensures
        forall|n: int|
            0 <= n < paired_from(d1, d2, i1, i2).len() ==> (#[trigger] paired_from(
                d1,
                d2,
                i1,
                i2,
            )[n]) == cell_of(d1, d2, paired_from(d1, d2, i1, i2)[n].0),
        forall|k: int|
            i1 <= k < d1.len() ==> left_covered(d1, d2, paired_from(d1, d2, i1, i2), k),
        forall|k: int|
            i2 <= k < d2.len() ==> right_covered(d1, d2, paired_from(d1, d2, i1, i2), k),
    decreases d1.len() - i1 + d2.len() - i2,
{
    let cells = paired_from(d1, d2, i1, i2);
    if i1 == d1.len() && i2 == d2.len() {
    } else {
        let left = i2 == d2.len() || (i1 < d1.len() && name_lt(d1[i1].0, d2[i2].0));
        let right = !left && (i1 == d1.len() || name_lt(d2[i2].0, d1[i1].0));
        let j1 = if right { i1 } else { i1 + 1 };
        let j2 = if left { i2 } else { i2 + 1 };
        let rest = paired_from(d1, d2, j1, j2);
        if !left && !right {
            lemma_name_lt_total(d1[i1].0, d2[i2].0);
        }
        // The names that are passed are less than what is left on the other side.
        assert forall|k1: int, k2: int| 0 <= k1 < j1 && j2 <= k2 < d2.len() implies name_lt(
            (#[trigger] d1[k1]).0,
            (#[trigger] d2[k2]).0,
        ) by {
            if k1 == i1 {
                if k2 > i2 {
                    assert(name_lt(d2[i2].0, d2[k2].0));
                    if left {
                        lemma_name_lt_transitive(d1[i1].0, d2[i2].0, d2[k2].0);
                    }
                }
            }
        }
        assert forall|k1: int, k2: int| 0 <= k2 < j2 && j1 <= k1 < d1.len() implies name_lt(
            (#[trigger] d2[k2]).0,
            (#[trigger] d1[k1]).0,
        ) by {
            if k2 == i2 {
                if k1 > i1 {
                    assert(name_lt(d1[i1].0, d1[k1].0));
                    if right {
                        lemma_name_lt_transitive(d2[i2].0, d1[i1].0, d1[k1].0);
                    }
                }
            }
        }
        lemma_paired_from_exact(d1, d2, j1, j2);
        let shift = cells.len() - rest.len();
        assert(shift == 0 || shift == 1);
        assert forall|n: int| 0 <= n < rest.len() implies cells[n + shift] == rest[n] by {}
        // The difference at the front, if this step makes one.
        if shift == 1 {
            let name = cells[0].0;
            if left {
                lemma_lookup_entry(d1, i1);
                assert forall|k: int| 0 <= k < d2.len() implies (#[trigger] d2[k]).0 != name by {
                    lemma_name_lt_irreflexive(name);
                    if k < i2 {
                        assert(name_lt(d2[k].0, d1[i1].0));
                    } else {
                        if k > i2 {
                            assert(name_lt(d2[i2].0, d2[k].0));
                            lemma_name_lt_transitive(d1[i1].0, d2[i2].0, d2[k].0);
                        }
                    }
                }
                lemma_lookup_absent(d2, name);
            } else if right {
                lemma_lookup_entry(d2, i2);
                assert forall|k: int| 0 <= k < d1.len() implies (#[trigger] d1[k]).0 != name by {
                    lemma_name_lt_irreflexive(name);
                    if k < i1 {
                        assert(name_lt(d1[k].0, d2[i2].0));
                    } else {
                        if k > i1 {
                            assert(name_lt(d1[i1].0, d1[k].0));
                            lemma_name_lt_transitive(d2[i2].0, d1[i1].0, d1[k].0);
                        }
                    }
                }
                lemma_lookup_absent(d1, name);
            } else {
                lemma_lookup_entry(d1, i1);
                lemma_lookup_entry(d2, i2);
            }
            assert(cells[0] == cell_of(d1, d2, name));
        }
        assert forall|n: int| 0 <= n < cells.len() implies (#[trigger] cells[n]) == cell_of(
            d1,
            d2,
            cells[n].0,
        ) by {
            if n >= shift {
                assert(cells[n] == rest[n - shift]);
            }
        }
        assert forall|k: int| i1 <= k < d1.len() implies left_covered(d1, d2, cells, k) by {
            if lookup(d2, d1[k].0) != Some(d1[k].1) {
                if k >= j1 {
                    assert(left_covered(d1, d2, rest, k));
                    let c = cell_of(d1, d2, d1[k].0);
                    let n = choose|n: int| 0 <= n < rest.len() && rest[n] == c;
                    assert(cells[n + shift] == c);
                } else {
                    if !left {
                        lemma_lookup_entry(d2, i2);
                    }
                    assert(shift == 1);
                    assert(cells[0] == cell_of(d1, d2, d1[k].0));
                }
            }
        }
        assert forall|k: int| i2 <= k < d2.len() implies right_covered(d1, d2, cells, k) by {
            if lookup(d1, d2[k].0) != Some(d2[k].1) {
                if k >= j2 {
                    assert(right_covered(d1, d2, rest, k));
                    let c = cell_of(d1, d2, d2[k].0);
                    let n = choose|n: int| 0 <= n < rest.len() && rest[n] == c;
                    assert(cells[n + shift] == c);
                } else {
                    if !right {
                        lemma_lookup_entry(d1, i1);
                    }
                    assert(shift == 1);
                    assert(cells[0] == cell_of(d1, d2, d2[k].0));
                }
            }
        }
    }
}

/// The differences between two listings are the names under which the
/// listings hold different things, each once and with what each listing holds.
pub proof fn lemma_paired_lookup(d1: Listing, d2: Listing, name: Seq<u8>)
    requires
        names_ascending(d1),
        names_ascending(d2),
    ensures
        lookup(d1, name) != lookup(d2, name) <==> paired(d1, d2).contains(cell_of(d1, d2, name)),
        forall|n: int|
            0 <= n < paired(d1, d2).len() ==> (#[trigger] paired(d1, d2)[n]) == cell_of(
                d1,
                d2,
                paired(d1, d2)[n].0,
            ),
        cells_ascending(paired(d1, d2)),
{
    lemma_paired_from_exact(d1, d2, 0, 0);
    lemma_paired_from_cells(d1, d2, 0, 0);
    lemma_paired_from_ascending(d1, d2, 0, 0);
    let cells = paired(d1, d2);
    let c = cell_of(d1, d2, name);
    if lookup(d1, name) != lookup(d2, name) {
        if lookup(d1, name) is Some {
            let k = lemma_lookup_found(d1, name);
            assert(left_covered(d1, d2, cells, k));
        } else {
            let k = lemma_lookup_found(d2, name);
            assert(right_covered(d1, d2, cells, k));
        }
    }
    if cells.contains(c) {
        let n = choose|n: int| 0 <= n < cells.len() && cells[n] == c;
        assert(cell_from(d1, d2, 0, 0, cells[n]));
    }
}

/// The sides of a difference between two listings are within a bound that
/// the listings are within.
pub proof fn lemma_cell_within(d1: Listing, d2: Listing, i1: int, i2: int, bound: nat, n: int)
    requires
        0 <= i1 <= d1.len(),
        0 <= i2 <= d2.len(),
        refs_within(d1, bound),
        refs_within(d2, bound),
        0 <= n < paired_from(d1, d2, i1, i2).len(),
    ensures
        opt_within(paired_from(d1, d2, i1, i2)[n].1, bound),
        opt_within(paired_from(d1, d2, i1, i2)[n].2, bound),
{
    lemma_paired_from_cells(d1, d2, i1, i2);
    let cell = paired_from(d1, d2, i1, i2)[n];
    assert(cell_from(d1, d2, i1, i2, cell));
    if cell.1 is Some {
        let k = choose|k: int| i1 <= k < d1.len() && d1[k] == (cell.0, cell.1->0);
        assert(value_within(d1[k].1, bound));
    }
    if cell.2 is Some {
        let k = choose|k: int| i2 <= k < d2.len() && d2[k] == (cell.0, cell.2->0);
        assert(value_within(d2[k].1, bound));
    }
}

/// Takes one step of the paired walk from the positions `i1` and `i2`:
/// returns the next difference, if there is one, and the positions behind it.
pub fn paired_step<'a>(t1: &'a StoredTree, t2: &'a StoredTree, i1: usize, i2: usize) -> (r: (
    Option<(RepoPathComponent, Option<&'a TreeValue>, Option<&'a TreeValue>)>,
    usize,
    usize,
))
    requires
        i1 <= t1@.len(),
        i2 <= t2@.len(),
    ensures
        i1 <= r.1 <= t1@.len(),
        i2 <= r.2 <= t2@.len(),
        match r.0 {
            None => paired_from(t1@, t2@, i1 as int, i2 as int).len() == 0 && r.1 == t1@.len()
                && r.2 == t2@.len(),
            Some((name, before, after)) => {
                &&& paired_from(t1@, t2@, i1 as int, i2 as int).len() > 0
                &&& paired_from(t1@, t2@, i1 as int, i2 as int)[0] == (
                    name@,
                    opt_ref_view(before),
                    opt_ref_view(after),
                )
                &&& paired_from(t1@, t2@, r.1 as int, r.2 as int) == paired_from(
                    t1@,
                    t2@,
                    i1 as int,
                    i2 as int,
                ).drop_first()
            },
        },
{
    let mut j1: usize = i1;
    let mut j2: usize = i2;
    let ghost all = paired_from(t1@, t2@, i1 as int, i2 as int);
    while j1 < t1.len() || j2 < t2.len()
        invariant
            i1 <= j1 <= t1@.len(),
            i2 <= j2 <= t2@.len(),
            all == paired_from(t1@, t2@, i1 as int, i2 as int),
            all == paired_from(t1@, t2@, j1 as int, j2 as int),
        decreases t1@.len() - j1 + t2@.len() - j2,
    {
        let take_left = if j2 == t2.len() {
            true
        } else if j1 == t1.len() {
            false
        } else {
            t1.name_at(j1).lt(t2.name_at(j2))
        };
        if take_left {
            let name = t1.name_at(j1).clone();
            let before = t1.value_at(j1);
            let ghost rest = paired_from(t1@, t2@, j1 as int + 1, j2 as int);
            assert(all == seq![(t1@[j1 as int].0, Some(t1@[j1 as int].1), None::<ValueView>)]
                + rest);
            assert(all.drop_first() =~= rest);
            return (Some((name, Some(before), None)), j1 + 1, j2);
        }
        let take_right = if j1 == t1.len() {
            true
        } else {
            t2.name_at(j2).lt(t1.name_at(j1))
        };
        if take_right {
            let name = t2.name_at(j2).clone();
            let after = t2.value_at(j2);
            let ghost rest = paired_from(t1@, t2@, j1 as int, j2 as int + 1);
            assert(all == seq![(t2@[j2 as int].0, None::<ValueView>, Some(t2@[j2 as int].1))]
                + rest);
            assert(all.drop_first() =~= rest);
            return (Some((name, None, Some(after))), j1, j2 + 1);
        }
        let before = t1.value_at(j1);
        let after = t2.value_at(j2);
        if !before.equals(after) {
            let name = t1.name_at(j1).clone();
            let ghost rest = paired_from(t1@, t2@, j1 as int + 1, j2 as int + 1);
            proof {
                lemma_name_lt_total(t1@[j1 as int].0, t2@[j2 as int].0);
            }
            assert(all == seq![
                (t1@[j1 as int].0, Some(t1@[j1 as int].1), Some(t2@[j2 as int].1)),
            ] + rest);
            assert(all.drop_first() =~= rest);
            return (Some((name, Some(before), Some(after))), j1 + 1, j2 + 1);
        }
        j1 = j1 + 1;
        j2 = j2 + 1;
    }
    (None, j1, j2)
}

/// The paired walk of the entries of two trees, one difference at a time.
pub struct TreeEntryDiffIterator<'trees, 'matcher, M: Matcher> {
    tree1: &'trees StoredTree,
    tree2: &'trees StoredTree,
    position1: usize,
    position2: usize,
    _matcher: &'matcher M,
}

impl<'trees, 'matcher, M: Matcher> TreeEntryDiffIterator<'trees, 'matcher, M> {
    #[verifier::type_invariant]
    spec fn positions_in_range(self) -> bool {
        self.position1 <= self.tree1@.len() && self.position2 <= self.tree2@.len()
    }

    /// The differences that the walk has yet to give.
    pub closed spec fn remaining(&self) -> Seq<Cell> {
        paired_from(self.tree1@, self.tree2@, self.position1 as int, self.position2 as int)
    }

    /// The paired walk of the entries of `tree1` and of `tree2`, from their
    /// beginnings.  The matcher is carried along and never asked.
    pub fn new(tree1: &'trees Tree, tree2: &'trees Tree, matcher: &'matcher M) -> (r: Self)
        ensures
            r.remaining() == paired(tree1@.data, tree2@.data),
    {
        TreeEntryDiffIterator {
            tree1: tree1.data(),
            tree2: tree2.data(),
            position1: 0,
            position2: 0,
            _matcher: matcher,
        }
    }

    /// The next difference, if one is left.
    pub fn next(&mut self) -> (r: Option<
        (RepoPathComponent, Option<&'trees TreeValue>, Option<&'trees TreeValue>),
    >)
        ensures
            match r {
                None => old(self).remaining().len() == 0 && final(self).remaining().len() == 0,
                Some((name, before, after)) => {
                    &&& old(self).remaining().len() > 0
                    &&& old(self).remaining()[0] == (
                        name@,
                        opt_ref_view(before),
                        opt_ref_view(after),
                    )
                    &&& final(self).remaining() == old(self).remaining().drop_first()
                },
            },
    {
        proof {
            use_type_invariant(&*self);
        }
        let (cell, next1, next2) = paired_step(
            self.tree1,
            self.tree2,
            self.position1,
            self.position2,
        );
        self.position1 = next1;
        self.position2 = next2;
        cell
    }
}

/// The paired walk of the entries of two trees.  The matcher is carried along
/// and never asked: every difference is given, whatever its name.
pub fn diff_entries<'trees, 'matcher, M: Matcher>(
    tree1: &'trees Tree,
    tree2: &'trees Tree,
    matcher: &'matcher M,
) -> (r: TreeEntryDiffIterator<'trees, 'matcher, M>)
    ensures
        r.remaining() == paired(tree1@.data, tree2@.data),
{
    TreeEntryDiffIterator::new(tree1, tree2, matcher)
}

} // verus!
