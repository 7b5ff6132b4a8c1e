//! The canonical sorter: a merge sort of the rows under the order of rows.

use vstd::prelude::*;
use vstd::multiset::Multiset;
use vstd::relations::{sorted_by, total_ordering};
use vstd::seq_lib::{lemma_multiset_commutative, lemma_sorted_unique, to_multiset_build};
use crate::order::{
    compare_rows,
    lemma_row_relation_flip,
    lemma_row_relation_total,
    lemma_row_relation_transitive,
    row_le,
    row_order,
    row_relation,
};
use crate::relation::{lemma_not_after_total_ordering, Relation};
use crate::table::{row_fits, rows_view, CellView, Column, TableView, TypedTable, Value};

verus! {

/// The rows in canonical order: sorted by the order of rows.
pub open spec fn sorted_rows(rows: Seq<Seq<CellView>>) -> Seq<Seq<CellView>> {
    rows.sort_by(row_le())
}

impl TableView {
    /// The table with its rows in canonical order.
    pub open spec fn sorted(self) -> TableView {
        TableView { schema: self.schema, rows: sorted_rows(self.rows) }
    }
}

/// "At or before" among rows is a total order.
pub proof fn lemma_row_le_total_ordering()
    ensures
        total_ordering(row_le()),
{
    lemma_row_relation_total();
    lemma_not_after_total_ordering(row_order());
}

/// The canonical order of some rows is the one arrangement of them that is sorted.
pub proof fn lemma_sorted_rows_unique(rows: Seq<Seq<CellView>>, arranged: Seq<Seq<CellView>>)
    requires
        sorted_by(arranged, row_le()),
        arranged.to_multiset() == rows.to_multiset(),
    ensures
        arranged == sorted_rows(rows),
{
    lemma_row_le_total_ordering();
    rows.lemma_sort_by_ensures(row_le());
    lemma_sorted_unique(arranged, sorted_rows(rows), row_le());
}

/// A table that is well formed stays so however its rows are arranged.
pub proof fn lemma_well_formed_of_same_rows(a: TableView, b: TableView)
    requires
        a.well_formed(),
        b.schema == a.schema,
        b.rows.to_multiset() == a.rows.to_multiset(),
    ensures
        b.well_formed(),
{
    assert forall|i: int| 0 <= i < b.rows.len() implies row_fits(#[trigger] b.rows[i], b.schema) by {
        let row = b.rows[i];
        b.rows.to_multiset_ensures();
        a.rows.to_multiset_ensures();
        assert(b.rows.contains(row));
        assert(a.rows.to_multiset().count(row) > 0);
        assert(a.rows.contains(row));
        let k = choose|k: int| 0 <= k < a.rows.len() && a.rows[k] == row;
        assert(row_fits(a.rows[k], a.schema));
    }
}

/// The rows that a list of positions picks, in the order of the list.
pub open spec fn picked(rows: Seq<Seq<CellView>>, positions: Seq<usize>) -> Seq<Seq<CellView>> {
    Seq::new(positions.len(), |k: int| rows[positions[k] as int])
}

/// Every position names a row.
pub open spec fn in_bounds(positions: Seq<usize>, n: nat) -> bool {
    forall|k: int| 0 <= k < positions.len() ==> (#[trigger] positions[k]) < n
}

/// One position stands before another in a stable order of the rows: its row
/// comes before the other's, or they are the same row and it is the smaller position.
pub open spec fn stably_before(rows: Seq<Seq<CellView>>, p: usize, q: usize) -> bool {
    match row_relation(rows[p as int], rows[q as int]) {
        Relation::Before => true,
        Relation::Same => p < q,
        Relation::After => false,
    }
}

/// The positions stand in a stable order of the rows: sorted by their rows, and
/// the positions of one and the same row in ascending order.
pub open spec fn stably_sorted(rows: Seq<Seq<CellView>>, positions: Seq<usize>) -> bool {
    forall|i: int, j: int|
        0 <= i < j < positions.len() ==> stably_before(rows, #[trigger] positions[i], #[trigger] positions[j])
}

/// Positions in a stable order pick rows in sorted order, and no position twice.
pub proof fn lemma_stably_sorted(rows: Seq<Seq<CellView>>, positions: Seq<usize>)
    requires
        stably_sorted(rows, positions),
    ensures
        sorted_by(picked(rows, positions), row_le()),
        positions.no_duplicates(),
{
    let s = picked(rows, positions);
    assert forall|a: int, b: int| 0 <= a < b < s.len() implies row_le()(s[a], s[b]) by {
        assert(stably_before(rows, positions[a], positions[b]));
    }
    assert forall|a: int, b: int| 0 <= a < positions.len() && 0 <= b < positions.len() && a != b implies positions[a]
        != positions[b] by {
        lemma_row_relation_total();
        let row = rows[positions[a] as int];
        assert(row_order()(row, row) == Relation::Same);
        if a < b {
            assert(stably_before(rows, positions[a], positions[b]));
        } else {
            assert(stably_before(rows, positions[b], positions[a]));
        }
    }
}

/// Stable order is transitive.
proof fn lemma_stably_before_transitive(rows: Seq<Seq<CellView>>, p: usize, q: usize, r: usize)
    requires
        stably_before(rows, p, q),
        stably_before(rows, q, r),
    ensures
        stably_before(rows, p, r),
{
    let a = rows[p as int];
    let b = rows[q as int];
    let c = rows[r as int];
    lemma_row_relation_transitive(a, b, c);
    lemma_row_relation_total();
    if row_relation(a, c) == Relation::Same {
        assert(row_order()(a, c) == Relation::Same);
        assert(a == c);
        assert(row_order()(b, a) == row_order()(a, b).flipped());
    }
}

/// Positions in a stable order stay so when a position that stands after the last
/// of them is appended.
proof fn lemma_push_keeps_stably_sorted(rows: Seq<Seq<CellView>>, positions: Seq<usize>, x: usize)
    requires
        stably_sorted(rows, positions),
        positions.len() > 0 ==> stably_before(rows, positions.last(), x),
    ensures
        stably_sorted(rows, positions.push(x)),
{
    let t = positions.push(x);
    assert forall|a: int, b: int| 0 <= a < b < t.len() implies stably_before(rows, t[a], t[b]) by {
        if b < positions.len() {
            assert(stably_before(rows, positions[a], positions[b]));
        } else if a < positions.len() - 1 {
            assert(stably_before(rows, positions[a], positions[positions.len() - 1]));
            lemma_stably_before_transitive(rows, positions[a], positions.last(), x);
        }
    }
}

/// Appending one row to one side of a sum of multisets appends it to the sum.
proof fn lemma_take_next(
    out: Seq<Seq<CellView>>,
    side: Seq<Seq<CellView>>,
    other: Multiset<Seq<CellView>>,
    i: int,
)
    requires
        0 <= i < side.len(),
        out.to_multiset() == side.take(i).to_multiset().add(other),
    ensures
        out.push(side[i]).to_multiset() == side.take(i + 1).to_multiset().add(other),
{
    assert(side.take(i + 1) =~= side.take(i).push(side[i]));
    to_multiset_build(out, side[i]);
    to_multiset_build(side.take(i), side[i]);
    assert(side.take(i).to_multiset().insert(side[i]).add(other) =~= side.take(i).to_multiset().add(other).insert(
        side[i],
    ));
}

/// Merges two lists of positions, each in stable order and the left ones all
/// smaller than the right ones, into one; on a tie the left one is taken.
fn merge(rows: &Vec<Vec<Value>>, left: &Vec<usize>, right: &Vec<usize>) -> (out: Vec<usize>)
    requires
        in_bounds(left@, rows@.len()),
        in_bounds(right@, rows@.len()),
        stably_sorted(rows_view(rows@), left@),
        stably_sorted(rows_view(rows@), right@),
        forall|a: int, b: int| 0 <= a < left@.len() && 0 <= b < right@.len() ==> left@[a] < right@[b],
    ensures
        in_bounds(out@, rows@.len()),
        out@.len() == left@.len() + right@.len(),
        stably_sorted(rows_view(rows@), out@),
        picked(rows_view(rows@), out@).to_multiset() == picked(rows_view(rows@), left@).to_multiset().add(
            picked(rows_view(rows@), right@).to_multiset(),
        ),
        forall|k: int|
            0 <= k < out@.len() ==> left@.contains(#[trigger] out@[k]) || right@.contains(out@[k]),
{
    let ghost rv = rows_view(rows@);
    let ghost pl = picked(rv, left@);
    let ghost pr = picked(rv, right@);
    let mut out: Vec<usize> = Vec::new();
    let mut i: usize = 0;
    let mut j: usize = 0;
    proof {
        assert(pl.take(0) =~= Seq::empty());
        assert(pr.take(0) =~= Seq::empty());
        assert(picked(rv, out@) =~= Seq::empty());
        assert(Seq::<Seq<CellView>>::empty().to_multiset() =~= Seq::<Seq<CellView>>::empty().to_multiset().add(
            Seq::<Seq<CellView>>::empty().to_multiset(),
        )) by {
            lemma_multiset_commutative(Seq::<Seq<CellView>>::empty(), Seq::<Seq<CellView>>::empty());
            assert(Seq::<Seq<CellView>>::empty() + Seq::<Seq<CellView>>::empty() =~= Seq::<Seq<CellView>>::empty());
        }
    }
    while i < left.len() || j < right.len()
        invariant
            i <= left.len(),
            j <= right.len(),
            rv == rows_view(rows@),
            pl == picked(rv, left@),
            pr == picked(rv, right@),
            in_bounds(left@, rows@.len()),
            in_bounds(right@, rows@.len()),
            stably_sorted(rv, left@),
            stably_sorted(rv, right@),
            forall|a: int, b: int| 0 <= a < left@.len() && 0 <= b < right@.len() ==> left@[a] < right@[b],
            in_bounds(out@, rows@.len()),
            out@.len() == i + j,
            stably_sorted(rv, out@),
            picked(rv, out@).to_multiset() == pl.take(i as int).to_multiset().add(pr.take(j as int).to_multiset()),
            out@.len() > 0 && i < left@.len() ==> stably_before(rv, out@.last(), left@[i as int]),
            out@.len() > 0 && j < right@.len() ==> stably_before(rv, out@.last(), right@[j as int]),
            forall|k: int|
                0 <= k < out@.len() ==> left@.contains(#[trigger] out@[k]) || right@.contains(out@[k]),
        decreases left.len() - i + right.len() - j,
    {
        let ghost before = out@;
        let ghost picked_before = picked(rv, out@);
        let take_left = if i == left.len() {
            false
        } else if j == right.len() {
            true
        } else {
            match compare_rows(&rows[left[i]], &rows[right[j]]) {
                Relation::After => false,
                _ => true,
            }
        };
        if take_left {
            let x = left[i];
            out.push(x);
            proof {
                assert(picked(rv, out@) =~= picked_before.push(pl[i as int]));
                lemma_push_keeps_stably_sorted(rv, before, x);
                lemma_take_next(picked_before, pl, pr.take(j as int).to_multiset(), i as int);
                assert(left@.contains(x));
            }
            i = i + 1;
        } else {
            let x = right[j];
            out.push(x);
            proof {
                assert(picked(rv, out@) =~= picked_before.push(pr[j as int]));
                lemma_push_keeps_stably_sorted(rv, before, x);
                assert(picked_before.to_multiset() == pr.take(j as int).to_multiset().add(
                    pl.take(i as int).to_multiset(),
                )) by {
                    assert(pr.take(j as int).to_multiset().add(pl.take(i as int).to_multiset()) =~= pl.take(
                        i as int,
                    ).to_multiset().add(pr.take(j as int).to_multiset()));
                }
                lemma_take_next(picked_before, pr, pl.take(i as int).to_multiset(), j as int);
                assert(pr.take(j + 1).to_multiset().add(pl.take(i as int).to_multiset()) =~= pl.take(
                    i as int,
                ).to_multiset().add(pr.take(j + 1).to_multiset()));
                if i < left@.len() {
                    lemma_row_relation_flip(pl[i as int], pr[j as int]);
                }
                assert(right@.contains(x));
            }
            j = j + 1;
        }
    }
    proof {
        assert(pl.take(i as int) =~= pl);
        assert(pr.take(j as int) =~= pr);
    }
    out
}

/// Every position lies in `lo..hi`.
pub open spec fn in_range(positions: Seq<usize>, lo: int, hi: int) -> bool {
    forall|k: int| 0 <= k < positions.len() ==> lo <= (#[trigger] positions[k]) < hi
}

/// Sorts the positions `lo..hi` by the rows that they name.
fn merge_sort(rows: &Vec<Vec<Value>>, lo: usize, hi: usize) -> (out: Vec<usize>)
    requires
        lo <= hi <= rows@.len(),
    ensures
        in_range(out@, lo as int, hi as int),
        out@.len() == hi - lo,
        stably_sorted(rows_view(rows@), out@),
        picked(rows_view(rows@), out@).to_multiset() == rows_view(rows@).subrange(
            lo as int,
            hi as int,
        ).to_multiset(),
    decreases hi - lo,
{
    let ghost rv = rows_view(rows@);
    if hi - lo == 0 {
        let out: Vec<usize> = Vec::new();
        assert(picked(rv, out@) =~= rv.subrange(lo as int, hi as int));
        out
    } else if hi - lo == 1 {
        let mut out: Vec<usize> = Vec::new();
        out.push(lo);
        assert(picked(rv, out@) =~= rv.subrange(lo as int, hi as int));
        out
    } else {
        let mid = lo + (hi - lo) / 2;
        let left = merge_sort(rows, lo, mid);
        let right = merge_sort(rows, mid, hi);
        proof {
            lemma_multiset_commutative(rv.subrange(lo as int, mid as int), rv.subrange(mid as int, hi as int));
            assert(rv.subrange(lo as int, mid as int) + rv.subrange(mid as int, hi as int) =~= rv.subrange(
                lo as int,
                hi as int,
            ));
        }
        let out = merge(rows, &left, &right);
        proof {
            assert forall|k: int| 0 <= k < out@.len() implies lo <= (#[trigger] out@[k]) < hi by {
                if left@.contains(out@[k]) {
                    let a = choose|a: int| 0 <= a < left@.len() && left@[a] == out@[k];
                } else {
                    let b = choose|b: int| 0 <= b < right@.len() && right@[b] == out@[k];
                }
            }
        }
        out
    }
}

/// Sorts the positions of all rows by the rows that they name. The list names each
/// row once and picks the rows in canonical order; the sort is stable, so that
/// the positions of one and the same row come in ascending order.
pub fn sort_positions(rows: &Vec<Vec<Value>>) -> (out: Vec<usize>)
    ensures
        in_bounds(out@, rows@.len()),
        out@.len() == rows@.len(),
        out@.no_duplicates(),
        stably_sorted(rows_view(rows@), out@),
        sorted_by(picked(rows_view(rows@), out@), row_le()),
        picked(rows_view(rows@), out@).to_multiset() == rows_view(rows@).to_multiset(),
        picked(rows_view(rows@), out@) == sorted_rows(rows_view(rows@)),
{
    let out = merge_sort(rows, 0, rows.len());
    proof {
        let rv = rows_view(rows@);
        assert(rv.subrange(0, rows@.len() as int) =~= rv);
        lemma_stably_sorted(rv, out@);
        lemma_sorted_rows_unique(rv, picked(rv, out@));
    }
    out
}

/// Copies a row.
pub fn clone_row(row: &Vec<Value>) -> (out: Vec<Value>)
    ensures
        out@ == row@,
{
    let mut out: Vec<Value> = Vec::new();
    let mut i: usize = 0;
    while i < row.len()
        invariant
            i <= row.len(),
            out@ == row@.take(i as int),
        decreases row.len() - i,
    {
        out.push(row[i].clone());
        assert(out@ =~= row@.take(i + 1));
        i = i + 1;
    }
    assert(row@.take(i as int) =~= row@);
    out
}

/// Copies a schema.
pub fn clone_schema(schema: &Vec<Column>) -> (out: Vec<Column>)
    ensures
        out@ == schema@,
{
    let mut out: Vec<Column> = Vec::new();
    let mut i: usize = 0;
    while i < schema.len()
        invariant
            i <= schema.len(),
            out@ == schema@.take(i as int),
        decreases schema.len() - i,
    {
        out.push(schema[i].clone());
        assert(out@ =~= schema@.take(i + 1));
        i = i + 1;
    }
    assert(schema@.take(i as int) =~= schema@);
    out
}

/// Returns a copy of the table with the same schema and the same rows, each as often
/// as before, in canonical order: sorted by all columns, the first deciding first.
/// The copy is well formed if the table is.
pub fn sort_frame(table: &TypedTable) -> (out: TypedTable)
    ensures
        out@ == table@.sorted(),
        out@.schema == table@.schema,
        sorted_by(out@.rows, row_le()),
        out@.rows.to_multiset() == table@.rows.to_multiset(),
        out@.well_formed() == table@.well_formed(),
{
    let ghost rv = rows_view(table.rows@);
    let n = table.rows.len();
    let positions = sort_positions(&table.rows);
    let mut rows: Vec<Vec<Value>> = Vec::new();
    let mut k: usize = 0;
    while k < n
        invariant
            k <= n,
            n == table.rows@.len(),
            positions@.len() == n,
            in_bounds(positions@, table.rows@.len()),
            rv == rows_view(table.rows@),
            rows@.len() == k,
            rows_view(rows@) == picked(rv, positions@).take(k as int),
        decreases n - k,
    {
        let ghost before = rows@;
        let row = clone_row(&table.rows[positions[k]]);
        rows.push(row);
        proof {
            assert forall|r: int| 0 <= r < k implies rows_view(rows@)[r] == picked(rv, positions@)[r] by {
                assert(rows_view(before)[r] == picked(rv, positions@).take(k as int)[r]);
            }
            assert(rows_view(rows@) =~= picked(rv, positions@).take(k + 1));
        }
        k = k + 1;
    }
    let out = TypedTable { schema: clone_schema(&table.schema), rows };
    proof {
        assert(picked(rv, positions@).take(k as int) =~= picked(rv, positions@));
        if table@.well_formed() {
            lemma_well_formed_of_same_rows(table@, out@);
        }
        if out@.well_formed() {
            lemma_well_formed_of_same_rows(out@, table@);
        }
    }
    out
}

} // verus!
