//! What holds of the pipeline as a whole: sorting, serializing and hashing together.

use vstd::prelude::*;
use vstd::relations::sorted_by;
use vstd::seq_lib::{to_multiset_insert, to_multiset_remove, to_multiset_update};
use crate::fields::{lemma_cell_delimited, lemma_cell_injective, lemma_text_delimited, lemma_text_injective};
use crate::hasher::{fingerprint, hex_digit, hex_lower, sha256_digest};
use crate::reading::{all_delimited, delimited, lemma_line_unique, lemma_lines_unique, rows_delimited};
use crate::order::{lemma_row_relation_flip, lemma_row_relation_transitive, row_le, row_relation};
use crate::relation::Relation;
use crate::serializer::{header_fields, line, lines, row_fields, serialized};
use crate::sorter::{
    lemma_row_le_total_ordering,
    lemma_sorted_rows_unique,
    lemma_well_formed_of_same_rows,
    sorted_rows,
};
use crate::table::{row_fits, CellView, ColumnView, TableView};

verus! {

/// The canonical order does not depend on the order in which the rows came: two
/// arrangements of the same rows sort to the same sequence.
pub proof fn lemma_sorted_rows_of_same_rows(a: Seq<Seq<CellView>>, b: Seq<Seq<CellView>>)
    requires
        a.to_multiset() == b.to_multiset(),
    ensures
        sorted_rows(a) == sorted_rows(b),
{
    lemma_row_le_total_ordering();
    a.lemma_sort_by_ensures(row_le());
    lemma_sorted_rows_unique(b, sorted_rows(a));
}

/// Order invariance: a table and any rearrangement of its rows have the same
/// fingerprint once sorted.
pub proof fn law_order_invariance(table: TableView, rearranged: TableView)
    requires
        rearranged.schema == table.schema,
        rearranged.rows.to_multiset() == table.rows.to_multiset(),
    ensures
        rearranged.sorted() == table.sorted(),
        fingerprint(serialized(rearranged.sorted())) == fingerprint(serialized(table.sorted())),
{
    lemma_sorted_rows_of_same_rows(rearranged.rows, table.rows);
}

/// Idempotence: sorting a sorted table changes nothing.
pub proof fn law_sort_idempotent(table: TableView)
    ensures
        table.sorted().sorted() == table.sorted(),
        sorted_by(table.sorted().rows, row_le()),
        table.sorted().rows.to_multiset() == table.rows.to_multiset(),
{
    lemma_row_le_total_ordering();
    table.rows.lemma_sort_by_ensures(row_le());
    lemma_sorted_rows_unique(sorted_rows(table.rows), sorted_rows(table.rows));
}

/// The columns of two schemas have the same types, one by one.
pub open spec fn same_column_types(a: Seq<ColumnView>, b: Seq<ColumnView>) -> bool {
    a.len() == b.len() && forall|j: int| 0 <= j < a.len() ==> (#[trigger] a[j]).ty == b[j].ty
}

/// The rows of a well-formed table have one delimited field per column.
proof fn lemma_rows_delimited(table: TableView)
    requires
        table.well_formed(),
    ensures
        rows_delimited(table.rows, table.schema.len()),
{
    assert forall|i: int| 0 <= i < table.rows.len() implies (#[trigger] table.rows[i]).len()
        == table.schema.len() && all_delimited(row_fields(table.rows[i])) by {
        assert(row_fits(table.rows[i], table.schema));
        assert forall|j: int| 0 <= j < row_fields(table.rows[i]).len() implies delimited(
            #[trigger] row_fields(table.rows[i])[j],
        ) by {
            lemma_cell_delimited(table.rows[i][j]);
        }
    }
}

/// The serialization tells tables apart: two well-formed tables whose columns have
/// the same types and whose canonical bytes are the same have the same column
/// names and the same rows in the same order.
pub proof fn law_serialization_injective(a: TableView, b: TableView)
    requires
        a.well_formed(),
        b.well_formed(),
        same_column_types(a.schema, b.schema),
        serialized(a) == serialized(b),
    ensures
        a == b,
{
    let ha = header_fields(a.schema);
    let hb = header_fields(b.schema);
    assert(all_delimited(ha)) by {
        assert forall|j: int| 0 <= j < ha.len() implies delimited(#[trigger] ha[j]) by {
            lemma_text_delimited(a.schema[j].name);
        }
    }
    assert(all_delimited(hb)) by {
        assert forall|j: int| 0 <= j < hb.len() implies delimited(#[trigger] hb[j]) by {
            lemma_text_delimited(b.schema[j].name);
        }
    }
    lemma_line_unique(ha, lines(a.rows), hb, lines(b.rows));
    assert forall|j: int| 0 <= j < a.schema.len() implies a.schema[j] == b.schema[j] by {
        assert(ha[j] == hb[j]);
        lemma_text_injective(a.schema[j].name, b.schema[j].name);
    }
    assert(a.schema =~= b.schema);
    lemma_rows_delimited(a);
    lemma_rows_delimited(b);
    lemma_lines_unique(a.rows, b.rows, a.schema.len());
    assert forall|i: int| 0 <= i < a.rows.len() implies a.rows[i] == b.rows[i] by {
        let ra = a.rows[i];
        let rb = b.rows[i];
        assert(row_fits(ra, a.schema) && row_fits(rb, b.schema));
        assert(row_fields(ra) == row_fields(rb));
        assert forall|j: int| 0 <= j < ra.len() implies ra[j] == rb[j] by {
            assert(row_fields(ra)[j] == row_fields(rb)[j]);
            lemma_cell_injective(ra[j], rb[j], a.schema[j].ty);
        }
        assert(ra =~= rb);
    }
    assert(a.rows =~= b.rows);
}

/// The hexadecimal digits tell digests apart.
pub proof fn lemma_hex_lower_injective(x: Seq<u8>, y: Seq<u8>)
    requires
        hex_lower(x) == hex_lower(y),
    ensures
        x == y,
{
    assert(hex_lower(x).len() == 2 * x.len());
    assert(hex_lower(y).len() == 2 * y.len());
    assert forall|i: int| 0 <= i < x.len() implies x[i] == y[i] by {
        let hx = hex_lower(x);
        let hy = hex_lower(y);
        assert(hx[2 * i] == hex_digit(x[i] as int / 16));
        assert(hy[2 * i] == hex_digit(y[i] as int / 16));
        assert(hx[2 * i + 1] == hex_digit(x[i] as int % 16));
        assert(hy[2 * i + 1] == hex_digit(y[i] as int % 16));
        lemma_hex_digit_injective(x[i] as int / 16, y[i] as int / 16);
        lemma_hex_digit_injective(x[i] as int % 16, y[i] as int % 16);
    }
    assert(x =~= y);
}

/// The sixteen hexadecimal digits differ from each other.
proof fn lemma_hex_digit_injective(m: int, n: int)
    requires
        0 <= m < 16,
        0 <= n < 16,
        hex_digit(m) == hex_digit(n),
    ensures
        m == n,
{
    assert(hex_digit(m) as u32 == if m < 10 {
        48 + m
    } else {
        87 + m
    });
    assert(hex_digit(n) as u32 == if n < 10 {
        48 + n
    } else {
        87 + n
    });
}

/// Sorting keeps a table well formed.
pub proof fn lemma_sorted_well_formed(table: TableView)
    requires
        table.well_formed(),
    ensures
        table.sorted().well_formed(),
{
    law_sort_idempotent(table);
    lemma_well_formed_of_same_rows(table, table.sorted());
}

/// Sensitivity: two well-formed tables with columns of the same types that are not
/// the same dataset have different canonical bytes once sorted, and so different
/// fingerprints unless SHA-256 gives those different bytes the same digest.
pub proof fn law_difference_changes_hash(a: TableView, b: TableView)
    requires
        a.well_formed(),
        b.well_formed(),
        same_column_types(a.schema, b.schema),
        !a.same_dataset(b),
    ensures
        serialized(a.sorted()) != serialized(b.sorted()),
        fingerprint(serialized(a.sorted())) == fingerprint(serialized(b.sorted())) ==> sha256_digest(
            serialized(a.sorted()),
        ) == sha256_digest(serialized(b.sorted())),
{
    lemma_sorted_well_formed(a);
    lemma_sorted_well_formed(b);
    law_sort_idempotent(a);
    law_sort_idempotent(b);
    if serialized(a.sorted()) == serialized(b.sorted()) {
        law_serialization_injective(a.sorted(), b.sorted());
    }
    if fingerprint(serialized(a.sorted())) == fingerprint(serialized(b.sorted())) {
        lemma_hex_lower_injective(sha256_digest(serialized(a.sorted())), sha256_digest(serialized(b.sorted())));
    }
}

/// Sensitivity, of one cell: a well-formed table in which one cell is replaced by
/// another that fits its column is another dataset, with other canonical bytes.
pub proof fn law_changed_cell_changes_hash(table: TableView, row: int, column: int, cell: CellView)
    requires
        table.well_formed(),
        0 <= row < table.rows.len(),
        0 <= column < table.schema.len(),
        cell.fits(table.schema[column].ty),
        cell != table.rows[row][column],
    ensures
        ({
            let changed = TableView {
                schema: table.schema,
                rows: table.rows.update(row, table.rows[row].update(column, cell)),
            };
            &&& changed.well_formed()
            &&& !changed.same_dataset(table)
            &&& serialized(changed.sorted()) != serialized(table.sorted())
        }),
{
    let old_row = table.rows[row];
    let new_row = old_row.update(column, cell);
    let changed = TableView { schema: table.schema, rows: table.rows.update(row, new_row) };
    assert(row_fits(old_row, table.schema));
    assert(changed.well_formed()) by {
        assert forall|i: int| 0 <= i < changed.rows.len() implies row_fits(
            #[trigger] changed.rows[i],
            changed.schema,
        ) by {
            if i == row {
                assert forall|j: int| 0 <= j < new_row.len() implies (#[trigger] new_row[j]).fits(
                    table.schema[j].ty,
                ) by {
                    if j != column {
                        assert(old_row[j].fits(table.schema[j].ty));
                    }
                }
            } else {
                assert(row_fits(table.rows[i], table.schema));
            }
        }
    }
    assert(new_row[column] != old_row[column]);
    assert(new_row != old_row);
    assert(!changed.same_dataset(table)) by {
        lemma_update_changes_multiset(table.rows, row, new_row);
    }
    law_difference_changes_hash(changed, table);
}

/// Replacing one element of a sequence by another element changes its multiset.
proof fn lemma_update_changes_multiset<A>(s: Seq<A>, i: int, x: A)
    requires
        0 <= i < s.len(),
        x != s[i],
    ensures
        s.update(i, x).to_multiset() != s.to_multiset(),
{
    to_multiset_update(s, i, x);
    let m = s.to_multiset();
    s.to_multiset_ensures();
    assert(m.count(s[i]) > 0) by {
        assert(s.contains(s[i]));
    }
    assert(m.insert(x).remove(s[i]).count(x) == m.count(x) + 1);
}

/// The lines of rows that stand one after the other are their lines one after
/// the other.
proof fn lemma_lines_concat(a: Seq<Seq<CellView>>, b: Seq<Seq<CellView>>)
    ensures
        lines(a + b) == lines(a) + lines(b),
    decreases b.len(),
{
    if b.len() == 0 {
        assert(a + b =~= a);
        assert(lines(a) + lines(b) =~= lines(a));
    } else {
        lemma_lines_concat(a, b.drop_last());
        assert((a + b).drop_last() =~= a + b.drop_last());
        assert((a + b).last() == b.last());
        assert(lines(a + b) =~= lines(a) + lines(b));
    }
}

/// In sorted rows there is a place for any row: the rows before it are at or
/// before the row, and the rows from it on are at or after the row.
proof fn lemma_insertion_point(s: Seq<Seq<CellView>>, r: Seq<CellView>) -> (at: int)
    requires
        sorted_by(s, row_le()),
    ensures
        0 <= at <= s.len(),
        forall|i: int| 0 <= i < at ==> row_relation(#[trigger] s[i], r) != Relation::After,
        forall|i: int| at <= i < s.len() ==> row_relation(r, #[trigger] s[i]) != Relation::After,
    decreases s.len(),
{
    if s.len() == 0 {
        0
    } else if row_relation(s.last(), r) != Relation::After {
        assert forall|i: int| 0 <= i < s.len() implies row_relation(#[trigger] s[i], r) != Relation::After by {
            if i < s.len() - 1 {
                assert(row_le()(s[i], s[s.len() - 1]));
                lemma_row_relation_transitive(s[i], s.last(), r);
            }
        }
        s.len() as int
    } else {
        let front = s.drop_last();
        assert(sorted_by(front, row_le())) by {
            assert forall|i: int, j: int| 0 <= i < j < front.len() implies row_le()(front[i], front[j]) by {
                assert(row_le()(s[i], s[j]));
            }
        }
        let at = lemma_insertion_point(front, r);
        lemma_row_relation_flip(s.last(), r);
        assert forall|i: int| at <= i < s.len() implies row_relation(r, #[trigger] s[i]) != Relation::After by {
            if i < s.len() - 1 {
                assert(front[i] == s[i]);
            }
        }
        assert forall|i: int| 0 <= i < at implies row_relation(#[trigger] s[i], r) != Relation::After by {
            assert(front[i] == s[i]);
        }
        at
    }
}

/// Sorted rows stay sorted when a row is put in at its place.
proof fn lemma_insert_keeps_sorted(s: Seq<Seq<CellView>>, at: int, r: Seq<CellView>)
    requires
        sorted_by(s, row_le()),
        0 <= at <= s.len(),
        forall|i: int| 0 <= i < at ==> row_relation(#[trigger] s[i], r) != Relation::After,
        forall|i: int| at <= i < s.len() ==> row_relation(r, #[trigger] s[i]) != Relation::After,
    ensures
        sorted_by(s.insert(at, r), row_le()),
{
    let t = s.insert(at, r);
    assert forall|a: int, b: int| 0 <= a < b < t.len() implies row_le()(t[a], t[b]) by {
        if b < at {
            assert(row_le()(s[a], s[b]));
        } else if b == at {
            assert(t[a] == s[a]);
        } else if a == at {
            assert(t[b] == s[b - 1]);
        } else if a < at {
            assert(t[a] == s[a] && t[b] == s[b - 1]);
            if a < b - 1 {
                assert(row_le()(s[a], s[b - 1]));
            } else {
                lemma_row_relation_transitive(s[a], r, s[b - 1]);
            }
        } else {
            assert(t[a] == s[a - 1] && t[b] == s[b - 1]);
            assert(row_le()(s[a - 1], s[b - 1]));
        }
    }
}

/// Duplicate preservation: a table that holds a row once more than another, and
/// else the same rows, has exactly that row's line more among its canonical bytes.
///
/// Stated of a table and the table without its row at `row`, of which the table
/// may hold a duplicate or not; `at` is the place of the row in the canonical
/// order. The canonical bytes are longer by the line, so they differ; the
/// fingerprints then differ unless SHA-256 gives those different bytes one digest.
pub proof fn law_duplicate_changes_hash(table: TableView, row: int) -> (at: int)
    requires
        0 <= row < table.rows.len(),
    ensures
        ({
            let removed = table.rows[row];
            let reduced = TableView { schema: table.schema, rows: table.rows.remove(row) };
            let kept = reduced.sorted().rows;
            let header = line(header_fields(table.schema));
            &&& 0 <= at <= kept.len()
            &&& table.sorted().rows == kept.insert(at, removed)
            &&& serialized(reduced.sorted()) == header + lines(kept.take(at)) + lines(kept.skip(at))
            &&& serialized(table.sorted()) == header + lines(kept.take(at)) + line(row_fields(removed)) + lines(
                kept.skip(at),
            )
            &&& serialized(table.sorted()).len() == serialized(reduced.sorted()).len() + line(
                row_fields(removed),
            ).len()
            &&& serialized(table.sorted()) != serialized(reduced.sorted())
            &&& !table.same_dataset(reduced)
            &&& fingerprint(serialized(table.sorted())) == fingerprint(serialized(reduced.sorted()))
                ==> sha256_digest(serialized(table.sorted())) == sha256_digest(serialized(reduced.sorted()))
        }),
{
    let removed = table.rows[row];
    let reduced = TableView { schema: table.schema, rows: table.rows.remove(row) };
    let kept = reduced.sorted().rows;
    let header = line(header_fields(table.schema));
    lemma_row_le_total_ordering();
    reduced.rows.lemma_sort_by_ensures(row_le());
    let at = lemma_insertion_point(kept, removed);
    lemma_insert_keeps_sorted(kept, at, removed);
    let arranged = kept.insert(at, removed);
    assert(arranged.to_multiset() == table.rows.to_multiset()) by {
        to_multiset_insert(kept, at, removed);
        to_multiset_remove(table.rows, row);
        table.rows.to_multiset_ensures();
        assert(table.rows.contains(removed));
        assert(table.rows.to_multiset().remove(removed).insert(removed) =~= table.rows.to_multiset());
    }
    lemma_sorted_rows_unique(table.rows, arranged);
    assert(arranged =~= kept.take(at) + seq![removed] + kept.skip(at));
    assert(kept =~= kept.take(at) + kept.skip(at));
    lemma_lines_concat(kept.take(at), kept.skip(at));
    lemma_lines_concat(kept.take(at), seq![removed]);
    lemma_lines_concat(kept.take(at) + seq![removed], kept.skip(at));
    assert(lines(seq![removed]) =~= line(row_fields(removed))) by {
        let one = seq![removed];
        assert(one.drop_last() =~= Seq::<Seq<CellView>>::empty());
        assert(lines(one.drop_last()) =~= Seq::<u8>::empty());
        assert(one.last() == removed);
        assert(lines(one) == lines(one.drop_last()) + line(row_fields(one.last())));
    }
    assert(serialized(reduced.sorted()) =~= header + lines(kept.take(at)) + lines(kept.skip(at)));
    assert(serialized(table.sorted()) =~= header + lines(kept.take(at)) + line(row_fields(removed)) + lines(
        kept.skip(at),
    ));
    assert(!table.same_dataset(reduced)) by {
        table.rows.to_multiset_ensures();
        reduced.rows.to_multiset_ensures();
    }
    if fingerprint(serialized(table.sorted())) == fingerprint(serialized(reduced.sorted())) {
        lemma_hex_lower_injective(
            sha256_digest(serialized(table.sorted())),
            sha256_digest(serialized(reduced.sorted())),
        );
    }
    at
}

/// Equality is equality of the canonical bytes: two well-formed tables whose
/// columns have the same types are the same dataset exactly if their canonical
/// bytes, taken after sorting, are the same.
pub proof fn law_equality_is_serialization_equality(a: TableView, b: TableView)
    requires
        a.well_formed(),
        b.well_formed(),
        same_column_types(a.schema, b.schema),
    ensures
        a.same_dataset(b) == (serialized(a.sorted()) == serialized(b.sorted())),
{
    if a.same_dataset(b) {
        law_order_invariance(a, b);
    } else {
        law_difference_changes_hash(a, b);
    }
}

/// Equality is hash equality: two well-formed tables with the same schema are the
/// same dataset exactly if their fingerprints, taken after sorting, are the same.
/// This is stated of tables whose canonical bytes SHA-256 does not map to one
/// digest unless they are the same bytes.
pub proof fn law_equality_is_hash_equality(a: TableView, b: TableView)
    requires
        a.well_formed(),
        b.well_formed(),
        a.schema == b.schema,
        sha256_digest(serialized(a.sorted())) == sha256_digest(serialized(b.sorted())) ==> serialized(a.sorted())
            == serialized(b.sorted()),
    ensures
        a.same_dataset(b) == (fingerprint(serialized(a.sorted())) == fingerprint(serialized(b.sorted()))),
{
    if a.same_dataset(b) {
        law_order_invariance(a, b);
    } else {
        law_difference_changes_hash(a, b);
    }
}

} // verus!
