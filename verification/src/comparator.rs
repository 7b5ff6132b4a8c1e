//! The equality comparator: do two tables hold the same rows under the same schema?

use vstd::prelude::*;
use vstd::relations::sorted_by;
use vstd::seq_lib::lemma_sorted_unique;
use crate::order::{
    byte_relation,
    compare_bytes,
    compare_rows,
    lemma_byte_relation_total,
    lemma_row_relation_total,
    row_le,
    row_order,
};
use crate::relation::{lemma_lex_same, Relation};
use crate::sorter::{in_bounds, lemma_row_le_total_ordering, picked, sort_positions};
use crate::table::{rows_view, schema_view, Column, TableView, TypedTable};

verus! {

impl TableView {
    /// Two tables are the same dataset if their schemas are equal, names and types
    /// in order, and each row occurs in one as often as in the other.
    pub open spec fn same_dataset(self, other: TableView) -> bool {
        self.schema == other.schema && self.rows.to_multiset() == other.rows.to_multiset()
    }
}

/// Tests whether two schemas are equal: the same names and types in the same order.
pub fn schemas_equal(a: &Vec<Column>, b: &Vec<Column>) -> (same: bool)
    ensures
        same == (schema_view(a@) == schema_view(b@)),
{
    if a.len() != b.len() {
        assert(schema_view(a@).len() != schema_view(b@).len());
        return false;
    }
    let mut i: usize = 0;
    while i < a.len()
        invariant
            i <= a@.len(),
            a@.len() == b@.len(),
            forall|k: int| 0 <= k < i ==> schema_view(a@)[k] == schema_view(b@)[k],
        decreases a.len() - i,
    {
        let names = compare_bytes(a[i].name.as_str().as_bytes(), b[i].name.as_str().as_bytes());
        proof {
            lemma_byte_relation_total();
            lemma_lex_same(schema_view(a@)[i as int].name, schema_view(b@)[i as int].name, byte_relation());
        }
        let same_name = match names {
            Relation::Same => true,
            _ => false,
        };
        if !same_name || a[i].ty != b[i].ty {
            assert(schema_view(a@)[i as int] != schema_view(b@)[i as int]);
            return false;
        }
        i = i + 1;
    }
    assert(schema_view(a@) =~= schema_view(b@));
    true
}

/// Decides whether two tables are the same dataset, whatever the order of their
/// rows: both are brought into canonical order and compared row by row.
pub fn frames_equal(a: &TypedTable, b: &TypedTable) -> (same: bool)
    ensures
        same == a@.same_dataset(b@),
{
    if !schemas_equal(&a.schema, &b.schema) {
        return false;
    }
    let ghost ra = rows_view(a.rows@);
    let ghost rb = rows_view(b.rows@);
    if a.rows.len() != b.rows.len() {
        proof {
            ra.to_multiset_ensures();
            rb.to_multiset_ensures();
        }
        return false;
    }
    let pa = sort_positions(&a.rows);
    let pb = sort_positions(&b.rows);
    let ghost sa = picked(ra, pa@);
    let ghost sb = picked(rb, pb@);
    let n = a.rows.len();
    let mut k: usize = 0;
    while k < n
        invariant
            k <= n,
            n == a.rows@.len(),
            n == b.rows@.len(),
            pa@.len() == n,
            pb@.len() == n,
            ra == rows_view(a.rows@),
            rb == rows_view(b.rows@),
            sa == picked(ra, pa@),
            sb == picked(rb, pb@),
            in_bounds(pa@, a.rows@.len()),
            in_bounds(pb@, b.rows@.len()),
            sorted_by(sa, row_le()),
            sorted_by(sb, row_le()),
            sa.to_multiset() == ra.to_multiset(),
            sb.to_multiset() == rb.to_multiset(),
            forall|i: int| 0 <= i < k ==> sa[i] == sb[i],
        decreases n - k,
    {
        let r = compare_rows(&a.rows[pa[k]], &b.rows[pb[k]]);
        proof {
            lemma_row_relation_total();
            assert((row_order()(sa[k as int], sb[k as int]) == Relation::Same) <==> sa[k as int]
                == sb[k as int]);
        }
        match r {
            Relation::Same => {},
            _ => {
                proof {
                    if ra.to_multiset() == rb.to_multiset() {
                        lemma_row_le_total_ordering();
                        lemma_sorted_unique(sa, sb, row_le());
                    }
                }
                return false;
            },
        }
        k = k + 1;
    }
    assert(sa =~= sb);
    true
}

} // verus!
