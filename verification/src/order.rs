//! The canonical order of cells and rows.
//!
//! Within a column, null comes before every value, `false` before `true`, numbers
//! stand in numeric order with the infinities at the ends and NaN after everything,
//! and text is ordered byte by byte. Rows are ordered lexicographically, the first
//! column deciding first.

use vstd::prelude::*;
use crate::decimal::{
    count_digits,
    digit_count,
    lemma_digit_count_u64,
    lemma_pow10_increases,
    lemma_pow10_positive,
    pow10,
    power_of_ten,
};
use crate::relation::{
    int_relation,
    is_total,
    lemma_lex_flip,
    lemma_lex_same,
    lemma_lex_step,
    lemma_lex_transitive,
    lex_relation,
    not_after,
    Relation,
};
use crate::table::{row_view, CellView, FloatValue, Value};

verus! {

/// The order of bytes.
pub open spec fn byte_relation() -> spec_fn(u8, u8) -> Relation {
    |x: u8, y: u8| int_relation(x as int, y as int)
}

/// The kinds of floats in ascending order: negative infinity, the negative numbers,
/// zero, the positive numbers, infinity, NaN.
pub open spec fn float_class(f: FloatValue) -> int {
    match f {
        FloatValue::NegInfinity => 0,
        FloatValue::Finite { negative, digits, .. } => if digits == 0 {
            2
        } else if negative {
            1
        } else {
            3
        },
        FloatValue::Infinity => 4,
        FloatValue::NaN => 5,
    }
}

/// The decimal magnitude of `digits * 10^exponent`: for nonzero digits the number
/// lies between `10^(magnitude - 1)` and `10^magnitude`.
pub open spec fn magnitude(digits: u64, exponent: i32) -> int {
    digit_count(digits as nat) + exponent
}

/// The digits shifted left to twenty places; among numbers of one magnitude the
/// greater has the greater shifted digits.
pub open spec fn aligned(digits: u64) -> int {
    digits * pow10((20 - digit_count(digits as nat)) as nat)
}

/// The lexicographic order of triples of integers.
pub open spec fn triple_relation(a: (int, int, int), b: (int, int, int)) -> Relation {
    if a.0 != b.0 {
        int_relation(a.0, b.0)
    } else if a.1 != b.1 {
        int_relation(a.1, b.1)
    } else {
        int_relation(a.2, b.2)
    }
}

/// The order of floats. Numbers of one sign are compared by magnitude and then by
/// their aligned digits, which is their numeric order. Two spellings of one number,
/// which normalised floats never are, are told apart by the exponent, and two
/// spellings of zero by the sign first.
pub open spec fn float_relation(a: FloatValue, b: FloatValue) -> Relation {
    if float_class(a) != float_class(b) {
        int_relation(float_class(a), float_class(b))
    } else {
        match (a, b) {
            (
                FloatValue::Finite { negative: na, digits: da, exponent: ea },
                FloatValue::Finite { negative: nb, digits: db, exponent: eb },
            ) => if da == 0 {
                triple_relation((0, if na { 1 } else { 0 }, ea as int), (0, if nb { 1 } else { 0 }, eb as int))
            } else {
                let r = triple_relation(
                    (magnitude(da, ea), aligned(da), ea as int),
                    (magnitude(db, eb), aligned(db), eb as int),
                );
                if na {
                    r.flipped()
                } else {
                    r
                }
            },
            _ => Relation::Same,
        }
    }
}

/// The kinds of cells in ascending order: null first.
pub open spec fn cell_tag(c: CellView) -> int {
    match c {
        CellView::Null => 0,
        CellView::Boolean(_) => 1,
        CellView::Integer(_) => 2,
        CellView::Float(_) => 3,
        CellView::Text(_) => 4,
    }
}

/// The order of cells. Cells of one kind are compared by their values; cells of
/// two kinds, which one column holds only where one of them is null, by kind.
pub open spec fn cell_relation(a: CellView, b: CellView) -> Relation {
    match (a, b) {
        (CellView::Boolean(x), CellView::Boolean(y)) => int_relation(if x { 1 } else { 0 }, if y { 1 } else { 0 }),
        (CellView::Integer(x), CellView::Integer(y)) => int_relation(x, y),
        (CellView::Float(x), CellView::Float(y)) => float_relation(x, y),
        (CellView::Text(x), CellView::Text(y)) => lex_relation(x, y, byte_relation()),
        _ => int_relation(cell_tag(a), cell_tag(b)),
    }
}

/// `cell_relation` as a function value.
pub open spec fn cell_order() -> spec_fn(CellView, CellView) -> Relation {
    |a: CellView, b: CellView| cell_relation(a, b)
}

/// The order of rows: lexicographic over the cells.
pub open spec fn row_relation(a: Seq<CellView>, b: Seq<CellView>) -> Relation {
    lex_relation(a, b, cell_order())
}

/// `row_relation` as a function value.
pub open spec fn row_order() -> spec_fn(Seq<CellView>, Seq<CellView>) -> Relation {
    |a: Seq<CellView>, b: Seq<CellView>| row_relation(a, b)
}

/// "At or before" among rows.
pub open spec fn row_le() -> spec_fn(Seq<CellView>, Seq<CellView>) -> bool {
    not_after(row_order())
}

pub proof fn lemma_byte_relation_total()
    ensures
        is_total(byte_relation()),
{
}

/// Equal aligned digits of equal length are equal digits.
proof fn lemma_aligned_injective(da: u64, db: u64)
    requires
        digit_count(da as nat) == digit_count(db as nat),
        aligned(da) == aligned(db),
    ensures
        da == db,
{
    lemma_digit_count_u64(da);
    let p = pow10((20 - digit_count(da as nat)) as nat);
    lemma_pow10_positive((20 - digit_count(da as nat)) as nat);
    assert(da * p == db * p ==> da == db) by (nonlinear_arith)
        requires
            p > 0,
    ;
}

pub proof fn lemma_float_relation_total()
    ensures
        is_total(|a: FloatValue, b: FloatValue| float_relation(a, b)),
{
    let rel = |a: FloatValue, b: FloatValue| float_relation(a, b);
    assert forall|x: FloatValue, y: FloatValue| (#[trigger] rel(x, y) == Relation::Same) <==> x == y by {
        if let FloatValue::Finite { negative: na, digits: da, exponent: ea } = x {
            if let FloatValue::Finite { negative: nb, digits: db, exponent: eb } = y {
                if rel(x, y) == Relation::Same && da != 0 {
                    lemma_aligned_injective(da, db);
                }
            }
        }
    }
    assert forall|x: FloatValue, y: FloatValue| #[trigger] rel(y, x) == rel(x, y).flipped() by {}
    assert forall|x: FloatValue, y: FloatValue, z: FloatValue|
        #[trigger] rel(x, y) != Relation::After && #[trigger] rel(y, z) != Relation::After implies rel(
        x,
        z,
    ) != Relation::After by {}
}

pub proof fn lemma_cell_relation_total()
    ensures
        is_total(cell_order()),
{
    let rel = cell_order();
    lemma_float_relation_total();
    lemma_byte_relation_total();
    let frel = |a: FloatValue, b: FloatValue| float_relation(a, b);
    assert forall|x: CellView, y: CellView| (#[trigger] rel(x, y) == Relation::Same) <==> x == y by {
        match (x, y) {
            (CellView::Text(s), CellView::Text(t)) => {
                lemma_lex_same(s, t, byte_relation());
            },
            (CellView::Float(f), CellView::Float(g)) => {
                assert((frel(f, g) == Relation::Same) <==> f == g);
            },
            _ => {},
        }
    }
    assert forall|x: CellView, y: CellView| #[trigger] rel(y, x) == rel(x, y).flipped() by {
        match (x, y) {
            (CellView::Text(s), CellView::Text(t)) => {
                lemma_lex_flip(s, t, byte_relation());
            },
            (CellView::Float(f), CellView::Float(g)) => {
                assert(frel(g, f) == frel(f, g).flipped());
            },
            _ => {},
        }
    }
    assert forall|x: CellView, y: CellView, z: CellView|
        #[trigger] rel(x, y) != Relation::After && #[trigger] rel(y, z) != Relation::After implies rel(
        x,
        z,
    ) != Relation::After by {
        match (x, y, z) {
            (CellView::Text(s), CellView::Text(t), CellView::Text(u)) => {
                lemma_lex_transitive(s, t, u, byte_relation());
            },
            (CellView::Float(f), CellView::Float(g), CellView::Float(h)) => {
                assert(frel(f, g) != Relation::After && frel(g, h) != Relation::After);
            },
            _ => {},
        }
    }
}

/// The order of rows is total: `Same` means equal rows, the strict outcomes mirror
/// each other, and "at or before" is transitive.
pub proof fn lemma_row_relation_total()
    ensures
        is_total(row_order()),
{
    let rel = row_order();
    lemma_cell_relation_total();
    assert forall|x: Seq<CellView>, y: Seq<CellView>| (#[trigger] rel(x, y) == Relation::Same) <==> x == y by {
        lemma_lex_same(x, y, cell_order());
    }
    assert forall|x: Seq<CellView>, y: Seq<CellView>| #[trigger] rel(y, x) == rel(x, y).flipped() by {
        lemma_lex_flip(x, y, cell_order());
    }
    assert forall|x: Seq<CellView>, y: Seq<CellView>, z: Seq<CellView>|
        #[trigger] rel(x, y) != Relation::After && #[trigger] rel(y, z) != Relation::After implies rel(
        x,
        z,
    ) != Relation::After by {
        lemma_lex_transitive(x, y, z, cell_order());
    }
}

/// Swapping two rows flips the outcome of their comparison.
pub proof fn lemma_row_relation_flip(a: Seq<CellView>, b: Seq<CellView>)
    ensures
        row_relation(b, a) == row_relation(a, b).flipped(),
{
    lemma_cell_relation_total();
    lemma_lex_flip(a, b, cell_order());
}

/// "At or before" among rows is transitive.
pub proof fn lemma_row_relation_transitive(a: Seq<CellView>, b: Seq<CellView>, c: Seq<CellView>)
    requires
        row_relation(a, b) != Relation::After,
        row_relation(b, c) != Relation::After,
    ensures
        row_relation(a, c) != Relation::After,
{
    lemma_cell_relation_total();
    lemma_lex_transitive(a, b, c, cell_order());
}

/// Compares two integers.
pub fn compare_signed(a: i64, b: i64) -> (r: Relation)
    ensures
        r == int_relation(a as int, b as int),
{
    if a < b {
        Relation::Before
    } else if a == b {
        Relation::Same
    } else {
        Relation::After
    }
}

/// Compares two natural numbers.
pub fn compare_unsigned(a: u128, b: u128) -> (r: Relation)
    ensures
        r == int_relation(a as int, b as int),
{
    if a < b {
        Relation::Before
    } else if a == b {
        Relation::Same
    } else {
        Relation::After
    }
}

/// Compares two byte strings position by position.
pub fn compare_bytes(a: &[u8], b: &[u8]) -> (r: Relation)
    ensures
        r == lex_relation(a@, b@, byte_relation()),
{
    let mut i: usize = 0;
    assert(a@.skip(0) =~= a@ && b@.skip(0) =~= b@);
    while i < a.len() && i < b.len()
        invariant
            i <= a.len(),
            i <= b.len(),
            lex_relation(a@, b@, byte_relation()) == lex_relation(
                a@.skip(i as int),
                b@.skip(i as int),
                byte_relation(),
            ),
        decreases a.len() - i,
    {
        proof {
            lemma_lex_step(a@, b@, i as int, byte_relation());
        }
        let x = a[i];
        let y = b[i];
        if x < y {
            return Relation::Before;
        } else if x > y {
            return Relation::After;
        }
        i = i + 1;
    }
    proof {
        lemma_lex_step(a@, b@, i as int, byte_relation());
    }
    if i < b.len() {
        Relation::Before
    } else if i < a.len() {
        Relation::After
    } else {
        Relation::Same
    }
}

/// Computes `float_class`.
fn class_of(f: &FloatValue) -> (c: i64)
    ensures
        c == float_class(*f),
{
    match f {
        FloatValue::NegInfinity => 0,
        FloatValue::Finite { negative, digits, .. } => if *digits == 0 {
            2
        } else if *negative {
            1
        } else {
            3
        },
        FloatValue::Infinity => 4,
        FloatValue::NaN => 5,
    }
}

/// Computes `aligned`.
fn align(digits: u64) -> (a: u128)
    ensures
        a == aligned(digits),
{
    let c = count_digits(digits);
    let p = power_of_ten(20 - c);
    proof {
        reveal_with_fuel(pow10, 20);
        assert(pow10(19) == 10_000_000_000_000_000_000nat);
        lemma_pow10_increases((20 - c) as nat, 19);
        assert(digits * p <= 0xffff_ffff_ffff_ffff * 10_000_000_000_000_000_000) by (nonlinear_arith)
            requires
                digits <= 0xffff_ffff_ffff_ffff,
                p <= 10_000_000_000_000_000_000,
        ;
    }
    (digits as u128) * p
}

/// Compares three numbers with three others, the first pair deciding first.
fn compare_triples(a: (i64, u128, i64), b: (i64, u128, i64)) -> (r: Relation)
    ensures
        r == triple_relation((a.0 as int, a.1 as int, a.2 as int), (b.0 as int, b.1 as int, b.2 as int)),
{
    if a.0 != b.0 {
        compare_signed(a.0, b.0)
    } else if a.1 != b.1 {
        compare_unsigned(a.1, b.1)
    } else {
        compare_signed(a.2, b.2)
    }
}

/// Compares two floats.
pub fn compare_floats(a: &FloatValue, b: &FloatValue) -> (r: Relation)
    ensures
        r == float_relation(*a, *b),
{
    let ca = class_of(a);
    let cb = class_of(b);
    if ca != cb {
        return compare_signed(ca, cb);
    }
    match (a, b) {
        (
            FloatValue::Finite { negative: na, digits: da, exponent: ea },
            FloatValue::Finite { negative: nb, digits: db, exponent: eb },
        ) => {
            if *da == 0 {
                compare_triples(
                    (0, if *na { 1 } else { 0 }, *ea as i64),
                    (0, if *nb { 1 } else { 0 }, *eb as i64),
                )
            } else {
                let ma: i64 = count_digits(*da) as i64 + *ea as i64;
                let mb: i64 = count_digits(*db) as i64 + *eb as i64;
                let r = compare_triples((ma, align(*da), *ea as i64), (mb, align(*db), *eb as i64));
                if *na {
                    r.flip()
                } else {
                    r
                }
            }
        },
        _ => Relation::Same,
    }
}

/// Computes `cell_tag`.
fn tag_of(v: &Value) -> (t: i64)
    ensures
        t == cell_tag(v@),
{
    match v {
        Value::Null => 0,
        Value::Boolean(_) => 1,
        Value::Integer(_) => 2,
        Value::Float(_) => 3,
        Value::Text(_) => 4,
    }
}

/// Compares two cells.
pub fn compare_cells(a: &Value, b: &Value) -> (r: Relation)
    ensures
        r == cell_relation(a@, b@),
{
    match (a, b) {
        (Value::Boolean(x), Value::Boolean(y)) => compare_signed(if *x { 1 } else { 0 }, if *y { 1 } else { 0 }),
        (Value::Integer(x), Value::Integer(y)) => compare_signed(*x, *y),
        (Value::Float(x), Value::Float(y)) => compare_floats(x, y),
        (Value::Text(x), Value::Text(y)) => compare_bytes(x.as_str().as_bytes(), y.as_str().as_bytes()),
        _ => compare_signed(tag_of(a), tag_of(b)),
    }
}

/// Compares two rows cell by cell.
pub fn compare_rows(a: &Vec<Value>, b: &Vec<Value>) -> (r: Relation)
    ensures
        r == row_relation(row_view(a@), row_view(b@)),
{
    let ghost va = row_view(a@);
    let ghost vb = row_view(b@);
    let mut i: usize = 0;
    assert(va.skip(0) =~= va && vb.skip(0) =~= vb);
    while i < a.len() && i < b.len()
        invariant
            i <= a.len(),
            i <= b.len(),
            va == row_view(a@),
            vb == row_view(b@),
            row_relation(va, vb) == lex_relation(va.skip(i as int), vb.skip(i as int), cell_order()),
        decreases a.len() - i,
    {
        proof {
            lemma_lex_step(va, vb, i as int, cell_order());
        }
        let r = compare_cells(&a[i], &b[i]);
        match r {
            Relation::Same => {},
            _ => {
                return r;
            },
        }
        i = i + 1;
    }
    proof {
        lemma_lex_step(va, vb, i as int, cell_order());
    }
    if i < b.len() {
        Relation::Before
    } else if i < a.len() {
        Relation::After
    } else {
        Relation::Same
    }
}

} // verus!
