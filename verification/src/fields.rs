//! The fields that stand for cells: each is delimited, and within one column no
//! two cells share a field.

use vstd::prelude::*;
use crate::decimal::{decimal, is_digit, lemma_decimal_digits, lemma_decimal_injective};
use crate::reading::{bare, delimited, lemma_escaped_end, quoted};
use crate::serializer::{
    escaped,
    is_special,
    needs_quotes,
    render_boolean,
    render_cell,
    render_float,
    render_integer,
    render_magnitude,
    render_text,
    zeros,
    EXPONENT_MARK,
    MINUS,
    POINT,
    QUOTE,
    ZERO,
};
use crate::table::{CellView, ColumnType, FloatValue};

verus! {

/// A byte of a number: a digit, the point, the minus sign or the exponent mark.
pub open spec fn is_numeric(b: u8) -> bool {
    is_digit(b) || b == POINT || b == MINUS || b == EXPONENT_MARK
}

/// Every byte is a byte of a number.
pub open spec fn numeric(s: Seq<u8>) -> bool {
    forall|i: int| 0 <= i < s.len() ==> is_numeric(#[trigger] s[i])
}

/// An integer is written with digits and at most a minus sign before them.
pub proof fn lemma_integer_numeric(i: int)
    ensures
        numeric(render_integer(i)),
        render_integer(i).len() >= 1,
        i >= 0 ==> is_digit(render_integer(i)[0]),
        i < 0 ==> render_integer(i)[0] == MINUS,
{
    if i < 0 {
        lemma_decimal_digits((-i) as nat);
    } else {
        lemma_decimal_digits(i as nat);
    }
}

/// Two integers that are written alike are equal.
pub proof fn lemma_integer_injective(i: int, j: int)
    requires
        render_integer(i) == render_integer(j),
    ensures
        i == j,
{
    lemma_integer_numeric(i);
    lemma_integer_numeric(j);
    if i < 0 {
        assert(j < 0);
        assert(decimal((-i) as nat) =~= render_integer(i).skip(1));
        assert(decimal((-j) as nat) =~= render_integer(j).skip(1));
        lemma_decimal_injective((-i) as nat, (-j) as nat);
    } else {
        assert(j >= 0);
        lemma_decimal_injective(i as nat, j as nat);
    }
}

/// A number is written with digits, the point, the minus sign and the exponent
/// mark, and starts with a digit.
pub proof fn lemma_magnitude_numeric(digits: nat, exponent: int)
    requires
        digits > 0,
    ensures
        numeric(render_magnitude(digits, exponent)),
        render_magnitude(digits, exponent).len() >= 2,
        is_digit(render_magnitude(digits, exponent)[0]),
{
    let d = decimal(digits);
    let kk = d.len() + exponent;
    lemma_decimal_digits(digits);
    lemma_integer_numeric(kk - 1);
}

/// A text that is written in quotes is a quoted field, and one that is not is a
/// bare one and not empty.
pub proof fn lemma_text_delimited(text: Seq<u8>)
    ensures
        delimited(render_text(text)),
        needs_quotes(text) ==> quoted(render_text(text)) && render_text(text)[0] == QUOTE,
        !needs_quotes(text) ==> bare(text) && text.len() > 0,
{
    if needs_quotes(text) {
        assert(render_text(text) == seq![QUOTE] + escaped(text) + seq![QUOTE]);
    } else {
        assert forall|i: int| 0 <= i < text.len() implies !is_special(#[trigger] text[i]) by {}
    }
}

/// Two texts that are written alike are equal.
pub proof fn lemma_text_injective(a: Seq<u8>, b: Seq<u8>)
    requires
        render_text(a) == render_text(b),
    ensures
        a == b,
{
    lemma_text_delimited(a);
    lemma_text_delimited(b);
    if needs_quotes(a) && needs_quotes(b) {
        assert(escaped(a) =~= render_text(a).subrange(1, render_text(a).len() - 1));
        assert(escaped(b) =~= render_text(b).subrange(1, render_text(b).len() - 1));
        lemma_escaped_end(a, ZERO, Seq::empty(), b, ZERO, Seq::empty());
    } else if needs_quotes(a) {
        assert(is_special(b[0]));
    } else if needs_quotes(b) {
        assert(is_special(a[0]));
    }
}

/// What is written for a float is a bare field and not empty.
pub proof fn lemma_float_bare(f: FloatValue)
    ensures
        bare(render_float(f)),
        render_float(f).len() >= 1,
{
    match f {
        FloatValue::Finite { negative, digits, exponent } => {
            if digits != 0 {
                lemma_magnitude_numeric(digits as nat, exponent as int);
            }
        },
        _ => {},
    }
}

/// Every byte is a digit.
pub open spec fn all_digits(s: Seq<u8>) -> bool {
    forall|i: int| 0 <= i < s.len() ==> is_digit(#[trigger] s[i])
}

/// Digits that end in no zero, then zeros, then `.0`: the digits can be told from
/// the zeros.
proof fn lemma_whole_form(d1: Seq<u8>, k1: nat, d2: Seq<u8>, k2: nat)
    requires
        d1.len() > 0,
        d2.len() > 0,
        d1.last() != ZERO,
        d2.last() != ZERO,
        d1 + zeros(k1) + seq![POINT, ZERO] == d2 + zeros(k2) + seq![POINT, ZERO],
    ensures
        d1 == d2,
        k1 == k2,
{
    let left = d1 + zeros(k1) + seq![POINT, ZERO];
    let right = d2 + zeros(k2) + seq![POINT, ZERO];
    assert(left.len() == d1.len() + k1 + 2);
    assert(right.len() == d2.len() + k2 + 2);
    if d1.len() < d2.len() {
        assert(left[d2.len() - 1] == ZERO);
        assert(right[d2.len() - 1] == d2.last());
    } else if d2.len() < d1.len() {
        assert(right[d1.len() - 1] == ZERO);
        assert(left[d1.len() - 1] == d1.last());
    } else {
        assert(d1 =~= left.take(d1.len() as int));
        assert(d2 =~= right.take(d2.len() as int));
    }
}

/// Digits with a point among them: the point can be found, and the digits with it.
proof fn lemma_split_form(d1: Seq<u8>, at_a: int, d2: Seq<u8>, at_b: int)
    requires
        all_digits(d1),
        all_digits(d2),
        0 < at_a < d1.len(),
        0 < at_b < d2.len(),
        d1.take(at_a) + seq![POINT] + d1.skip(at_a) == d2.take(at_b) + seq![POINT] + d2.skip(at_b),
    ensures
        d1 == d2,
        at_a == at_b,
{
    let left = d1.take(at_a) + seq![POINT] + d1.skip(at_a);
    let right = d2.take(at_b) + seq![POINT] + d2.skip(at_b);
    assert(left.len() == d1.len() + 1);
    assert(right.len() == d2.len() + 1);
    assert(left[at_a] == POINT);
    assert(right[at_b] == POINT);
    if at_a < at_b {
        assert(right[at_a] == d2[at_a]);
        assert(is_digit(d2[at_a]));
    } else if at_b < at_a {
        assert(left[at_b] == d1[at_b]);
        assert(is_digit(d1[at_b]));
    } else {
        assert forall|i: int| 0 <= i < d1.len() implies d1[i] == d2[i] by {
            if i < at_a {
                assert(left[i] == d1[i]);
                assert(right[i] == d2[i]);
            } else {
                assert(left[i + 1] == d1[i]);
                assert(right[i + 1] == d2[i]);
            }
        }
        assert(d1 =~= d2);
    }
}

/// `0.`, then zeros, then digits that start with no zero: the digits can be told
/// from the zeros.
proof fn lemma_fraction_form(d1: Seq<u8>, z1: nat, d2: Seq<u8>, z2: nat)
    requires
        d1.len() > 0,
        d2.len() > 0,
        d1[0] != ZERO,
        d2[0] != ZERO,
        seq![ZERO, POINT] + zeros(z1) + d1 == seq![ZERO, POINT] + zeros(z2) + d2,
    ensures
        d1 == d2,
        z1 == z2,
{
    let left = seq![ZERO, POINT] + zeros(z1) + d1;
    let right = seq![ZERO, POINT] + zeros(z2) + d2;
    assert(left.len() == 2 + z1 + d1.len());
    assert(right.len() == 2 + z2 + d2.len());
    if z1 < z2 {
        assert(left[2 + z1 as int] == d1[0]);
        assert(right[2 + z1 as int] == ZERO);
    } else if z2 < z1 {
        assert(right[2 + z2 as int] == d2[0]);
        assert(left[2 + z2 as int] == ZERO);
    } else {
        assert(d1 =~= left.skip(2 + z1 as int));
        assert(d2 =~= right.skip(2 + z2 as int));
    }
}

/// One digit, the exponent mark and an exponent.
proof fn lemma_short_exponent_form(d1: Seq<u8>, x1: int, d2: Seq<u8>, x2: int)
    requires
        d1.len() == 1,
        d2.len() == 1,
        d1 + seq![EXPONENT_MARK] + render_integer(x1) == d2 + seq![EXPONENT_MARK] + render_integer(x2),
    ensures
        d1 == d2,
        x1 == x2,
{
    let left = d1 + seq![EXPONENT_MARK] + render_integer(x1);
    let right = d2 + seq![EXPONENT_MARK] + render_integer(x2);
    assert(left[0] == d1[0]);
    assert(right[0] == d2[0]);
    assert(d1 =~= d2);
    assert(render_integer(x1) =~= left.skip(2));
    assert(render_integer(x2) =~= right.skip(2));
    lemma_integer_injective(x1, x2);
}

/// A digit, the point, more digits, the exponent mark and an exponent: the mark
/// can be found, and the digits and the exponent with it.
proof fn lemma_long_exponent_form(d1: Seq<u8>, x1: int, d2: Seq<u8>, x2: int)
    requires
        all_digits(d1),
        all_digits(d2),
        d1.len() >= 2,
        d2.len() >= 2,
        d1.take(1) + seq![POINT] + d1.skip(1) + seq![EXPONENT_MARK] + render_integer(x1) == d2.take(1)
            + seq![POINT] + d2.skip(1) + seq![EXPONENT_MARK] + render_integer(x2),
    ensures
        d1 == d2,
        x1 == x2,
{
    let left = d1.take(1) + seq![POINT] + d1.skip(1) + seq![EXPONENT_MARK] + render_integer(x1);
    let right = d2.take(1) + seq![POINT] + d2.skip(1) + seq![EXPONENT_MARK] + render_integer(x2);
    let n1 = d1.len() as int;
    let n2 = d2.len() as int;
    assert(left[n1 + 1] == EXPONENT_MARK);
    assert(right[n2 + 1] == EXPONENT_MARK);
    if n1 < n2 {
        assert(right[n1 + 1] == d2[n1]);
        assert(is_digit(d2[n1]));
    } else if n2 < n1 {
        assert(left[n2 + 1] == d1[n2]);
        assert(is_digit(d1[n2]));
    } else {
        assert forall|i: int| 0 <= i < n1 implies d1[i] == d2[i] by {
            if i < 1 {
                assert(left[i] == d1[i]);
                assert(right[i] == d2[i]);
            } else {
                assert(left[i + 1] == d1[i]);
                assert(right[i + 1] == d2[i]);
            }
        }
        assert(d1 =~= d2);
        assert(render_integer(x1) =~= left.skip(n1 + 2));
        assert(render_integer(x2) =~= right.skip(n2 + 2));
        lemma_integer_injective(x1, x2);
    }
}

/// Which of its five forms a number is written in: in full as a whole number (1),
/// with the point among the digits (2) or before them (3), or with an exponent
/// after one digit (4) or after more (5).
pub open spec fn magnitude_form(digits: nat, exponent: int) -> int {
    let n = decimal(digits).len();
    let kk = n + exponent;
    if 0 <= exponent && kk <= 16 {
        1
    } else if 0 < kk <= 16 {
        2
    } else if -5 < kk <= 0 {
        3
    } else if n == 1 {
        4
    } else {
        5
    }
}

/// The form of a number shows in what is written: in the byte after the first, in
/// whether there is an exponent mark, and in the first and the last byte.
proof fn lemma_magnitude_form(digits: nat, exponent: int)
    requires
        digits > 0,
        digits % 10 != 0,
    ensures
        ({
            let s = render_magnitude(digits, exponent);
            let form = magnitude_form(digits, exponent);
            let marked = exists|i: int| 0 <= i < s.len() && s[i] == EXPONENT_MARK;
            &&& s.len() >= 2
            &&& form == 4 <==> s[1] == EXPONENT_MARK
            &&& form == 4 || form == 5 <==> marked
            &&& form == 1 ==> s.last() == ZERO && s[0] != ZERO
            &&& form == 2 ==> s.last() != ZERO && s[0] != ZERO
            &&& form == 3 ==> s.last() != ZERO && s[0] == ZERO
        }),
{
    let s = render_magnitude(digits, exponent);
    let d = decimal(digits);
    let n = d.len() as int;
    let kk = n + exponent;
    let form = magnitude_form(digits, exponent);
    lemma_decimal_digits(digits);
    lemma_integer_numeric(kk - 1);
    assert(d.last() != ZERO);
    if form == 1 {
        assert(s[0] == d[0]);
        assert(s.last() == ZERO);
        assert forall|i: int| 0 <= i < s.len() implies s[i] != EXPONENT_MARK by {
            if i < n {
                assert(s[i] == d[i]);
            }
        }
        if n >= 2 {
            assert(s[1] == d[1]);
        }
    } else if form == 2 {
        assert(s[0] == d[0]);
        assert(s.len() == n + 1);
        assert(s.last() == d.last());
        assert forall|i: int| 0 <= i < s.len() implies s[i] != EXPONENT_MARK by {
            if i < kk {
                assert(s[i] == d[i]);
            } else if i > kk {
                assert(s[i] == d[i - 1]);
            }
        }
    } else if form == 3 {
        assert(s.len() == 2 + (-kk) + n);
        assert(s.last() == d.last());
        assert forall|i: int| 0 <= i < s.len() implies s[i] != EXPONENT_MARK by {
            if i >= 2 - kk {
                assert(s[i] == d[i - (2 - kk)]);
            }
        }
    } else if form == 4 {
        assert(s[1] == EXPONENT_MARK);
    } else {
        assert(s[1] == POINT);
        assert(s[n + 1] == EXPONENT_MARK);
    }
}

/// Two numbers that are written alike have the same digits and the same exponent,
/// if neither has a trailing zero among its digits.
pub proof fn lemma_magnitude_injective(da: nat, ea: int, db: nat, eb: int)
    requires
        da > 0,
        db > 0,
        da % 10 != 0,
        db % 10 != 0,
        render_magnitude(da, ea) == render_magnitude(db, eb),
    ensures
        da == db,
        ea == eb,
{
    let d1 = decimal(da);
    let d2 = decimal(db);
    let kk1 = d1.len() + ea;
    let kk2 = d2.len() + eb;
    lemma_magnitude_form(da, ea);
    lemma_magnitude_form(db, eb);
    lemma_decimal_digits(da);
    lemma_decimal_digits(db);
    let form = magnitude_form(da, ea);
    assert(form == magnitude_form(db, eb));
    if form == 1 {
        lemma_whole_form(d1, ea as nat, d2, eb as nat);
    } else if form == 2 {
        lemma_split_form(d1, kk1, d2, kk2);
    } else if form == 3 {
        lemma_fraction_form(d1, (-kk1) as nat, d2, (-kk2) as nat);
    } else if form == 4 {
        lemma_short_exponent_form(d1, kk1 - 1, d2, kk2 - 1);
    } else {
        lemma_long_exponent_form(d1, kk1 - 1, d2, kk2 - 1);
    }
    lemma_decimal_injective(da, db);
}

/// Two normalised floats that are written alike are equal.
pub proof fn lemma_float_injective(f: FloatValue, g: FloatValue)
    requires
        f.normalised(),
        g.normalised(),
        render_float(f) == render_float(g),
    ensures
        f == g,
{
    let s = render_float(f);
    let t = render_float(g);
    match (f, g) {
        (
            FloatValue::Finite { negative: na, digits: da, exponent: ea },
            FloatValue::Finite { negative: nb, digits: db, exponent: eb },
        ) => {
            if da != 0 {
                lemma_magnitude_numeric(da as nat, ea as int);
                lemma_magnitude_form(da as nat, ea as int);
            }
            if db != 0 {
                lemma_magnitude_numeric(db as nat, eb as int);
                lemma_magnitude_form(db as nat, eb as int);
            }
            let ba = if da == 0 {
                seq![ZERO, POINT, ZERO]
            } else {
                render_magnitude(da as nat, ea as int)
            };
            let bb = if db == 0 {
                seq![ZERO, POINT, ZERO]
            } else {
                render_magnitude(db as nat, eb as int)
            };
            assert(is_digit(ba[0]) && is_digit(bb[0]));
            if na {
                assert(s[0] == MINUS);
                assert(nb) by {
                    if !nb {
                        assert(t =~= bb);
                    }
                }
                assert(ba =~= s.skip(1));
                assert(bb =~= t.skip(1));
            } else {
                assert(s =~= ba);
                assert(!nb) by {
                    if nb {
                        assert(t[0] == MINUS);
                    }
                }
                assert(t =~= bb);
            }
            assert(ba == bb);
            if da == 0 && db != 0 {
                lemma_zero_is_no_number(db as nat, eb as int);
            } else if da != 0 && db == 0 {
                lemma_zero_is_no_number(da as nat, ea as int);
            } else if da != 0 {
                lemma_magnitude_injective(da as nat, ea as int, db as nat, eb as int);
            }
        },
        (FloatValue::Finite { negative, digits, exponent }, _) => {
            lemma_float_starts_with_digit(f);
        },
        (_, FloatValue::Finite { negative, digits, exponent }) => {
            lemma_float_starts_with_digit(g);
        },
        _ => {
            assert(s.len() == t.len());
            assert(s[0] == t[0]);
        },
    }
}

/// A finite float is written with a digit first, or a minus sign and then a digit.
proof fn lemma_float_starts_with_digit(f: FloatValue)
    requires
        f is Finite,
    ensures
        is_digit(render_float(f)[0]) || (render_float(f)[0] == MINUS && is_digit(render_float(f)[1])),
{
    match f {
        FloatValue::Finite { negative, digits, exponent } => {
            if digits != 0 {
                lemma_magnitude_numeric(digits as nat, exponent as int);
            }
        },
        _ => {},
    }
}

/// No number other than zero is written as `0.0`.
proof fn lemma_zero_is_no_number(digits: nat, exponent: int)
    requires
        digits > 0,
        digits % 10 != 0,
    ensures
        render_magnitude(digits, exponent) != seq![ZERO, POINT, ZERO],
{
    lemma_magnitude_form(digits, exponent);
    lemma_decimal_digits(digits);
    let s = render_magnitude(digits, exponent);
    let z = seq![ZERO, POINT, ZERO];
    if s == z {
        assert(z[0] == ZERO && z[1] == POINT && z.last() == ZERO);
        assert(forall|i: int| 0 <= i < z.len() ==> z[i] != EXPONENT_MARK);
    }
}

/// Two cells of one column whose fields are alike are equal.
pub proof fn lemma_cell_injective(a: CellView, b: CellView, ty: ColumnType)
    requires
        a.fits(ty),
        b.fits(ty),
        render_cell(a) == render_cell(b),
    ensures
        a == b,
{
    match (a, b) {
        (CellView::Null, CellView::Null) => {},
        (CellView::Null, _) => {
            lemma_cell_not_empty(b);
        },
        (_, CellView::Null) => {
            lemma_cell_not_empty(a);
        },
        (CellView::Integer(i), CellView::Integer(j)) => {
            lemma_integer_injective(i, j);
        },
        (CellView::Float(f), CellView::Float(g)) => {
            lemma_float_injective(f, g);
        },
        (CellView::Boolean(x), CellView::Boolean(y)) => {
            assert(render_boolean(x).len() == render_boolean(y).len());
        },
        (CellView::Text(s), CellView::Text(t)) => {
            lemma_text_injective(s, t);
        },
        _ => {},
    }
}

/// Only a null cell has an empty field.
pub proof fn lemma_cell_not_empty(c: CellView)
    requires
        !(c is Null),
    ensures
        render_cell(c).len() > 0,
{
    match c {
        CellView::Integer(i) => {
            lemma_integer_numeric(i);
        },
        CellView::Float(f) => {
            lemma_float_bare(f);
        },
        CellView::Text(t) => {
            lemma_text_delimited(t);
        },
        _ => {},
    }
}

/// The field of every cell is delimited.
pub proof fn lemma_cell_delimited(c: CellView)
    ensures
        delimited(render_cell(c)),
{
    match c {
        CellView::Null => {},
        CellView::Integer(i) => {
            lemma_integer_numeric(i);
        },
        CellView::Float(f) => {
            lemma_float_bare(f);
        },
        CellView::Boolean(_) => {},
        CellView::Text(t) => {
            lemma_text_delimited(t);
        },
    }
}

} // verus!
