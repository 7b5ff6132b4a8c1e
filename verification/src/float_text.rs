//! Floats as text: the two forms in which a float is taken over.
//!
//! One is the text that the serializer writes for a float, which `parse_float`
//! reads back. The other is scientific notation as Rust's `{:e}` formatting gives
//! it: the shortest digits that read back as the same float, one of them before
//! the point, and a decimal exponent; `parse_scientific` reads that.

use vstd::prelude::*;
use crate::decimal::{
    decimal,
    power_of_ten,
    is_digit,
    lemma_decimal_digits,
    lemma_decimal_len,
    lemma_digit_count_le,
    lemma_digit_count_u64,
    lemma_pow10_increases,
    lemma_pow10_positive,
    pow10,
    push_decimal,
};
use crate::fields::magnitude_form;
use crate::order::{byte_relation, compare_bytes, lemma_byte_relation_total};
use crate::relation::{lemma_lex_same, Relation};
use crate::serializer::{
    push_range,
    render_float,
    render_integer,
    render_magnitude,
    write_float,
    write_integer,
    zeros,
    EXPONENT_MARK,
    MINUS,
    POINT,
    ZERO,
};
use crate::table::FloatValue;

verus! {

/// A finite float in scientific notation: the sign, the first digit, the other
/// digits after a point if there are any, the letter `e` and the exponent of the
/// first digit. The others are `NaN`, `inf` and `-inf`.
pub open spec fn scientific(f: FloatValue) -> Seq<u8> {
    match f {
        FloatValue::NaN => seq![78u8, 97u8, 78u8],
        FloatValue::Infinity => seq![105u8, 110u8, 102u8],
        FloatValue::NegInfinity => seq![MINUS, 105u8, 110u8, 102u8],
        FloatValue::Finite { negative, digits, exponent } => {
            let d = decimal(digits as nat);
            let sign = if negative {
                seq![MINUS]
            } else {
                Seq::empty()
            };
            let mantissa = if d.len() == 1 {
                d
            } else {
                d.take(1) + seq![POINT] + d.skip(1)
            };
            sign + mantissa + seq![EXPONENT_MARK] + render_integer(d.len() - 1 + exponent)
        },
    }
}

/// Zero, which has one spelling.
pub open spec fn zero() -> FloatValue {
    FloatValue::Finite { negative: false, digits: 0, exponent: 0 }
}

/// Negative zero in scientific notation; it is read as zero.
pub open spec fn negative_zero_text() -> Seq<u8> {
    seq![MINUS, 48u8, EXPONENT_MARK, 48u8]
}

/// The float that a text stands for, if it is the scientific notation of one.
pub open spec fn denotes(text: Seq<u8>, f: FloatValue) -> bool {
    f.normalised() && (text == scientific(f) || (f == zero() && text == negative_zero_text()))
}

/// The number that a sequence of decimal digits stands for.
pub open spec fn digits_value(s: Seq<u8>) -> nat
    decreases s.len(),
{
    if s.len() == 0 {
        0
    } else {
        digits_value(s.drop_last()) * 10 + (s.last() - 48) as nat
    }
}

/// The digits of a number stand for that number.
pub proof fn lemma_digits_value_of_decimal(n: nat)
    ensures
        digits_value(decimal(n)) == n,
    decreases n,
{
    lemma_decimal_digits(n);
    if n >= 10 {
        lemma_digits_value_of_decimal(n / 10);
        assert(decimal(n).drop_last() =~= decimal(n / 10));
    } else {
        assert(decimal(n).drop_last() =~= Seq::empty());
        assert(digits_value(decimal(n).drop_last()) == 0);
    }
}

/// Appends a float in scientific notation.
pub fn write_scientific(out: &mut Vec<u8>, f: &FloatValue)
    ensures
        final(out)@ == old(out)@ + scientific(*f),
{
    match f {
        FloatValue::NaN => {
            out.push(78);
            out.push(97);
            out.push(78);
            assert(out@ =~= old(out)@ + seq![78u8, 97u8, 78u8]);
        },
        FloatValue::Infinity => {
            out.push(105);
            out.push(110);
            out.push(102);
            assert(out@ =~= old(out)@ + seq![105u8, 110u8, 102u8]);
        },
        FloatValue::NegInfinity => {
            out.push(MINUS);
            out.push(105);
            out.push(110);
            out.push(102);
            assert(out@ =~= old(out)@ + seq![MINUS, 105u8, 110u8, 102u8]);
        },
        FloatValue::Finite { negative, digits, exponent } => {
            let mut d: Vec<u8> = Vec::new();
            push_decimal(&mut d, *digits);
            proof {
                assert(d@ =~= decimal(*digits as nat));
                lemma_decimal_len(*digits as nat);
                lemma_digit_count_u64(*digits);
            }
            let n = d.len();
            if *negative {
                out.push(MINUS);
            }
            let ghost sign = if *negative {
                seq![MINUS]
            } else {
                Seq::empty()
            };
            push_range(out, d.as_slice(), 0, 1);
            if n > 1 {
                out.push(POINT);
                push_range(out, d.as_slice(), 1, n);
            }
            out.push(EXPONENT_MARK);
            let ghost mantissa = if n == 1 {
                d@
            } else {
                d@.take(1) + seq![POINT] + d@.skip(1)
            };
            assert(out@ =~= old(out)@ + (sign + mantissa + seq![EXPONENT_MARK]));
            write_integer(out, n as i64 - 1 + *exponent as i64);
            assert(out@ =~= old(out)@ + (sign + mantissa + seq![EXPONENT_MARK] + render_integer(
                n - 1 + *exponent,
            )));
        },
    }
}

/// Tests whether two byte strings are equal.
pub fn bytes_equal(a: &[u8], b: &[u8]) -> (same: bool)
    ensures
        same == (a@ == b@),
{
    proof {
        lemma_byte_relation_total();
        lemma_lex_same(a@, b@, byte_relation());
    }
    match compare_bytes(a, b) {
        Relation::Same => true,
        _ => false,
    }
}

/// The text is the scientific notation of the finite, normalised float `g`.
pub open spec fn spelled(text: Seq<u8>, g: FloatValue) -> bool {
    g is Finite && g.normalised() && text == scientific(g)
}

/// Where the parts of a finite float stand in its scientific notation.
proof fn lemma_scientific_shape(g: FloatValue)
    requires
        g is Finite,
    ensures
        ({
            let text = scientific(g);
            let d = decimal(g->digits as nat);
            let n = d.len() as int;
            let s: int = if g->negative {
                1
            } else {
                0
            };
            let p: int = if n == 1 {
                0
            } else {
                1
            };
            let x = render_integer(n - 1 + g->exponent);
            &&& n >= 1
            &&& text.len() == s + n + p + 1 + x.len()
            &&& g->negative ==> text[0] == MINUS
            &&& text[s] == d[0]
            &&& n > 1 ==> text[s + 1] == POINT
            &&& forall|k: int| 1 <= k < n ==> text[s + 1 + k] == #[trigger] d[k]
            &&& text[s + n + p] == EXPONENT_MARK
            &&& text.skip(s + n + p + 1) == x
        }),
{
    let text = scientific(g);
    let d = decimal(g->digits as nat);
    let n = d.len() as int;
    let s: int = if g->negative {
        1
    } else {
        0
    };
    let p: int = if n == 1 {
        0
    } else {
        1
    };
    let x = render_integer(n - 1 + g->exponent);
    lemma_decimal_digits(g->digits as nat);
    assert(text.skip(s + n + p + 1) =~= x);
}

/// The number that digits stand for when they follow digits that stand for `before`.
pub open spec fn digits_after(before: nat, s: Seq<u8>) -> nat
    decreases s.len(),
{
    if s.len() == 0 {
        before
    } else {
        digits_after(before, s.drop_last()) * 10 + (s.last() - 48) as nat
    }
}

/// Reading digits one after the other is reading them as one number.
proof fn lemma_digits_after(a: Seq<u8>, b: Seq<u8>)
    ensures
        digits_after(digits_value(a), b) == digits_value(a + b),
    decreases b.len(),
{
    if b.len() == 0 {
        assert(a + b =~= a);
    } else {
        lemma_digits_after(a, b.drop_last());
        assert((a + b).drop_last() =~= a + b.drop_last());
    }
}

/// Digits that follow `before` stand for less than the power of ten of their count
/// times `before + 1`.
proof fn lemma_digits_after_bound(before: nat, s: Seq<u8>)
    requires
        forall|k: int| 0 <= k < s.len() ==> is_digit(#[trigger] s[k]),
    ensures
        digits_after(before, s) < (before + 1) * pow10(s.len()),
    decreases s.len(),
{
    if s.len() == 0 {
        assert(pow10(0) == 1);
        assert((before + 1) * 1 == before + 1) by (nonlinear_arith);
    } else {
        lemma_digits_after_bound(before, s.drop_last());
        let v = digits_after(before, s.drop_last());
        let q = pow10(s.drop_last().len());
        assert(pow10(s.len()) == 10 * q);
        assert(is_digit(s.last()));
        assert(v * 10 + 9 < (before + 1) * (10 * q)) by (nonlinear_arith)
            requires
                v < (before + 1) * q,
        ;
    }
}

/// Reads the digits that stand at `from`, up to the first byte that is none, as a
/// number that goes on from `before`. Gives the number and where the digits end,
/// or nothing if there are more than `limit` digits.
fn scan_digits(text: &[u8], from: usize, before: u64, limit: usize) -> (result: Option<(u64, usize)>)
    requires
        from <= text@.len(),
        before < 10,
        limit <= 17,
    ensures
        match result {
            Some((value, end)) => {
                &&& from <= end <= text@.len()
                &&& end - from <= limit
                &&& forall|k: int| from <= k < end ==> is_digit(#[trigger] text@[k])
                &&& end < text@.len() ==> !is_digit(text@[end as int])
                &&& value == digits_after(before as nat, text@.subrange(from as int, end as int))
            },
            None => {
                &&& from + limit < text@.len()
                &&& forall|k: int| from <= k <= from + limit ==> is_digit(#[trigger] text@[k])
            },
        },
{
    let mut value: u64 = before;
    let mut i: usize = from;
    proof {
        reveal_with_fuel(pow10, 19);
        assert(pow10(18) == 1_000_000_000_000_000_000nat);
        assert(text@.subrange(from as int, from as int) =~= Seq::empty());
    }
    while i < text.len() && 48 <= text[i] && text[i] <= 57
        invariant
            from <= i <= text@.len(),
            i - from <= limit <= 17,
            before < 10,
            pow10(18) == 1_000_000_000_000_000_000nat,
            forall|k: int| from <= k < i ==> is_digit(#[trigger] text@[k]),
            value == digits_after(before as nat, text@.subrange(from as int, i as int)),
        decreases text.len() - i,
    {
        if i - from >= limit {
            return None;
        }
        proof {
            let seen = text@.subrange(from as int, i as int);
            let next = text@.subrange(from as int, i + 1);
            assert(next.drop_last() =~= seen);
            lemma_digits_after_bound(before as nat, next);
            lemma_pow10_increases(next.len(), 17);
            assert(pow10(18) == 10 * pow10(17));
            assert((before + 1) * pow10(next.len()) <= 10 * pow10(17)) by (nonlinear_arith)
                requires
                    before + 1 <= 10,
                    pow10(next.len()) <= pow10(17),
            ;
        }
        value = value * 10 + (text[i] - 48) as u64;
        i = i + 1;
    }
    Some((value, i))
}

/// The width of the sign of a number: one byte if it is negative.
pub open spec fn sign_width(x: int) -> int {
    if x < 0 {
        1
    } else {
        0
    }
}

/// The number without its sign.
pub open spec fn unsigned(x: int) -> nat {
    if x < 0 {
        (-x) as nat
    } else {
        x as nat
    }
}

/// The float of which the text is the scientific notation.
spec fn spelling(text: Seq<u8>) -> FloatValue {
    choose|g: FloatValue| spelled(text, g)
}

/// Reads the mantissa of a finite float: the sign, a digit and the digits after
/// the point. Gives the sign, the digits as a number, their count and where the
/// exponent mark must stand.
fn scan_mantissa(text: &[u8], Ghost(g): Ghost<FloatValue>) -> (result: Option<(bool, u64, usize, usize)>)
    ensures
        spelled(text@, g) ==> ({
            let n = decimal(g->digits as nat).len();
            &&& result matches Some((negative, digits, count, end))
            &&& negative == g->negative
            &&& digits == g->digits
            &&& count == n
            &&& end == (if negative { 1int } else { 0 }) + n + (if n == 1 { 0int } else { 1 })
        }),
        result matches Some((negative, digits, count, end)) ==> 1 <= count <= 17 && end <= text@.len(),
{
    let ghost known = spelled(text@, g);
    let ghost d = decimal(g->digits as nat);
    let ghost n = d.len() as int;
    let ghost s: int = if g->negative {
        1
    } else {
        0
    };
    proof {
        reveal_with_fuel(pow10, 18);
        assert(pow10(17) == 100_000_000_000_000_000nat);
        if known {
            lemma_scientific_shape(g);
            lemma_decimal_digits(g->digits as nat);
            lemma_decimal_len(g->digits as nat);
            lemma_digit_count_le(g->digits as nat, 17);
            lemma_digits_value_of_decimal(g->digits as nat);
        }
    }
    let len = text.len();
    let mut i: usize = 0;
    let negative = len > 0 && text[0] == MINUS;
    if negative {
        i = 1;
    }
    if i >= len || text[i] < 48 || text[i] > 57 {
        return None;
    }
    let first: u64 = (text[i] - 48) as u64;
    i = i + 1;
    if i < len && text[i] == POINT {
        match scan_digits(text, i + 1, first, 16) {
            Some((value, end)) => {
                proof {
                    if known {
                        let rest = text@.subrange(i + 1, end as int);
                        if end < s + 1 + n {
                            assert(text@[end as int] == d[end - s - 1]);
                            assert(is_digit(d[end - s - 1]));
                        }
                        if end > s + 1 + n {
                            assert(is_digit(text@[s + 1 + n]));
                        }
                        assert(rest =~= d.skip(1));
                        assert(d.take(1).drop_last() =~= Seq::empty());
                        assert(digits_value(d.take(1).drop_last()) == 0);
                        assert(digits_value(d.take(1)) == first);
                        lemma_digits_after(d.take(1), d.skip(1));
                        assert(d.take(1) + d.skip(1) =~= d);
                    }
                }
                Some((negative, value, end - i, end))
            },
            None => {
                proof {
                    if known {
                        assert(is_digit(text@[s + 1 + n]));
                    }
                }
                None
            },
        }
    } else {
        proof {
            if known {
                assert(d.drop_last() =~= Seq::empty());
                assert(digits_value(d.drop_last()) == 0);
            }
        }
        Some((negative, first, 1, i))
    }
}

/// Reads the exponent of a float, which stands from `from` to the end of the text.
fn scan_exponent(text: &[u8], from: usize) -> (result: Option<i64>)
    requires
        from <= text@.len(),
    ensures
        forall|x: int|
            -10_000_000_000 < x < 10_000_000_000 && text@.skip(from as int) == render_integer(x) ==> result == Some(
                x as i64,
            ),
        result matches Some(x) ==> -100_000_000_000 < x < 100_000_000_000,
{
    let len = text.len();
    let mut i: usize = from;
    let negative = i < len && text[i] == MINUS;
    if negative {
        i = i + 1;
    }
    let ghost tail = text@.skip(from as int);
    proof {
        reveal_with_fuel(pow10, 12);
        assert(pow10(10) == 10_000_000_000nat);
        assert(pow10(11) == 100_000_000_000nat);
    }
    match scan_digits(text, i, 0, 10) {
        Some((value, end)) => {
            let ghost run = text@.subrange(i as int, end as int);
            proof {
                assert forall|k: int| 0 <= k < run.len() implies is_digit(#[trigger] run[k]) by {
                    assert(run[k] == text@[i + k]);
                }
                lemma_digits_after_bound(0, run);
                lemma_pow10_increases(run.len(), 10);
                assert((0 + 1) * pow10(run.len()) == pow10(run.len())) by (nonlinear_arith);
                assert(value < 10_000_000_000);
                lemma_digits_after(Seq::empty(), run);
                assert(Seq::<u8>::empty() + run =~= run);
            }
            let result = if end != len || end == i {
                None
            } else if negative {
                Some(-(value as i64))
            } else {
                Some(value as i64)
            };
            proof {
                assert forall|x: int|
                    -10_000_000_000 < x < 10_000_000_000 && tail == render_integer(x) implies result == Some(
                    x as i64,
                ) by {
                    lemma_exponent_digits(text@, from as int, x);
                    let ax = unsigned(x);
                    lemma_decimal_digits(ax);
                    lemma_digits_value_of_decimal(ax);
                    let xd = decimal(ax);
                    assert(i == from + sign_width(x));
                    if end < len {
                        assert(text@[i + (end - i)] == xd[end - i]);
                        assert(is_digit(xd[end - i]));
                    }
                    assert forall|k: int| 0 <= k < xd.len() implies run[k] == xd[k] by {
                        assert(text@[i + k] == xd[k]);
                    }
                    assert(run =~= xd);
                }
            }
            result
        },
        None => {
            proof {
                assert forall|x: int|
                    -10_000_000_000 < x < 10_000_000_000 && tail == render_integer(x) implies false by {
                    lemma_exponent_digits(text@, from as int, x);
                    let ax = unsigned(x);
                    lemma_decimal_len(ax);
                    lemma_digit_count_le(ax, 10);
                }
            }
            None
        },
    }
}

/// Where the sign and the digits of an exponent stand in the text it ends.
proof fn lemma_exponent_digits(text: Seq<u8>, from: int, x: int)
    requires
        0 <= from <= text.len(),
        text.skip(from) == render_integer(x),
    ensures
        ({
            let xd = decimal(unsigned(x));
            let s = sign_width(x);
            &&& from < text.len()
            &&& (text[from] == MINUS) == (x < 0)
            &&& text.len() == from + s + xd.len()
            &&& forall|k: int| 0 <= k < xd.len() ==> text[from + s + k] == #[trigger] xd[k]
        }),
{
    let ax = unsigned(x);
    let s = sign_width(x);
    let tail = text.skip(from);
    lemma_decimal_digits(ax);
    assert(tail.len() == s + decimal(ax).len());
    assert(tail[0] == text[from]);
    assert forall|k: int| 0 <= k < decimal(ax).len() implies text[from + s + k] == #[trigger] decimal(ax)[k] by {
        assert(tail[s + k] == text[from + s + k]);
    }
}

/// Reads a finite float in scientific notation without checking every detail of
/// its spelling: if the text is the scientific notation of `g`, it gives `g`.
fn scan(text: &[u8], Ghost(g): Ghost<FloatValue>) -> (result: Option<FloatValue>)
    ensures
        spelled(text@, g) ==> result == Some(g),
{
    let ghost known = spelled(text@, g);
    proof {
        if known {
            lemma_scientific_shape(g);
        }
    }
    match scan_mantissa(text, Ghost(g)) {
        Some((negative, digits, count, end)) => {
            if end >= text.len() || text[end] != EXPONENT_MARK {
                return None;
            }
            match scan_exponent(text, end + 1) {
                Some(x) => {
                    let exponent: i64 = x - (count as i64 - 1);
                    if exponent < -2147483648 || exponent > 2147483647 {
                        return None;
                    }
                    let found = FloatValue::Finite { negative, digits, exponent: exponent as i32 };
                    proof {
                        if known {
                            assert(found == g);
                        }
                    }
                    Some(found)
                },
                None => None,
            }
        },
        None => None,
    }
}

/// Digits that follow `before` stand for `before`, shifted by their count, plus
/// what they stand for alone.
proof fn lemma_digits_after_value(before: nat, s: Seq<u8>)
    ensures
        digits_after(before, s) == before * pow10(s.len()) + digits_value(s),
    decreases s.len(),
{
    if s.len() == 0 {
        assert(pow10(0) == 1);
        assert(before * 1 == before) by (nonlinear_arith);
    } else {
        let front = s.drop_last();
        lemma_digits_after_value(before, front);
        let p = pow10(front.len());
        assert(pow10(s.len()) == 10 * p);
        let v = digits_value(front);
        assert((before * p + v) * 10 == before * (10 * p) + v * 10) by (nonlinear_arith);
    }
}

/// Zeros stand for zero.
proof fn lemma_zeros_value(z: nat)
    ensures
        digits_value(zeros(z)) == 0,
    decreases z,
{
    if z > 0 {
        lemma_zeros_value((z - 1) as nat);
        assert(zeros(z).drop_last() =~= zeros((z - 1) as nat));
    }
}

/// What digits stand for when they are put after others.
proof fn lemma_digits_value_concat(a: Seq<u8>, b: Seq<u8>)
    ensures
        digits_value(a + b) == digits_value(a) * pow10(b.len()) + digits_value(b),
{
    lemma_digits_after(a, b);
    lemma_digits_after_value(digits_value(a), b);
}

/// A number is written in one way only as digits that end in no zero, times a
/// power of ten.
proof fn lemma_trailing_zeros_unique(a: nat, x: nat, b: nat, y: nat)
    requires
        a % 10 != 0,
        b % 10 != 0,
        a * pow10(x) == b * pow10(y),
    ensures
        a == b,
        x == y,
    decreases x + y,
{
    lemma_pow10_positive(x);
    lemma_pow10_positive(y);
    if x == 0 && y == 0 {
        assert(a * 1 == a && b * 1 == b) by (nonlinear_arith);
    } else if x == 0 {
        let q = pow10((y - 1) as nat);
        assert(a * 1 == a) by (nonlinear_arith);
        assert(b * (10 * q) == 10 * (b * q)) by (nonlinear_arith);
    } else if y == 0 {
        let q = pow10((x - 1) as nat);
        assert(b * 1 == b) by (nonlinear_arith);
        assert(a * (10 * q) == 10 * (a * q)) by (nonlinear_arith);
    } else {
        let p = pow10((x - 1) as nat);
        let q = pow10((y - 1) as nat);
        assert(a * (10 * p) == 10 * (a * p)) by (nonlinear_arith);
        assert(b * (10 * q) == 10 * (b * q)) by (nonlinear_arith);
        lemma_trailing_zeros_unique(a, (x - 1) as nat, b, (y - 1) as nat);
    }
}

/// Takes the trailing zeros off a number: gives the digits that are left and the
/// count of the zeros.
fn strip_zeros(m: u64) -> (result: (u64, u32))
    requires
        0 < m < 1_000_000_000_000_000_000,
    ensures
        result.0 % 10 != 0,
        m == result.0 * pow10(result.1 as nat),
        result.1 <= 18,
{
    let mut digits: u64 = m;
    let mut count: u32 = 0;
    proof {
        reveal_with_fuel(pow10, 20);
        assert(pow10(18) == 1_000_000_000_000_000_000nat);
        assert(pow10(0) == 1);
        assert(digits * 1 == digits) by (nonlinear_arith);
    }
    while digits % 10 == 0
        invariant
            0 < digits,
            m == digits * pow10(count as nat),
            m < pow10(18),
            count <= 18,
        decreases digits,
    {
        proof {
            let p = pow10(count as nat);
            let d = (digits / 10) as int;
            assert(pow10((count + 1) as nat) == 10 * p);
            assert((10 * d) * p == d * (10 * p)) by (nonlinear_arith);
            if count >= 18 {
                lemma_pow10_increases(18, count as nat);
                lemma_pow10_positive(count as nat);
                assert(digits * p >= p) by (nonlinear_arith)
                    requires
                        digits >= 1,
                        p > 0,
                ;
            }
        }
        digits = digits / 10;
        count = count + 1;
    }
    proof {
        if count > 17 {
            lemma_pow10_positive(count as nat);
        }
    }
    (digits, count)
}

/// The text is what the serializer writes for the finite, normalised float `g`,
/// other than zero, where it writes the number in full.
pub open spec fn written_in_full(text: Seq<u8>, g: FloatValue) -> bool {
    &&& g matches FloatValue::Finite { digits, exponent, .. }
    &&& g.normalised()
    &&& digits != 0
    &&& magnitude_form(digits as nat, exponent as int) <= 3
    &&& text == render_float(g)
}

/// The text is what the serializer writes for the finite, normalised float `g`,
/// other than zero, where it writes the number with an exponent.
pub open spec fn written_with_exponent(text: Seq<u8>, g: FloatValue) -> bool {
    &&& g matches FloatValue::Finite { digits, exponent, .. }
    &&& g.normalised()
    &&& digits != 0
    &&& magnitude_form(digits as nat, exponent as int) >= 4
    &&& text == render_float(g)
}

/// A number that is written with an exponent is written in scientific notation.
proof fn lemma_written_with_exponent(text: Seq<u8>, g: FloatValue)
    requires
        written_with_exponent(text, g),
    ensures
        spelled(text, g),
{
    assert(render_float(g) =~= scientific(g));
}

/// Where the parts of a number stand that is written in full.
proof fn lemma_full_shape(g: FloatValue)
    requires
        written_in_full(render_float(g), g),
    ensures
        ({
            let text = render_float(g);
            let d = decimal(g->digits as nat);
            let n = d.len() as int;
            let kk = n + g->exponent;
            let form = magnitude_form(g->digits as nat, g->exponent as int);
            let s: int = if g->negative {
                1
            } else {
                0
            };
            &&& 1 <= n <= 17
            &&& g->negative ==> text[0] == MINUS
            &&& !g->negative ==> is_digit(text[0])
            &&& form == 1 ==> {
                &&& text.len() == s + kk + 2
                &&& text.subrange(s, s + kk) == d + zeros(g->exponent as nat)
                &&& text[s + kk] == POINT
                &&& text[s + kk + 1] == ZERO
            }
            &&& form == 2 ==> {
                &&& text.len() == s + n + 1
                &&& 0 < kk < n
                &&& text.subrange(s, s + kk) == d.take(kk)
                &&& text[s + kk] == POINT
                &&& text.subrange(s + kk + 1, text.len() as int) == d.skip(kk)
            }
            &&& form == 3 ==> {
                &&& text.len() == s + 2 - kk + n
                &&& text[s] == ZERO
                &&& text[s + 1] == POINT
                &&& text.subrange(s + 2, s + 2 - kk) == zeros((-kk) as nat)
                &&& text.subrange(s + 2 - kk, text.len() as int) == d
            }
        }),
{
    let text = render_float(g);
    let d = decimal(g->digits as nat);
    let n = d.len() as int;
    let kk = n + g->exponent;
    let form = magnitude_form(g->digits as nat, g->exponent as int);
    let s: int = if g->negative {
        1
    } else {
        0
    };
    let body = render_magnitude(g->digits as nat, g->exponent as int);
    reveal_with_fuel(pow10, 18);
    assert(pow10(17) == 100_000_000_000_000_000nat);
    lemma_decimal_digits(g->digits as nat);
    lemma_decimal_len(g->digits as nat);
    lemma_digit_count_le(g->digits as nat, 17);
    assert(text.len() == s + body.len());
    assert(body =~= text.skip(s));
    if form == 1 {
        assert(text.subrange(s, s + kk) =~= d + zeros(g->exponent as nat));
    } else if form == 2 {
        assert(text.subrange(s, s + kk) =~= d.take(kk));
        assert(text.subrange(s + kk + 1, text.len() as int) =~= d.skip(kk));
    } else {
        assert(text.subrange(s + 2, s + 2 - kk) =~= zeros((-kk) as nat));
        assert(text.subrange(s + 2 - kk, text.len() as int) =~= d);
    }
}

/// The width of the sign of a float: one byte if it is negative.
pub open spec fn float_sign_width(g: FloatValue) -> int {
    if g->negative {
        1
    } else {
        0
    }
}

/// How many digits stand before the point of a number that is written in full.
pub open spec fn whole_width(g: FloatValue) -> int {
    if magnitude_form(g->digits as nat, g->exponent as int) == 3 {
        1
    } else {
        decimal(g->digits as nat).len() + g->exponent
    }
}

/// Digits run from `from` up to `to`, where they end.
pub open spec fn digits_run(text: Seq<u8>, from: int, to: int) -> bool {
    &&& 0 <= from <= to <= text.len()
    &&& forall|k: int| from <= k < to ==> is_digit(#[trigger] text[k])
    &&& to < text.len() ==> !is_digit(text[to])
}

/// Zeros run from `from` up to `to`, where they end.
pub open spec fn zeros_run(text: Seq<u8>, from: int, to: int) -> bool {
    &&& 0 <= from <= to <= text.len()
    &&& forall|k: int| from <= k < to ==> text[k] == ZERO
    &&& to < text.len() ==> text[to] != ZERO
}

/// In a number written in full, the digits from the sign on end at the point.
proof fn lemma_plain_whole(text: Seq<u8>, g: FloatValue, start: int, point: int)
    requires
        written_in_full(text, g),
        start == (if text.len() > 0 && text[0] == MINUS { 1int } else { 0 }),
        digits_run(text, start, point),
    ensures
        start == float_sign_width(g),
        point == start + whole_width(g),
        start < point < text.len(),
        point - start <= 16,
        text[point] == POINT,
{
    let d = decimal(g->digits as nat);
    let n = d.len() as int;
    let kk = n + g->exponent;
    let form = magnitude_form(g->digits as nat, g->exponent as int);
    let s = float_sign_width(g);
    let w = whole_width(g);
    lemma_full_shape(g);
    lemma_decimal_digits(g->digits as nat);
    if form != 3 {
        let inner = text.subrange(s, s + kk);
        assert forall|i: int| 0 <= i < kk implies is_digit(#[trigger] text[s + i]) by {
            assert(inner[i] == text[s + i]);
            if form == 1 {
                if i < n {
                    assert((d + zeros(g->exponent as nat))[i] == d[i]);
                } else {
                    assert((d + zeros(g->exponent as nat))[i] == ZERO);
                }
            } else {
                assert(d.take(kk)[i] == d[i]);
            }
        }
        if point < s + w {
            assert(is_digit(text[s + (point - s)]));
        }
    }
    if point > s + w {
        assert(is_digit(text[s + w]));
    }
}

/// A number written in full has its point after the sign and at most 16 digits.
proof fn lemma_plain_point(text: Seq<u8>, g: FloatValue)
    requires
        written_in_full(text, g),
    ensures
        float_sign_width(g) == (if text.len() > 0 && text[0] == MINUS { 1int } else { 0 }),
        0 < whole_width(g) <= 16,
        float_sign_width(g) + whole_width(g) < text.len(),
        text[float_sign_width(g) + whole_width(g)] == POINT,
{
    lemma_full_shape(g);
}

/// In a number written in full, what stands after the point: a single zero, or
/// the last digits of the number, or zeros and then all its digits.
proof fn lemma_plain_fraction(text: Seq<u8>, g: FloatValue, point: int, pos: int)
    requires
        written_in_full(text, g),
        point == float_sign_width(g) + whole_width(g),
        zeros_run(text, point + 1, pos),
    ensures
        ({
            let d = decimal(g->digits as nat);
            let n = d.len() as int;
            let kk = n + g->exponent;
            let form = magnitude_form(g->digits as nat, g->exponent as int);
            let len = text.len() as int;
            &&& forall|k: int| pos <= k < len ==> is_digit(#[trigger] text[k])
            &&& len - pos <= 17
            &&& form == 1 ==> pos == len && len == point + 2 && 0 <= g->exponent
            &&& form == 2 ==> pos < len && len - point - 1 == n - kk && 0 < kk < n && n <= 17
            &&& form == 3 ==> pos < len && pos == point + 1 - kk && len - pos == n && kk <= 0
        }),
{
    let d = decimal(g->digits as nat);
    let n = d.len() as int;
    let kk = n + g->exponent;
    let form = magnitude_form(g->digits as nat, g->exponent as int);
    let s = float_sign_width(g);
    let len = text.len() as int;
    lemma_full_shape(g);
    lemma_decimal_digits(g->digits as nat);
    if form == 1 {
        if pos == point + 1 {
            assert(text[pos] == ZERO);
        }
    } else if form == 2 {
        let tail = text.subrange(s + kk + 1, len);
        assert forall|i: int| 0 <= i < n - kk implies text[s + kk + 1 + i] == #[trigger] d[kk + i] by {
            assert(tail[i] == text[s + kk + 1 + i]);
            assert(d.skip(kk)[i] == d[kk + i]);
        }
        assert(text[len - 1] == d[kk + (n - kk - 1)]);
        assert(d.last() != ZERO);
        assert forall|k: int| pos <= k < len implies is_digit(#[trigger] text[k]) by {
            assert(text[s + kk + 1 + (k - s - kk - 1)] == d[kk + (k - s - kk - 1)]);
        }
    } else {
        let z = text.subrange(s + 2, s + 2 - kk);
        let tail = text.subrange(s + 2 - kk, len);
        assert forall|i: int| 0 <= i < n implies text[s + 2 - kk + i] == #[trigger] d[i] by {
            assert(tail[i] == text[s + 2 - kk + i]);
        }
        assert(text[s + 2 - kk + 0] == d[0]);
        if pos < s + 2 - kk {
            assert(z[pos - s - 2] == text[pos]);
        }
        assert forall|k: int| pos <= k < len implies is_digit(#[trigger] text[k]) by {
            assert(text[s + 2 - kk + (k - (s + 2 - kk))] == d[k - (s + 2 - kk)]);
        }
    }
}

/// What the parts of a number written in full stand for.
proof fn lemma_plain_values(text: Seq<u8>, g: FloatValue, point: int, pos: int)
    requires
        written_in_full(text, g),
        point == float_sign_width(g) + whole_width(g),
        zeros_run(text, point + 1, pos),
    ensures
        ({
            let form = magnitude_form(g->digits as nat, g->exponent as int);
            let len = text.len() as int;
            let whole = digits_value(text.subrange(float_sign_width(g), point));
            let rest = digits_value(text.subrange(pos, len));
            let places = (len - point - 1) as nat;
            &&& form == 1 ==> whole == g->digits * pow10(g->exponent as nat)
            &&& form == 2 ==> whole * pow10(places) + rest == g->digits && g->exponent == -places
            &&& form == 3 ==> whole == 0 && rest == g->digits && g->exponent == -places
        }),
{
    let d = decimal(g->digits as nat);
    let n = d.len() as int;
    let kk = n + g->exponent;
    let form = magnitude_form(g->digits as nat, g->exponent as int);
    let s = float_sign_width(g);
    let len = text.len() as int;
    lemma_full_shape(g);
    lemma_plain_fraction(text, g, point, pos);
    lemma_digits_value_of_decimal(g->digits as nat);
    if form == 1 {
        lemma_digits_value_concat(d, zeros(g->exponent as nat));
        lemma_zeros_value(g->exponent as nat);
    } else if form == 2 {
        let after = text.subrange(point + 1, len);
        let shown = text.subrange(pos, len);
        assert(after =~= zeros((pos - point - 1) as nat) + shown);
        lemma_digits_value_concat(zeros((pos - point - 1) as nat), shown);
        lemma_zeros_value((pos - point - 1) as nat);
        assert(0 * pow10(shown.len()) == 0) by (nonlinear_arith);
        lemma_digits_value_concat(d.take(kk), d.skip(kk));
        assert(d.take(kk) + d.skip(kk) =~= d);
    } else {
        assert(text.subrange(s, point) =~= zeros(1));
        lemma_zeros_value(1);
        assert(text.subrange(pos, len) =~= d);
    }
}

/// Reads the parts of a number that is written in full: the sign, the digits
/// before the point as a number, where the point stands, where the zeros after it
/// end, and the digits after those as a number.
fn scan_plain_parts(text: &[u8], Ghost(g): Ghost<FloatValue>) -> (result: Option<(bool, u64, usize, usize, u64)>)
    ensures
        written_in_full(text@, g) ==> result is Some,
        result matches Some((negative, whole, point, pos, rest)) ==> {
            let start: int = if negative {
                1
            } else {
                0
            };
            &&& negative == (text@.len() > 0 && text@[0] == MINUS)
            &&& start < point < text@.len()
            &&& point - start <= 17
            &&& digits_run(text@, start, point as int)
            &&& zeros_run(text@, point + 1, pos as int)
            &&& text@.len() - pos <= 17
            &&& whole == digits_value(text@.subrange(start, point as int))
            &&& rest == digits_value(text@.subrange(pos as int, text@.len() as int))
            &&& whole < 100_000_000_000_000_000
            &&& rest < 100_000_000_000_000_000
        },
{
    let ghost known = written_in_full(text@, g);
    let len = text.len();
    let mut start: usize = 0;
    let negative = len > 0 && text[0] == MINUS;
    if negative {
        start = 1;
    }
    proof {
        reveal_with_fuel(pow10, 18);
        assert(pow10(17) == 100_000_000_000_000_000nat);
    }
    let (whole, point) = match scan_digits(text, start, 0, 17) {
        Some(found) => found,
        None => {
            proof {
                if known {
                    lemma_plain_point(text@, g);
                    assert(is_digit(text@[start + whole_width(g)]));
                }
            }
            return None;
        },
    };
    proof {
        let whole_text = text@.subrange(start as int, point as int);
        assert forall|k: int| 0 <= k < whole_text.len() implies is_digit(#[trigger] whole_text[k]) by {
            assert(whole_text[k] == text@[start + k]);
        }
        lemma_digits_after_value(0, whole_text);
        lemma_digits_after_bound(0, whole_text);
        lemma_pow10_increases(whole_text.len(), 17);
        assert((0 + 1) * pow10(whole_text.len()) == pow10(whole_text.len())) by (nonlinear_arith);
        assert(0 * pow10(whole_text.len()) == 0) by (nonlinear_arith);
        if known {
            lemma_plain_whole(text@, g, start as int, point as int);
        }
    }
    if point == start || point >= len || text[point] != POINT {
        return None;
    }
    let mut pos: usize = point + 1;
    while pos < len && text[pos] == ZERO
        invariant
            point < pos <= len,
            len == text@.len(),
            forall|k: int| point < k < pos ==> text@[k] == ZERO,
        decreases len - pos,
    {
        pos = pos + 1;
    }
    let (rest, end) = match scan_digits(text, pos, 0, 17) {
        Some(found) => found,
        None => {
            proof {
                if known {
                    lemma_plain_fraction(text@, g, point as int, pos as int);
                }
            }
            return None;
        },
    };
    proof {
        if known {
            lemma_plain_fraction(text@, g, point as int, pos as int);
            if end < len {
                assert(is_digit(text@[end as int]));
            }
        }
    }
    if end != len {
        return None;
    }
    proof {
        let rest_text = text@.subrange(pos as int, len as int);
        assert forall|k: int| 0 <= k < rest_text.len() implies is_digit(#[trigger] rest_text[k]) by {
            assert(rest_text[k] == text@[pos + k]);
        }
        lemma_digits_after_value(0, rest_text);
        lemma_digits_after_bound(0, rest_text);
        lemma_pow10_increases(rest_text.len(), 17);
        assert((0 + 1) * pow10(rest_text.len()) == pow10(rest_text.len())) by (nonlinear_arith);
        assert(0 * pow10(rest_text.len()) == 0) by (nonlinear_arith);
    }
    Some((negative, whole, point, pos, rest))
}

/// Reads a finite float that is written in full without checking every detail of
/// its spelling: if the text is what is written for `g`, it gives `g`.
fn scan_plain(text: &[u8], Ghost(g): Ghost<FloatValue>) -> (result: Option<FloatValue>)
    ensures
        written_in_full(text@, g) ==> result == Some(g),
{
    let ghost known = written_in_full(text@, g);
    let ghost form = magnitude_form(g->digits as nat, g->exponent as int);
    let (negative, whole, point, pos, rest) = match scan_plain_parts(text, Ghost(g)) {
        Some(parts) => parts,
        None => {
            return None;
        },
    };
    let len = text.len();
    let places = len - point - 1;
    proof {
        reveal_with_fuel(pow10, 18);
        assert(pow10(17) == 100_000_000_000_000_000nat);
        if known {
            lemma_plain_whole(text@, g, float_sign_width_of(negative), point as int);
            lemma_plain_fraction(text@, g, point as int, pos as int);
            lemma_plain_values(text@, g, point as int, pos as int);
            if form == 1 {
                lemma_pow10_positive(g->exponent as nat);
                let p = pow10(g->exponent as nat);
                let v = g->digits as int;
                assert(v * p > 0) by (nonlinear_arith)
                    requires
                        v > 0,
                        p > 0,
                ;
            }
        }
    }
    if pos == len {
        if whole == 0 || places != 1 {
            return None;
        }
        let (digits, count) = strip_zeros(whole);
        proof {
            if known {
                lemma_trailing_zeros_unique(digits as nat, count as nat, g->digits as nat, g->exponent as nat);
            }
        }
        Some(FloatValue::Finite { negative, digits, exponent: count as i32 })
    } else {
        if places > 30 || (places > 17 && whole != 0) {
            return None;
        }
        let digits: u128 = if whole == 0 {
            rest as u128
        } else {
            proof {
                lemma_pow10_increases(places as nat, 17);
                assert(whole * pow10(places as nat) <= 100_000_000_000_000_000 * 100_000_000_000_000_000)
                    by (nonlinear_arith)
                    requires
                        whole <= 100_000_000_000_000_000,
                        pow10(places as nat) <= 100_000_000_000_000_000,
                ;
            }
            (whole as u128) * power_of_ten(places as u32) + rest as u128
        };
        proof {
            assert(0 * pow10(places as nat) == 0) by (nonlinear_arith);
        }
        if digits >= 100_000_000_000_000_000 {
            return None;
        }
        Some(FloatValue::Finite { negative, digits: digits as u64, exponent: -(places as i32) })
    }
}

/// The width of a sign that is there or not.
pub open spec fn float_sign_width_of(negative: bool) -> int {
    if negative {
        1
    } else {
        0
    }
}

/// Reads a float in scientific notation.
///
/// Succeeds exactly on the scientific notation of a normalised float, which it
/// returns, and on that of negative zero, which it reads as zero.
pub fn parse_scientific(text: &[u8]) -> (result: Option<FloatValue>)
    ensures
        match result {
            Some(f) => denotes(text@, f),
            None => forall|g: FloatValue| !denotes(text@, g),
        },
{
    let others = [FloatValue::NaN, FloatValue::Infinity, FloatValue::NegInfinity];
    let mut k: usize = 0;
    while k < 3
        invariant
            k <= 3,
            others@ == seq![FloatValue::NaN, FloatValue::Infinity, FloatValue::NegInfinity],
            forall|j: int| 0 <= j < k ==> text@ != scientific(#[trigger] others@[j]),
        decreases 3 - k,
    {
        let mut written: Vec<u8> = Vec::new();
        write_scientific(&mut written, &others[k]);
        assert(written@ =~= scientific(others@[k as int]));
        if bytes_equal(text, written.as_slice()) {
            return Some(others[k]);
        }
        k = k + 1;
    }
    if text.len() == 4 && text[0] == MINUS && text[1] == 48 && text[2] == EXPONENT_MARK && text[3] == 48 {
        assert(text@ =~= negative_zero_text());
        return Some(FloatValue::Finite { negative: false, digits: 0, exponent: 0 });
    }
    match scan(text, Ghost(spelling(text@))) {
        Some(c) => {
            if c.is_normalised() {
                let mut written: Vec<u8> = Vec::new();
                write_scientific(&mut written, &c);
                assert(written@ =~= scientific(c));
                if bytes_equal(text, written.as_slice()) {
                    return Some(c);
                }
            }
        },
        None => {},
    }
    proof {
        assert forall|g: FloatValue| !denotes(text@, g) by {
            if denotes(text@, g) {
                match g {
                    FloatValue::NaN => {
                        assert(text@ != scientific(others@[0]));
                    },
                    FloatValue::Infinity => {
                        assert(text@ != scientific(others@[1]));
                    },
                    FloatValue::NegInfinity => {
                        assert(text@ != scientific(others@[2]));
                    },
                    FloatValue::Finite { .. } => {
                        assert(spelled(text@, g));
                    },
                }
            }
        }
    }
    None
}

/// The text is what the serializer writes for the normalised float `f`, or what is
/// written for negative zero, which is read as zero.
pub open spec fn reads_as(text: Seq<u8>, f: FloatValue) -> bool {
    f.normalised() && (text == render_float(f) || (f == zero() && text == seq![MINUS, ZERO, POINT, ZERO]))
}

/// Tests whether the text is what the serializer writes for the float.
fn is_written(text: &[u8], f: &FloatValue) -> (same: bool)
    ensures
        same == (text@ == render_float(*f)),
{
    let mut written: Vec<u8> = Vec::new();
    write_float(&mut written, f);
    assert(written@ =~= render_float(*f));
    bytes_equal(text, written.as_slice())
}

/// Reads a float as the serializer writes it.
///
/// Succeeds exactly on the text that is written for a normalised float, which it
/// returns, and on `-0.0`, which it reads as zero.
pub fn parse_float(text: &[u8]) -> (result: Option<FloatValue>)
    ensures
        match result {
            Some(f) => reads_as(text@, f),
            None => forall|g: FloatValue| !reads_as(text@, g),
        },
{
    let ghost sought = choose|g: FloatValue| g.normalised() && text@ == render_float(g);
    let others = [
        FloatValue::NaN,
        FloatValue::Infinity,
        FloatValue::NegInfinity,
        FloatValue::Finite { negative: false, digits: 0, exponent: 0 },
    ];
    let mut k: usize = 0;
    while k < 4
        invariant
            k <= 4,
            others@ == seq![
                FloatValue::NaN,
                FloatValue::Infinity,
                FloatValue::NegInfinity,
                FloatValue::Finite { negative: false, digits: 0, exponent: 0 },
            ],
            forall|j: int| 0 <= j < k ==> text@ != render_float(#[trigger] others@[j]),
        decreases 4 - k,
    {
        if is_written(text, &others[k]) {
            return Some(others[k]);
        }
        k = k + 1;
    }
    if text.len() == 4 && text[0] == MINUS && text[1] == ZERO && text[2] == POINT && text[3] == ZERO {
        assert(text@ =~= seq![MINUS, ZERO, POINT, ZERO]);
        return Some(FloatValue::Finite { negative: false, digits: 0, exponent: 0 });
    }
    match scan_plain(text, Ghost(sought)) {
        Some(c) => {
            if c.is_normalised() && is_written(text, &c) {
                return Some(c);
            }
        },
        None => {},
    }
    match scan(text, Ghost(sought)) {
        Some(c) => {
            if c.is_normalised() && is_written(text, &c) {
                return Some(c);
            }
        },
        None => {},
    }
    proof {
        assert forall|g: FloatValue| !reads_as(text@, g) by {
            if reads_as(text@, g) {
                assert(g.normalised() && text@ == render_float(g));
                match sought {
                    FloatValue::NaN => {
                        assert(text@ != render_float(others@[0]));
                    },
                    FloatValue::Infinity => {
                        assert(text@ != render_float(others@[1]));
                    },
                    FloatValue::NegInfinity => {
                        assert(text@ != render_float(others@[2]));
                    },
                    FloatValue::Finite { negative, digits, exponent } => {
                        if digits == 0 {
                            assert(sought == others@[3]);
                            assert(text@ != render_float(others@[3]));
                        } else if magnitude_form(digits as nat, exponent as int) <= 3 {
                            assert(written_in_full(text@, sought));
                        } else {
                            assert(written_with_exponent(text@, sought));
                            lemma_written_with_exponent(text@, sought);
                        }
                    },
                }
            }
        }
    }
    None
}

} // verus!
