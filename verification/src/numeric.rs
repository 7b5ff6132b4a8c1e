//! The order of floats is the order of the numbers that they stand for.

use vstd::prelude::*;
use crate::decimal::{
    digit_count,
    lemma_digit_count_bounds,
    lemma_digit_count_u64,
    lemma_pow10_increases,
    lemma_pow10_positive,
    pow10,
};
use crate::order::{aligned, float_relation, magnitude};
use crate::relation::int_relation;
use crate::table::FloatValue;

verus! {

/// The number that a finite float stands for, counted in units of `10^base`; an
/// integer where `base` is at most the exponent.
pub open spec fn scaled(f: FloatValue, base: int) -> int {
    match f {
        FloatValue::Finite { negative, digits, exponent } => {
            let v = digits * pow10((exponent - base) as nat);
            if negative {
                -v
            } else {
                v
            }
        },
        _ => 0,
    }
}

/// Powers of ten multiply as their exponents add.
pub proof fn lemma_pow10_adds(x: nat, y: nat)
    ensures
        pow10(x + y) == pow10(x) * pow10(y),
    decreases x,
{
    if x == 0 {
        assert(pow10(0) == 1);
        assert(1 * pow10(y) == pow10(y));
    } else {
        lemma_pow10_adds((x - 1) as nat, y);
        let p = pow10((x - 1) as nat);
        let q = pow10(y);
        assert(pow10(x) == 10 * p);
        assert(pow10(x + y) == 10 * pow10((x - 1 + y) as nat));
        assert(10 * (p * q) == (10 * p) * q) by (nonlinear_arith);
    }
}

/// The aligned digits of a nonzero number have exactly twenty places.
proof fn lemma_aligned_bounds(digits: u64)
    requires
        digits != 0,
    ensures
        pow10(19) <= aligned(digits) < pow10(20),
{
    let n = digit_count(digits as nat);
    lemma_digit_count_u64(digits);
    lemma_digit_count_bounds(digits as nat);
    let p = pow10((20 - n) as nat);
    lemma_pow10_positive((20 - n) as nat);
    lemma_pow10_adds((n - 1) as nat, (20 - n) as nat);
    lemma_pow10_adds(n, (20 - n) as nat);
    let lo = pow10((n - 1) as nat);
    let hi = pow10(n);
    let d = digits as int;
    assert(lo * p <= d * p < hi * p) by (nonlinear_arith)
        requires
            lo <= d < hi,
            p > 0,
    ;
}

/// The number, in units of `10^base` and shifted by twenty places, is the aligned
/// digits shifted by the magnitude.
proof fn lemma_scaled_by_aligned(digits: u64, exponent: i32, base: int)
    requires
        digits != 0,
        base <= exponent,
    ensures
        digits * pow10((exponent - base) as nat) * pow10(20) == aligned(digits) * pow10(
            (magnitude(digits, exponent) - base) as nat,
        ),
{
    let n = digit_count(digits as nat);
    lemma_digit_count_u64(digits);
    let e = (exponent - base) as nat;
    let d = digits as int;
    let a = pow10((20 - n) as nat);
    let b = pow10((n + e) as nat);
    lemma_pow10_adds((20 - n) as nat, (n + e) as nat);
    lemma_pow10_adds(e, 20);
    assert((20 - n) as nat + (n + e) as nat == e + 20);
    assert(a * b == pow10(e) * pow10(20));
    assert(d * pow10(e) * pow10(20) == d * a * b) by (nonlinear_arith)
        requires
            a * b == pow10(e) * pow10(20),
    ;
    assert((magnitude(digits, exponent) - base) as nat == n + e);
}

/// Among positive numbers, the one of smaller magnitude is the smaller, and of two
/// of one magnitude the one with the smaller aligned digits.
proof fn lemma_positive_order(da: u64, ea: i32, db: u64, eb: i32, base: int)
    requires
        da != 0,
        db != 0,
        base <= ea,
        base <= eb,
    ensures
        ({
            let va = da * pow10((ea - base) as nat);
            let vb = db * pow10((eb - base) as nat);
            &&& magnitude(da, ea) < magnitude(db, eb) ==> va < vb
            &&& magnitude(da, ea) == magnitude(db, eb) ==> (va < vb <==> aligned(da) < aligned(db))
            &&& magnitude(da, ea) == magnitude(db, eb) ==> (va == vb <==> aligned(da) == aligned(db))
        }),
{
    let va = da * pow10((ea - base) as nat);
    let vb = db * pow10((eb - base) as nat);
    let ka = (magnitude(da, ea) - base) as nat;
    let kb = (magnitude(db, eb) - base) as nat;
    lemma_digit_count_u64(da);
    lemma_digit_count_u64(db);
    lemma_scaled_by_aligned(da, ea, base);
    lemma_scaled_by_aligned(db, eb, base);
    lemma_aligned_bounds(da);
    lemma_aligned_bounds(db);
    let t = pow10(20) as int;
    let h = pow10(19) as int;
    let pa = pow10(ka) as int;
    let pb = pow10(kb) as int;
    let aa = aligned(da);
    let ab = aligned(db);
    lemma_pow10_positive(20);
    lemma_pow10_positive(ka);
    lemma_pow10_positive(kb);
    assert(t == 10 * h);
    assert(va * t == aa * pa);
    assert(vb * t == ab * pb);
    if magnitude(da, ea) < magnitude(db, eb) {
        lemma_pow10_increases(ka + 1, kb);
        assert(pow10(ka + 1) == 10 * pa);
        assert(va < vb) by (nonlinear_arith)
            requires
                va * t == aa * pa,
                vb * t == ab * pb,
                t == 10 * h,
                h <= aa < t,
                h <= ab < t,
                10 * pa <= pb,
                pa > 0,
                t > 0,
        ;
    } else if magnitude(da, ea) == magnitude(db, eb) {
        assert(pa == pb);
        assert((va < vb <==> aa < ab) && (va == vb <==> aa == ab)) by (nonlinear_arith)
            requires
                va * t == aa * pa,
                vb * t == ab * pa,
                pa > 0,
                t > 0,
        ;
    }
}

/// A power of ten above the zeroth is a multiple of ten.
proof fn lemma_pow10_multiple(k: nat)
    requires
        k >= 1,
    ensures
        pow10(k) % 10 == 0,
{
    assert(pow10(k) == 10 * pow10((k - 1) as nat));
}

/// Two numbers without trailing zeros whose aligned digits are the same have the
/// same digits.
proof fn lemma_aligned_normalised(da: u64, db: u64)
    requires
        da != 0,
        db != 0,
        da % 10 != 0,
        db % 10 != 0,
        aligned(da) == aligned(db),
    ensures
        da == db,
{
    let na = digit_count(da as nat);
    let nb = digit_count(db as nat);
    lemma_digit_count_u64(da);
    lemma_digit_count_u64(db);
    if na < nb {
        lemma_shorter_has_zero(da, db);
    } else if nb < na {
        lemma_shorter_has_zero(db, da);
    } else {
        let p = pow10((20 - na) as nat);
        lemma_pow10_positive((20 - na) as nat);
        assert(da * p == db * p ==> da == db) by (nonlinear_arith)
            requires
                p > 0,
        ;
    }
}

/// If a number with fewer digits has the same aligned digits as another, the
/// other ends in a zero.
proof fn lemma_shorter_has_zero(short: u64, long: u64)
    requires
        digit_count(short as nat) < digit_count(long as nat),
        aligned(short) == aligned(long),
    ensures
        long % 10 == 0,
{
    let ns = digit_count(short as nat);
    let nl = digit_count(long as nat);
    lemma_digit_count_u64(short);
    lemma_digit_count_u64(long);
    let k = (nl - ns) as nat;
    let p = pow10((20 - nl) as nat);
    let q = pow10(k);
    lemma_pow10_positive((20 - nl) as nat);
    lemma_pow10_adds(k, (20 - nl) as nat);
    assert(k + (20 - nl) as nat == (20 - ns) as nat);
    assert(pow10((20 - ns) as nat) == q * p);
    let s = short as int;
    let l = long as int;
    assert(s * (q * p) == l * p);
    assert(l == s * q) by (nonlinear_arith)
        requires
            s * (q * p) == l * p,
            p > 0,
    ;
    lemma_pow10_multiple(k);
    let r = pow10((k - 1) as nat);
    assert(q == 10 * r);
    assert(l == 10 * (s * r)) by (nonlinear_arith)
        requires
            l == s * q,
            q == 10 * r,
    ;
}

/// The order of finite floats is numeric: two normalised floats compare as the
/// numbers `digits * 10^exponent` that they stand for, negated where negative, here
/// counted in units of any power of ten that divides both.
pub proof fn law_float_order_is_numeric(a: FloatValue, b: FloatValue, base: int)
    requires
        a.normalised(),
        b.normalised(),
        a matches FloatValue::Finite { exponent, .. } && base <= exponent,
        b matches FloatValue::Finite { exponent, .. } && base <= exponent,
    ensures
        float_relation(a, b) == int_relation(scaled(a, base), scaled(b, base)),
{
    match (a, b) {
        (
            FloatValue::Finite { negative: na, digits: da, exponent: ea },
            FloatValue::Finite { negative: nb, digits: db, exponent: eb },
        ) => {
            let pa = pow10((ea - base) as nat);
            let pb = pow10((eb - base) as nat);
            lemma_pow10_positive((ea - base) as nat);
            lemma_pow10_positive((eb - base) as nat);
            let va = da * pa;
            let vb = db * pb;
            assert(da != 0 ==> va > 0) by (nonlinear_arith)
                requires
                    va == da * pa,
                    pa > 0,
                    da >= 0,
            ;
            assert(db != 0 ==> vb > 0) by (nonlinear_arith)
                requires
                    vb == db * pb,
                    pb > 0,
                    db >= 0,
            ;
            assert(da == 0 ==> va == 0);
            assert(db == 0 ==> vb == 0);
            if da != 0 && db != 0 && na == nb {
                lemma_positive_order(da, ea, db, eb, base);
                lemma_positive_order(db, eb, da, ea, base);
                if magnitude(da, ea) == magnitude(db, eb) && aligned(da) == aligned(db) {
                    lemma_aligned_normalised(da, db);
                }
            }
        },
        _ => {},
    }
}

} // verus!
