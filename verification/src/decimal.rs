//! Decimal digits of natural numbers.

use vstd::prelude::*;

verus! {

/// Ten to the power `e`.
pub open spec fn pow10(e: nat) -> nat
    decreases e,
{
    if e == 0 {
        1
    } else {
        10 * pow10((e - 1) as nat)
    }
}

/// The number of decimal digits of `n`; zero has one digit.
pub open spec fn digit_count(n: nat) -> nat
    decreases n,
{
    if n < 10 {
        1
    } else {
        1 + digit_count(n / 10)
    }
}

/// The decimal digits of `n` as ASCII, most significant first, without leading zeros.
pub open spec fn decimal(n: nat) -> Seq<u8>
    decreases n,
{
    if n < 10 {
        seq![(48 + n) as u8]
    } else {
        decimal(n / 10).push((48 + n % 10) as u8)
    }
}

pub proof fn lemma_pow10_positive(e: nat)
    ensures
        pow10(e) > 0,
    decreases e,
{
    if e > 0 {
        lemma_pow10_positive((e - 1) as nat);
    }
}

pub proof fn lemma_pow10_increases(a: nat, b: nat)
    requires
        a <= b,
    ensures
        pow10(a) <= pow10(b),
    decreases b,
{
    if a < b {
        lemma_pow10_increases(a, (b - 1) as nat);
    }
}

/// A number lies between the powers of ten that its digit count names.
pub proof fn lemma_digit_count_bounds(n: nat)
    ensures
        n < pow10(digit_count(n)),
        n > 0 ==> pow10((digit_count(n) - 1) as nat) <= n,
    decreases n,
{
    if n >= 10 {
        lemma_digit_count_bounds(n / 10);
    } else {
        reveal_with_fuel(pow10, 2);
    }
}

/// A number below `10^k` has at most `k` digits.
pub proof fn lemma_digit_count_le(n: nat, k: nat)
    requires
        k >= 1,
        n < pow10(k),
    ensures
        digit_count(n) <= k,
    decreases n,
{
    if n >= 10 {
        if k == 1 {
            reveal_with_fuel(pow10, 2);
        } else {
            lemma_digit_count_le(n / 10, (k - 1) as nat);
        }
    }
}

/// A number of 64 bits has at most twenty digits.
pub proof fn lemma_digit_count_u64(n: u64)
    ensures
        1 <= digit_count(n as nat) <= 20,
{
    reveal_with_fuel(pow10, 21);
    assert(pow10(20) == 100_000_000_000_000_000_000nat);
    lemma_digit_count_le(n as nat, 20);
}

/// `decimal(n)` has `digit_count(n)` digits.
pub proof fn lemma_decimal_len(n: nat)
    ensures
        decimal(n).len() == digit_count(n),
    decreases n,
{
    if n >= 10 {
        lemma_decimal_len(n / 10);
    }
}

/// A decimal digit in ASCII.
pub open spec fn is_digit(b: u8) -> bool {
    48 <= b <= 57
}

/// `decimal(n)` holds digits only, ends with the last digit of `n` and, unless `n`
/// is zero, does not start with a zero.
pub proof fn lemma_decimal_digits(n: nat)
    ensures
        decimal(n).len() >= 1,
        forall|i: int| 0 <= i < decimal(n).len() ==> is_digit(#[trigger] decimal(n)[i]),
        decimal(n).last() == (48 + n % 10) as u8,
        n > 0 ==> decimal(n)[0] != 48,
    decreases n,
{
    if n >= 10 {
        lemma_decimal_digits(n / 10);
    }
}

/// Two numbers with the same decimal digits are equal.
pub proof fn lemma_decimal_injective(a: nat, b: nat)
    requires
        decimal(a) == decimal(b),
    ensures
        a == b,
    decreases a,
{
    lemma_decimal_len(a);
    lemma_decimal_len(b);
    if a >= 10 {
        assert(digit_count(a / 10) >= 1);
        assert(b >= 10);
        let da = decimal(a / 10);
        let db = decimal(b / 10);
        assert(da =~= decimal(a).drop_last());
        assert(db =~= decimal(b).drop_last());
        assert(decimal(a).last() == (48 + a % 10) as u8);
        assert(decimal(b).last() == (48 + b % 10) as u8);
        lemma_decimal_injective(a / 10, b / 10);
    } else {
        assert(b >= 10 ==> digit_count(b / 10) >= 1);
        assert(b < 10);
        assert(decimal(a)[0] == (48 + a) as u8);
        assert(decimal(b)[0] == (48 + b) as u8);
    }
}

/// Counts the decimal digits of `n`.
pub fn count_digits(n: u64) -> (c: u32)
    ensures
        c == digit_count(n as nat),
        1 <= c <= 20,
{
    let mut rest: u64 = n;
    let mut c: u32 = 1;
    proof {
        lemma_digit_count_u64(n);
    }
    while rest >= 10
        invariant
            digit_count(n as nat) == (c - 1) + digit_count(rest as nat),
            1 <= c <= 20,
            digit_count(n as nat) <= 20,
        decreases rest,
    {
        rest = rest / 10;
        c = c + 1;
    }
    c
}

/// Computes `10^e` for `e` up to 20.
pub(crate) fn power_of_ten(e: u32) -> (p: u128)
    requires
        e <= 20,
    ensures
        p == pow10(e as nat),
        p <= 100_000_000_000_000_000_000,
{
    let mut p: u128 = 1;
    let mut i: u32 = 0;
    proof {
        reveal_with_fuel(pow10, 21);
        assert(pow10(20) == 100_000_000_000_000_000_000nat);
    }
    while i < e
        invariant
            i <= e <= 20,
            p == pow10(i as nat),
            pow10(20) == 100_000_000_000_000_000_000nat,
        decreases e - i,
    {
        proof {
            lemma_pow10_increases((i + 1) as nat, 20);
        }
        p = p * 10;
        i = i + 1;
    }
    proof {
        lemma_pow10_increases(e as nat, 20);
    }
    p
}

/// Appends the decimal digits of `n` to `out`.
pub fn push_decimal(out: &mut Vec<u8>, n: u64)
    ensures
        final(out)@ == old(out)@ + decimal(n as nat),
    decreases n,
{
    if n >= 10 {
        push_decimal(out, n / 10);
    }
    out.push(48 + (n % 10) as u8);
}

} // verus!
