//! Channel levels, 0 to 255, from decimal fractions.
//!
//! A level is computed in single precision: the decimal number is rounded to
//! the nearest single, the product with the scale is rounded again, and the
//! level is the integer nearest to the product.

use vstd::prelude::*;
use vstd::arithmetic::div_mod::{lemma_fundamental_div_mod, lemma_fundamental_div_mod_converse};
use vstd::arithmetic::power2::{
    lemma2_to64, lemma2_to64_rest, lemma_pow2_adds, lemma_pow2_pos, lemma_pow2_strictly_increases,
    lemma_pow2_unfold, pow2,
};
use crate::decimal::{
    are_digits, decimal_number, digits_value, lemma_digits_bound, lemma_digits_concat,
    lemma_digits_zero, lemma_nearest_scale, lemma_pow10_33, lemma_pow10_adds,
    lemma_pow10_monotonic, lemma_pow10_pos, nearest_decimal, parse_decimal, pow10, stands_for,
    Decimal, EXPONENT_FAR,
};
use crate::single::{
    lemma_half_even_sticky, lemma_nearest_at_most, lemma_nearest_bounds, lemma_nearest_scaled,
    lemma_nearest_zero, nearest_integer, nearest_single, round_quotient,
    scaled_quotients_are_nearest, single_product, units_of_bits, Single,
};

verus! {

// ---------------------------------------------------------------------------
// Model
// ---------------------------------------------------------------------------

/// The level of a decimal number on a scale from 0 to `limit`, where one counts
/// for `num / den` levels. Negative numbers have no level, unless they are so
/// small that they round to zero.
pub open spec fn level_of(number: Decimal, limit: nat, num: nat, den: nat) -> Option<u8> {
    let units = nearest_decimal(number.significand, number.exponent);
    if units <= limit * pow2(149) && (number.negative ==> units == 0) {
        Some(nearest_integer(single_product(units, num, den)) as u8)
    } else {
        None
    }
}

/// The level of a percentage: `s * 2.55`.
pub open spec fn percent_level(s: Seq<char>) -> Option<u8> {
    match decimal_number(s) {
        Some(number) => level_of(number, 100, nearest_single(255, 100), pow2(149)),
        None => None,
    }
}

/// The level of a fraction of one: `s * 255`.
pub open spec fn fraction_level(s: Seq<char>) -> Option<u8> {
    match decimal_number(s) {
        Some(number) => level_of(number, 1, 255, 1),
        None => None,
    }
}

// ---------------------------------------------------------------------------
// Decimal numbers in units of 10^-33
// ---------------------------------------------------------------------------

/// 5^33. One unit of 10^-33 is 2^-33 / 5^33.
const FIVE_33: u128 = 116_415_321_826_934_814_453_125;

/// 128 * 10^33.
const TOO_LARGE: u128 = 128_000_000_000_000_000_000_000_000_000_000_000;

/// A decimal number is `unit_num / unit_den` units of 10^-33.
spec fn unit_num(significand: nat, exponent: int) -> nat {
    if exponent < -33 {
        significand
    } else {
        significand * pow10((exponent + 33) as nat)
    }
}

spec fn unit_den(exponent: int) -> nat {
    if exponent < -33 {
        pow10((-exponent - 33) as nat)
    } else {
        1
    }
}

proof fn lemma_units(significand: nat, exponent: int)
    ensures
        unit_den(exponent) > 0,
        nearest_decimal(significand, exponent) == nearest_single(
            unit_num(significand, exponent),
            unit_den(exponent) * pow10(33),
        ),
{
    lemma_pow10_pos(33);
    if exponent < -33 {
        lemma_pow10_pos((-exponent - 33) as nat);
        lemma_pow10_adds((-exponent - 33) as nat, 33);
    } else if exponent < 0 {
        let a = pow10((exponent + 33) as nat);
        lemma_pow10_pos((exponent + 33) as nat);
        lemma_pow10_pos((-exponent) as nat);
        lemma_pow10_adds((exponent + 33) as nat, (-exponent) as nat);
        lemma_nearest_scale(significand, pow10((-exponent) as nat), a);
        assert(significand * a == a * significand) by (nonlinear_arith);
    } else {
        let a = pow10(33);
        let v = significand * pow10(exponent as nat);
        lemma_pow10_adds(exponent as nat, 33);
        lemma_nearest_scale(v, 1, a);
        assert(a * v == significand * pow10((exponent + 33) as nat)) by (nonlinear_arith)
            requires
                v == significand * pow10(exponent as nat),
                pow10((exponent + 33) as nat) == pow10(exponent as nat) * a,
        ;
    }
}

/// The whole units of a decimal number and whether a fraction of a unit is
/// left over, or nothing when the number is too large for any scale.
fn whole_units(digits: &Vec<u8>, exponent: i128, Ghost(e): Ghost<int>) -> (r: Option<(u128, bool)>)
    requires
        are_digits(digits@),
        digits_value(digits@) > 0,
        stands_for(exponent as int, e),
        -200 * EXPONENT_FAR <= exponent <= 200 * EXPONENT_FAR,
    ensures
        r is None ==> unit_num(digits_value(digits@), e) >= TOO_LARGE * unit_den(e),
        r matches Some((n, sticky)) ==> {
            &&& n < TOO_LARGE
            &&& n == unit_num(digits_value(digits@), e) / unit_den(e)
            &&& sticky == (unit_num(digits_value(digits@), e) % unit_den(e) != 0)
        },
{
    let len = digits.len();
    let taken: i128 = len as i128 + 33 + exponent;
    let ghost value = digits_value(digits@);
    proof {
        lemma_digits_bound(digits@);
    }
    if taken <= 0 {
        proof {
            assert(e < -33);
            lemma_pow10_monotonic(len as nat, (-e - 33) as nat);
            lemma_fundamental_div_mod_converse(
                value as int,
                unit_den(e) as int,
                0,
                value as int,
            );
        }
        return Some((0, true));
    }
    let kept: usize = if taken < len as i128 { taken as usize } else { len };
    let ghost rest = digits@.skip(kept as int);
    let mut n: u128 = 0;
    let mut i: usize = 0;
    while i < kept
        invariant
            i <= kept <= len,
            len == digits.len(),
            are_digits(digits@),
            n == digits_value(digits@.take(i as int)),
            n < TOO_LARGE,
            kept < len ==> kept == len + 33 + exponent,
            kept == len ==> 33 + exponent >= 0,
            stands_for(exponent as int, e),
            value == digits_value(digits@),
        decreases kept - i,
    {
        proof {
            assert(digits@.take(i + 1).drop_last() =~= digits@.take(i as int));
        }
        n = n * 10 + digits[i] as u128;
        i = i + 1;
        if n >= TOO_LARGE {
            proof {
                lemma_prefix_large(digits@, i as int, kept as int, exponent as int, e, n as nat);
            }
            return None;
        }
    }
    proof {
        assert(digits@.take(kept as int) + rest =~= digits@);
        lemma_digits_concat(digits@.take(kept as int), rest);
        lemma_digits_bound(rest);
    }
    if kept < len {
        let mut sticky = false;
        let mut j: usize = kept;
        while j < len
            invariant
                kept <= j <= len,
                len == digits.len(),
                rest == digits@.skip(kept as int),
                sticky == exists|k: int| 0 <= k < j - kept && #[trigger] rest[k] != 0,
            decreases len - j,
        {
            if digits[j] != 0 {
                sticky = true;
                assert(rest[j - kept] != 0);
            }
            j = j + 1;
        }
        proof {
            lemma_digits_zero(rest);
            assert(e < -33);
            assert(unit_den(e) == pow10((len - kept) as nat));
            lemma_fundamental_div_mod_converse(
                value as int,
                unit_den(e) as int,
                n as int,
                digits_value(rest) as int,
            );
        }
        return Some((n, sticky));
    }
    proof {
        assert(rest =~= seq![]);
        assert(n == value) by (nonlinear_arith)
            requires
                value == n * pow10(0) + 0,
                pow10(0) == 1,
        ;
        assert(value * pow10(0) == value) by (nonlinear_arith)
            requires
                pow10(0) == 1,
        ;
    }
    let missing: i128 = taken - len as i128;
    let zeros: i128 = if missing < 40 { missing } else { 40 };
    let mut z: i128 = 0;
    while z < zeros
        invariant
            0 <= z <= zeros,
            zeros <= e + 33,
            0 < value,
            value == digits_value(digits@),
            n == value * pow10(z as nat),
            n < TOO_LARGE,
        decreases zeros - z,
    {
        proof {
            assert(10 * (value * pow10(z as nat)) == value * pow10((z + 1) as nat))
                by (nonlinear_arith)
                requires
                    pow10((z + 1) as nat) == 10 * pow10(z as nat),
            ;
        }
        n = n * 10;
        z = z + 1;
        if n >= TOO_LARGE {
            proof {
                lemma_pow10_monotonic(z as nat, (e + 33) as nat);
                assert(value * pow10(z as nat) <= value * pow10((e + 33) as nat))
                    by (nonlinear_arith)
                    requires
                        pow10(z as nat) <= pow10((e + 33) as nat),
                ;
            }
            return None;
        }
    }
    proof {
        if zeros != e + 33 {
            lemma_pow10_adds(33, 7);
            lemma_pow10_33();
            reveal_with_fuel(pow10, 8);
            assert(value * pow10(zeros as nat) >= pow10(zeros as nat)) by (nonlinear_arith)
                requires
                    value >= 1,
            ;
        }
        assert(n == unit_num(value, e));
        assert(n as int / 1 == n && n as int % 1 == 0);
    }
    Some((n, false))
}

/// Leading digits that are too large make the whole number too large.
proof fn lemma_prefix_large(digits: Seq<u8>, i: int, kept: int, exponent: int, e: int, n: nat)
    requires
        0 < i <= kept <= digits.len(),
        are_digits(digits),
        n == digits_value(digits.take(i)),
        n >= TOO_LARGE,
        kept < digits.len() ==> kept == digits.len() + 33 + exponent,
        kept == digits.len() ==> 33 + exponent >= 0,
        stands_for(exponent, e),
        digits.len() <= u64::MAX,
    ensures
        unit_num(digits_value(digits), e) >= TOO_LARGE * unit_den(e),
{
    let value = digits_value(digits);
    let tail = digits.skip(i);
    assert(digits.take(i) + tail =~= digits);
    lemma_digits_concat(digits.take(i), tail);
    if kept < digits.len() {
        let cut = (digits.len() - kept) as nat;
        if e < -33 {
            assert(exponent == e);
            assert(unit_den(e) == pow10(cut));
            lemma_pow10_monotonic(cut, tail.len());
            assert(n * pow10(tail.len()) >= TOO_LARGE * pow10(cut)) by (nonlinear_arith)
                requires
                    n >= TOO_LARGE,
                    pow10(tail.len()) >= pow10(cut),
            ;
        }
    } else {
        lemma_pow10_pos(tail.len());
        lemma_pow10_pos((e + 33) as nat);
        assert(n * pow10(tail.len()) >= n) by (nonlinear_arith)
            requires
                pow10(tail.len()) >= 1,
        ;
        assert(value * pow10((e + 33) as nat) >= value) by (nonlinear_arith)
            requires
                pow10((e + 33) as nat) >= 1,
        ;
    }
}

// ---------------------------------------------------------------------------
// Rounding
// ---------------------------------------------------------------------------

/// The single nearest to a number of units of 10^-33, given the whole units and
/// whether a fraction of a unit is left over.
fn single_from_units(n: u128, sticky: bool, Ghost(num): Ghost<nat>, Ghost(g): Ghost<nat>) -> (r:
    Single)
    requires
        g > 0,
        n == num / g,
        sticky == (num % g != 0),
        FIVE_33 * 0x100_0000 <= n < TOO_LARGE,
    ensures
        r.wf(),
        -32 <= r.exponent <= -17,
        r.units() == nearest_single(num, g * pow10(33)),
{
    let mut d: u128 = FIVE_33 * 2;
    let mut i: i32 = 1;
    proof {
        lemma2_to64();
        lemma_pow10_33();
    }
    while n >= d * 0x100_0000
        invariant
            1 <= i <= 16,
            FIVE_33 * 0x100_0000 <= n < TOO_LARGE,
            d == FIVE_33 * pow2(i as nat),
            d <= FIVE_33 * 0x1_0000,
            d * 0x80_0000 <= n,
        decreases 16 - i,
    {
        proof {
            lemma2_to64();
            lemma_pow2_unfold((i + 1) as nat);
            if i + 1 < 16 {
                lemma_pow2_strictly_increases((i + 1) as nat, 16);
            }
        }
        d = d * 2;
        i = i + 1;
    }
    proof {
        lemma_fundamental_div_mod(num as int, g as int);
        lemma_fundamental_div_mod(n as int, d as int);
        assert(0x80_0000 <= n / d < 0x100_0000) by (nonlinear_arith)
            requires
                n == d * (n / d) + n % d,
                0 <= n % d < d,
                d * 0x80_0000 <= n,
                n < d * 0x100_0000,
        ;
        assert(d % 2 == 0) by {
            lemma_pow2_unfold(i as nat);
        }
    }
    let m = round_quotient(n, sticky, d);
    proof {
        let b = g * d as nat;
        lemma_half_even_sticky(num, g, d as nat);
        assert(b > 0 && b * 0x80_0000 <= num && num < b * 0x100_0000) by (nonlinear_arith)
            requires
                b == g * d,
                g > 0,
                d > 0,
                num == g * n + num % g,
                0 <= num % g < g,
                d * 0x80_0000 <= n,
                n + 1 <= d * 0x100_0000,
        ;
        let k = (i + 116) as nat;
        lemma2_to64_rest();
        lemma_pow2_adds(33, k);
        lemma_pow2_adds(i as nat, 149);
        lemma_pow2_pos(149);
        assert(g * pow10(33) > 0) by (nonlinear_arith)
            requires
                g > 0,
                pow10(33) > 0,
        ;
        assert((g * pow10(33)) * pow2(k) == b * pow2(149)) by (nonlinear_arith)
            requires
                pow10(33) == FIVE_33 * pow2(33),
                pow2(33) * pow2(k) == pow2(i as nat) * pow2(149),
                b == g * (FIVE_33 * pow2(i as nat)),
        ;
        lemma_nearest_scaled(num, g * pow10(33), k, num, b, pow2(149));
    }
    Single { mantissa: m as u64, exponent: i - 33 }
}

/// A number from 128 up is above every limit.
proof fn lemma_large(num: nat, g: nat)
    requires
        g > 0,
        num >= TOO_LARGE * g,
    ensures
        nearest_single(num, g * pow10(33)) > 100 * pow2(149),
{
    lemma_pow10_33();
    lemma_pow2_pos(149);
    let d = g * pow10(33);
    let p = pow2(149);
    let u = nearest_single(num, d);
    lemma_nearest_bounds(num, d);
    if u <= 100 * p {
        let y = d * p;
        assert(y >= d) by (nonlinear_arith)
            requires
                y == d * p,
                p >= 1,
        ;
        assert(u * d <= 100 * y) by (nonlinear_arith)
            requires
                u <= 100 * p,
                y == d * p,
        ;
        assert(num * p >= 128 * y) by (nonlinear_arith)
            requires
                num >= 128 * d,
                y == d * p,
        ;
    }
}

/// A product stays below half a level when the number is below 2^-9.
proof fn lemma_small(num: nat, g: nat, c: nat, den: nat)
    requires
        g > 0,
        num < FIVE_33 * 0x100_0000 * g,
        den > 0,
        c <= 255 * den,
    ensures
        ({
            let u = nearest_single(num, g * pow10(33));
            &&& u <= pow2(149)
            &&& nearest_integer(single_product(u, c, den)) == 0
        }),
{
    lemma_pow10_33();
    lemma_pow2_pos(149);
    lemma_pow2_unfold(149);
    lemma_pow2_strictly_increases(64, 149);
    lemma2_to64();
    let d = g * pow10(33);
    let p = pow2(149);
    let u = nearest_single(num, d);
    lemma_nearest_bounds(num, d);
    assert(num * 512 <= d) by (nonlinear_arith)
        requires
            num < 1_953_125_000_000_000_000_000_000_000_000 * g,
            d == g * 1_000_000_000_000_000_000_000_000_000_000_000,
    ;
    assert(u * 0x2_0000_0000 <= p * 0x100_0001 + 0x1_0000_0000) by {
        let y = d * p;
        assert(num * p * 512 <= y) by (nonlinear_arith)
            requires
                num * 512 <= d,
                y == d * p,
        ;
        assert(u * 0x2_0000_0000 <= p * 0x100_0001 + 0x1_0000_0000) by (nonlinear_arith)
            requires
                d > 0,
                u * d * 0x100_0000 <= (num * p) * 0x100_0001 + d * 0x80_0000,
                num * p * 512 <= d * p,
        ;
    }
    lemma_product_upper(u, c, den);
    let w = single_product(u, c, den);
    assert(w < pow2(148));
    lemma_fundamental_div_mod_converse((w + pow2(148)) as int, p as int, 0, (w + pow2(148)) as int);
}

/// A product is at most 255 times the number, and one part in 2^24 more.
proof fn lemma_product_upper(u: nat, c: nat, den: nat)
    requires
        den > 0,
        c <= 255 * den,
    ensures
        single_product(u, c, den) * 0x100_0000 <= 255 * u * 0x100_0001 + 0x80_0000,
{
    let p = pow2(149);
    lemma_pow2_pos(149);
    let d = p * den;
    assert(d > 0) by (nonlinear_arith)
        requires
            d == p * den,
            p > 0,
            den > 0,
    ;
    let w = single_product(u, c, den);
    lemma_nearest_bounds(u * c, d);
    assert((u * c) * p <= 255 * u * d) by (nonlinear_arith)
        requires
            c <= 255 * den,
            d == p * den,
    ;
    assert(w * 0x100_0000 <= 255 * u * 0x100_0001 + 0x80_0000) by (nonlinear_arith)
        requires
            d > 0,
            w * d * 0x100_0000 <= ((u * c) * p) * 0x100_0001 + d * 0x80_0000,
            (u * c) * p <= 255 * u * d,
    ;
}

/// A number within the limit has a level of at most 255.
proof fn lemma_level_range(u: nat, limit: nat, c: nat, den: nat)
    requires
        den > 0,
        u <= limit * pow2(149),
        limit * c <= 255 * den,
        limit > 0,
    ensures
        nearest_integer(single_product(u, c, den)) <= 255,
{
    let p = pow2(149);
    lemma_pow2_pos(149);
    lemma_pow2_unfold(149);
    lemma_pow2_strictly_increases(64, 149);
    lemma2_to64();
    let d = p * den;
    assert(d > 0) by (nonlinear_arith)
        requires
            d == p * den,
            p > 0,
            den > 0,
    ;
    let w = single_product(u, c, den);
    lemma_nearest_bounds(u * c, d);
    assert(u * c <= 255 * d) by (nonlinear_arith)
        requires
            u <= limit * p,
            limit * c <= 255 * den,
            d == p * den,
    ;
    assert((u * c) * p <= 255 * (d * p)) by (nonlinear_arith)
        requires
            u * c <= 255 * d,
    ;
    assert(w * 0x100_0000 <= 255 * p * 0x100_0001 + 0x80_0000) by (nonlinear_arith)
        requires
            d > 0,
            w * d * 0x100_0000 <= ((u * c) * p) * 0x100_0001 + d * 0x80_0000,
            (u * c) * p <= 255 * (d * p),
    ;
    let t = w + pow2(148);
    lemma_fundamental_div_mod(t as int, p as int);
    assert(t < 256 * p);
    assert(t / p <= 255) by (nonlinear_arith)
        requires
            t == p * (t / p) + t % p,
            0 <= t % p,
            t < 256 * p,
            p > 0,
    ;
}

// ---------------------------------------------------------------------------
// Numbers that round to zero
// ---------------------------------------------------------------------------

/// Twice a number, digit by digit.
fn double(digits: &Vec<u8>) -> (r: Vec<u8>)
    requires
        are_digits(digits@),
        digits.len() < usize::MAX,
    ensures
        r.len() == digits.len() + 1,
        are_digits(r@),
        digits_value(r@) == 2 * digits_value(digits@),
{
    let len = digits.len();
    let mut out: Vec<u8> = Vec::new();
    let mut fill: usize = 0;
    while fill < len + 1
        invariant
            fill <= len + 1,
            len < usize::MAX,
            out.len() == fill,
            are_digits(out@),
        decreases len + 1 - fill,
    {
        out.push(0);
        fill = fill + 1;
    }
    let mut carry: u8 = 0;
    let mut i: usize = len;
    proof {
        assert(out@.skip(len + 1) =~= seq![]);
        assert(digits@.skip(len as int) =~= seq![]);
    }
    while i > 0
        invariant
            i <= len,
            len == digits.len(),
            len < usize::MAX,
            out.len() == len + 1,
            are_digits(digits@),
            are_digits(out@),
            carry <= 1,
            digits_value(out@.skip(i + 1)) + carry * pow10((len - i) as nat) == 2 * digits_value(
                digits@.skip(i as int),
            ),
        decreases i,
    {
        let ghost before = out@;
        let ghost high = carry;
        let d = digits[i - 1];
        assert(d < 10);
        let sum: u8 = 2 * d + carry;
        out.set(i, sum % 10);
        carry = sum / 10;
        proof {
            let p = pow10((len - i) as nat);
            let a = digits@.skip(i - 1);
            assert(a =~= seq![d] + digits@.skip(i as int));
            lemma_digits_concat(seq![d], digits@.skip(i as int));
            reveal_with_fuel(digits_value, 2);
            assert(seq![d].drop_last() =~= seq![]);
            let b = out@.skip(i as int);
            let low = (sum % 10) as u8;
            assert(b =~= seq![low] + before.skip(i + 1));
            lemma_digits_concat(seq![low], before.skip(i + 1));
            assert(seq![low].drop_last() =~= seq![]);
            assert(pow10((len - i + 1) as nat) == 10 * p);
            assert(low * p + carry * (10 * p) == (2 * d + high) * p) by (nonlinear_arith)
                requires
                    low + 10 * carry == 2 * d + high,
            ;
            assert((2 * d + high) * p == 2 * (d * p) + high * p) by (nonlinear_arith);
        }
        i = i - 1;
    }
    let ghost before = out@;
    out.set(0, carry);
    proof {
        assert(digits@.skip(0) =~= digits@);
        assert(out@ =~= seq![carry] + before.skip(1));
        lemma_digits_concat(seq![carry], before.skip(1));
        reveal_with_fuel(digits_value, 2);
        assert(seq![carry].drop_last() =~= seq![]);
    }
    out
}

/// 0, 1 or 2, as the digits from `from` up to `to` denote zero, one or more.
fn small_value(digits: &Vec<u8>, from: usize, to: usize) -> (r: u8)
    requires
        from <= to <= digits.len(),
    ensures
        r == 0 <==> digits_value(digits@.subrange(from as int, to as int)) == 0,
        r == 1 <==> digits_value(digits@.subrange(from as int, to as int)) == 1,
{
    let mut r: u8 = 0;
    let mut i: usize = from;
    while i < to
        invariant
            from <= i <= to <= digits.len(),
            r == 0 <==> digits_value(digits@.subrange(from as int, i as int)) == 0,
            r == 1 <==> digits_value(digits@.subrange(from as int, i as int)) == 1,
        decreases to - i,
    {
        proof {
            assert(digits@.subrange(from as int, i + 1).drop_last() =~= digits@.subrange(
                from as int,
                i as int,
            ));
        }
        if r > 0 || digits[i] > 1 {
            r = 2;
        } else {
            r = digits[i];
        }
        i = i + 1;
    }
    r
}

/// Whether a number lies below a power of ten, and whether it is that power.
fn against_power(digits: &Vec<u8>, n: usize) -> (r: (bool, bool))
    requires
        are_digits(digits@),
    ensures
        r.0 == (digits_value(digits@) < pow10(n as nat)),
        r.1 == (digits_value(digits@) == pow10(n as nat)),
{
    let len = digits.len();
    if n >= len {
        proof {
            lemma_digits_bound(digits@);
            lemma_pow10_monotonic(len as nat, n as nat);
        }
        return (true, false);
    }
    let split = len - n;
    let high = small_value(digits, 0, split);
    let low = small_value(digits, split, len);
    proof {
        let a = digits@.subrange(0, split as int);
        let b = digits@.subrange(split as int, len as int);
        assert(a + b =~= digits@);
        lemma_digits_concat(a, b);
        lemma_digits_bound(b);
        lemma_pow10_pos(n as nat);
        let p = pow10(n as nat);
        let x = digits_value(a);
        if x == 0 {
            assert(x * p == 0) by (nonlinear_arith)
                requires
                    x == 0,
            ;
        } else if x == 1 {
            assert(x * p == p) by (nonlinear_arith)
                requires
                    x == 1,
            ;
        } else {
            assert(x * p >= 2 * p) by (nonlinear_arith)
                requires
                    x >= 2,
            ;
        }
    }
    (high == 0, high == 1 && low == 0)
}

spec fn pow5(n: nat) -> nat
    decreases n,
{
    if n == 0 {
        1
    } else {
        5 * pow5((n - 1) as nat)
    }
}

proof fn lemma_pow10_factors(n: nat)
    ensures
        pow10(n) == pow2(n) * pow5(n),
    decreases n,
{
    lemma2_to64();
    if n > 0 {
        lemma_pow10_factors((n - 1) as nat);
        lemma_pow2_unfold(n);
        let a = pow2((n - 1) as nat);
        let b = pow5((n - 1) as nat);
        assert(pow2(n) * pow5(n) == 10 * (a * b)) by (nonlinear_arith)
            requires
                pow2(n) == 2 * a,
                pow5(n) == 5 * b,
        ;
    } else {
        assert(1nat * 1nat == 1nat);
    }
}

/// 2^10 is more than 10^3.
proof fn lemma_pow2_over_pow10(k: nat)
    ensures
        pow2(10 * k) >= pow10(3 * k),
        k > 0 ==> pow2(10 * k) > pow10(3 * k),
    decreases k,
{
    lemma2_to64();
    if k > 0 {
        let j = (k - 1) as nat;
        lemma_pow2_over_pow10(j);
        lemma_pow2_adds(10 * j, 10);
        lemma_pow10_adds(3 * j, 3);
        lemma_pow10_pos(3 * j);
        reveal_with_fuel(pow10, 4);
        assert(pow2(10 * j) * 1024 > pow10(3 * j) * 1000) by (nonlinear_arith)
            requires
                pow2(10 * j) >= pow10(3 * j),
                pow10(3 * j) > 0,
        ;
    }
}

/// What decides whether `value * 10^-places` rounds to zero: the digits before
/// the 46th decimal place, those up to the 150th, and those after it.
proof fn lemma_zero_parts(digits: Seq<u8>, places: int, c1: int, c2: int)
    requires
        are_digits(digits),
        digits_value(digits) > 0,
        places > 0,
        0 <= c1 <= c2 <= digits.len(),
        c1 == (if places <= 45 {
            digits.len() as int
        } else if digits.len() - places + 45 < 0 {
            0
        } else {
            digits.len() - places + 45
        }),
        c2 == (if places <= 150 {
            digits.len() as int
        } else if digits.len() - places + 150 < 0 {
            0
        } else {
            digits.len() - places + 150
        }),
    ensures
        ({
            let head = digits_value(digits.take(c1));
            let middle = digits_value(digits.subrange(c1, c2));
            let tail = digits_value(digits.skip(c2));
            let limit = pow10((if places < 150 {
                places
            } else {
                150
            }) as nat);
            digits_value(digits) * pow2(150) <= pow10(places as nat) <==> head == 0 && (if tail
                == 0 {
                middle * pow2(150) <= limit
            } else {
                middle * pow2(150) < limit
            })
        }),
{
    let value = digits_value(digits);
    let head = digits_value(digits.take(c1));
    let middle = digits_value(digits.subrange(c1, c2));
    let tail = digits_value(digits.skip(c2));
    let p = pow2(150);
    lemma_pow2_pos(150);
    lemma_pow2_over_pow10(15);
    assert(digits.take(c1) + digits.skip(c1) =~= digits);
    lemma_digits_concat(digits.take(c1), digits.skip(c1));
    assert(digits.subrange(c1, c2) + digits.skip(c2) =~= digits.skip(c1));
    lemma_digits_concat(digits.subrange(c1, c2), digits.skip(c2));
    lemma_digits_bound(digits.skip(c2));
    let after = digits.skip(c1).len();
    lemma_pow10_pos(after);
    if head > 0 {
        // The number is at least 10^-45.
        assert(head * pow10(after) >= pow10(after)) by (nonlinear_arith)
            requires
                head >= 1,
        ;
        assert(value >= pow10(after));
        if places <= 45 {
            lemma_pow10_monotonic(places as nat, 45);
            assert(value * p > pow10(45)) by (nonlinear_arith)
                requires
                    value >= 1,
                    p > pow10(45),
            ;
        } else {
            assert(after >= places - 45);
            lemma_pow10_monotonic((places - 45) as nat, after);
            lemma_pow10_adds((places - 45) as nat, 45);
            let y = pow10((places - 45) as nat);
            lemma_pow10_pos((places - 45) as nat);
            assert(value * p > y * pow10(45)) by (nonlinear_arith)
                requires
                    value >= y,
                    y > 0,
                    p > pow10(45),
            ;
        }
    } else {
        assert(head * pow10(after) == 0) by (nonlinear_arith)
            requires
                head == 0,
        ;
        let rest = digits.skip(c2).len();
        assert(value == middle * pow10(rest) + tail);
        if places <= 150 {
            assert(rest == 0);
            assert(digits.skip(c2) =~= seq![]);
            assert(middle * pow10(0) == middle) by (nonlinear_arith)
                requires
                    pow10(0) == 1,
            ;
        } else {
            lemma_zero_far(digits, places, c2, value, middle, tail);
        }
    }
}

proof fn lemma_zero_far(
    digits: Seq<u8>,
    places: int,
    c2: int,
    value: nat,
    middle: nat,
    tail: nat,
)
    requires
        places > 150,
        value > 0,
        0 <= c2 <= digits.len(),
        c2 == (if digits.len() - places + 150 < 0 {
            0
        } else {
            digits.len() - places + 150
        }),
        value == middle * pow10((digits.len() - c2) as nat) + tail,
        tail < pow10((digits.len() - c2) as nat),
        c2 == 0 ==> middle == 0,
    ensures
        value * pow2(150) <= pow10(places as nat) <==> (if tail == 0 {
            middle * pow2(150) <= pow10(150)
        } else {
            middle * pow2(150) < pow10(150)
        }),
{
    let p = pow2(150);
    let x = (places - 150) as nat;
    let r = pow10(x);
    let rest = pow10((digits.len() - c2) as nat);
    lemma_pow10_pos(x);
    lemma_pow10_pos(150);
    lemma_pow10_adds(150, x);
    lemma_pow10_factors(150);
    lemma_pow2_pos(150);
    if c2 == 0 && digits.len() - places + 150 < 0 {
        assert(middle * rest == 0) by (nonlinear_arith)
            requires
                middle == 0,
        ;
        lemma_pow10_monotonic(digits.len(), x);
        assert(p <= pow10(150)) by (nonlinear_arith)
            requires
                pow10(150) == p * pow5(150),
                pow10(150) > 0,
        ;
        assert(value * p <= pow10(150) * r) by (nonlinear_arith)
            requires
                value <= r,
                p <= pow10(150),
        ;
        assert(middle * p == 0) by (nonlinear_arith)
            requires
                middle == 0,
        ;
    } else {
        assert(rest == r);
        let q = pow5(150);
        // value * p <= p * q * r, that is value <= q * r
        assert(value * p <= (p * q) * r <==> value <= q * r) by (nonlinear_arith)
            requires
                p > 0,
        ;
        assert(middle * p <= p * q <==> middle <= q) by (nonlinear_arith)
            requires
                p > 0,
        ;
        assert(middle * p < p * q <==> middle < q) by (nonlinear_arith)
            requires
                p > 0,
        ;
        if middle < q {
            assert(middle * r + r <= q * r) by (nonlinear_arith)
                requires
                    middle + 1 <= q,
            ;
        } else if middle > q {
            assert(middle * r >= q * r + r) by (nonlinear_arith)
                requires
                    middle >= q + 1,
            ;
        }
    }
}

fn all_zero(digits: &Vec<u8>, from: usize, to: usize) -> (r: bool)
    requires
        from <= to <= digits.len(),
    ensures
        r == (digits_value(digits@.subrange(from as int, to as int)) == 0),
{
    small_value(digits, from, to) == 0
}

/// Whether a positive number rounds to zero.
fn rounds_to_zero(digits: &Vec<u8>, exponent: i128, Ghost(e): Ghost<int>) -> (r: bool)
    requires
        are_digits(digits@),
        digits_value(digits@) > 0,
        stands_for(exponent as int, e),
        -200 * EXPONENT_FAR <= exponent <= 200 * EXPONENT_FAR,
    ensures
        r == (nearest_decimal(digits_value(digits@), e) == 0),
{
    let ghost value = digits_value(digits@);
    if exponent >= 0 {
        proof {
            lemma_pow10_pos(e as nat);
            lemma_pow2_unfold(150);
            lemma_pow2_pos(149);
            let v = value * pow10(e as nat);
            assert(v >= 1 && v * pow2(150) > 1) by (nonlinear_arith)
                requires
                    v == value * pow10(e as nat),
                    value >= 1,
                    pow10(e as nat) >= 1,
                    pow2(150) >= 2,
            ;
            lemma_nearest_zero(v, 1);
        }
        return false;
    }
    let len = digits.len();
    let places: i128 = 0 - exponent;
    let c1: usize = if places <= 45 {
        len
    } else if len as i128 - places + 45 < 0 {
        0
    } else {
        (len as i128 - places + 45) as usize
    };
    let c2: usize = if places <= 150 {
        len
    } else if len as i128 - places + 150 < 0 {
        0
    } else {
        (len as i128 - places + 150) as usize
    };
    proof {
        lemma_pow10_pos((-e) as nat);
        lemma_nearest_zero(value, pow10((-e) as nat));
        lemma_zero_parts(digits@, -e, c1 as int, c2 as int);
        assert(digits@.subrange(0, c1 as int) =~= digits@.take(c1 as int));
        assert(digits@.subrange(c2 as int, len as int) =~= digits@.skip(c2 as int));
    }
    if !all_zero(digits, 0, c1) {
        return false;
    }
    let exact = all_zero(digits, c2, len);
    let mut middle: Vec<u8> = Vec::new();
    let mut k: usize = c1;
    while k < c2
        invariant
            c1 <= k <= c2 <= digits.len(),
            are_digits(digits@),
            are_digits(middle@),
            middle@ == digits@.subrange(c1 as int, k as int),
        decreases c2 - k,
    {
        middle.push(digits[k]);
        k = k + 1;
        assert(digits@.subrange(c1 as int, k as int) =~= digits@.subrange(c1 as int, k - 1).push(
            digits@[k - 1],
        ));
    }
    let ghost start = digits_value(middle@);
    let ghost size = middle.len();
    let mut i: usize = 0;
    proof {
        lemma2_to64();
        assert(start * pow2(0) == start) by (nonlinear_arith)
            requires
                pow2(0) == 1,
        ;
    }
    while i < 150
        invariant
            i <= 150,
            size <= 150,
            middle.len() == size + i,
            are_digits(middle@),
            digits_value(middle@) == start * pow2(i as nat),
        decreases 150 - i,
    {
        proof {
            lemma_pow2_unfold((i + 1) as nat);
            assert(2 * (start * pow2(i as nat)) == start * pow2((i + 1) as nat)) by (nonlinear_arith)
                requires
                    pow2((i + 1) as nat) == 2 * pow2(i as nat),
            ;
        }
        middle = double(&middle);
        i = i + 1;
    }
    let limit: usize = if places < 150 { places as usize } else { 150 };
    let (below, equal) = against_power(&middle, limit);
    below || (exact && equal)
}

// ---------------------------------------------------------------------------
// Levels
// ---------------------------------------------------------------------------

proof fn lemma_zero_level(c: nat, den: nat)
    requires
        den > 0,
    ensures
        nearest_integer(single_product(0, c, den)) == 0,
{
    let d = pow2(149) * den;
    lemma_pow2_pos(149);
    lemma_pow2_pos(148);
    lemma_pow2_unfold(149);
    assert(d > 0) by (nonlinear_arith)
        requires
            d == pow2(149) * den,
            pow2(149) > 0,
            den > 0,
    ;
    lemma_nearest_zero(0, d);
    lemma_fundamental_div_mod_converse(pow2(148) as int, pow2(149) as int, 0, pow2(148) as int);
}

/// The level of a number, where one counts for `num / 2^log` levels.
fn level(s: &str, limit: u64, num: u32, log: u32) -> (r: Option<u8>)
    requires
        1 <= limit <= 100,
        0 < num <= 0xff_ffff,
        log <= 22,
        limit * num <= 255 * pow2(log as nat),
        num <= 255 * pow2(log as nat),
        num <= 0xff || log == 22,
    ensures
        r == (match decimal_number(s@) {
            Some(number) => level_of(number, limit as nat, num as nat, pow2(log as nat)),
            None => None,
        }),
{
    let numeral = match parse_decimal(s) {
        Some(n) => n,
        None => {
            return None;
        },
    };
    let ghost number = decimal_number(s@)->0;
    let ghost e = number.exponent;
    let ghost value = number.significand;
    let ghost den = pow2(log as nat);
    let ghost units = nearest_decimal(value, e);
    proof {
        lemma_pow2_pos(log as nat);
        lemma_pow2_pos(149);
        lemma_units(value, e);
        assert(numeral.digits@.subrange(0, numeral.digits.len() as int) =~= numeral.digits@);
        assert(limit * pow2(149) >= pow2(149)) by (nonlinear_arith)
            requires
                limit >= 1,
        ;
    }
    if all_zero(&numeral.digits, 0, numeral.digits.len()) {
        proof {
            assert(unit_num(value, e) == 0) by {
                assert(0 * pow10((e + 33) as nat) == 0) by (nonlinear_arith);
            }
            lemma_pow10_pos(33);
            assert(unit_den(e) * pow10(33) > 0) by (nonlinear_arith)
                requires
                    unit_den(e) > 0,
                    pow10(33) > 0,
            ;
            lemma_nearest_zero(0, unit_den(e) * pow10(33));
            lemma_zero_level(num as nat, den);
        }
        return Some(0);
    }
    if numeral.negative {
        let zero = rounds_to_zero(&numeral.digits, numeral.exponent, Ghost(e));
        if zero {
            proof {
                lemma_zero_level(num as nat, den);
            }
            return Some(0);
        }
        return None;
    }
    let (n, sticky) = match whole_units(&numeral.digits, numeral.exponent, Ghost(e)) {
        Some(parts) => parts,
        None => {
            proof {
                lemma_large(unit_num(value, e), unit_den(e));
                assert(limit * pow2(149) <= 100 * pow2(149)) by (nonlinear_arith)
                    requires
                        limit <= 100,
                ;
            }
            return None;
        },
    };
    let ghost top = unit_num(value, e);
    let ghost g = unit_den(e);
    if n < FIVE_33 * 0x100_0000 {
        proof {
            lemma_fundamental_div_mod(top as int, g as int);
            assert(top < FIVE_33 * 0x100_0000 * g) by (nonlinear_arith)
                requires
                    top == g * n + top % g,
                    0 <= top % g < g,
                    n + 1 <= FIVE_33 * 0x100_0000,
            ;
            lemma_small(top, g, num as nat, den);
        }
        return Some(0);
    }
    let single = single_from_units(n, sticky, Ghost(top), Ghost(g));
    let mut bound: u64 = limit;
    let mut i: i32 = 0;
    proof {
        lemma2_to64();
        assert(limit * pow2(0) == limit) by (nonlinear_arith)
            requires
                pow2(0) == 1,
        ;
    }
    while i < 0 - single.exponent
        invariant
            0 <= i <= -single.exponent <= 32,
            1 <= limit <= 100,
            bound == limit * pow2(i as nat),
            bound <= 100 * pow2(i as nat),
        decreases -single.exponent - i,
    {
        proof {
            lemma_pow2_unfold((i + 1) as nat);
            lemma2_to64();
            lemma_pow2_strictly_increases(i as nat, 32);
            assert(limit * pow2((i + 1) as nat) == 2 * (limit * pow2(i as nat)))
                by (nonlinear_arith)
                requires
                    pow2((i + 1) as nat) == 2 * pow2(i as nat),
            ;
        }
        bound = bound * 2;
        i = i + 1;
    }
    proof {
        let x = (single.exponent + 149) as nat;
        lemma_pow2_adds(i as nat, x);
        lemma_pow2_pos(x);
        assert(units <= limit * pow2(149) <==> single.mantissa <= bound) by (nonlinear_arith)
            requires
                units == single.mantissa * pow2(x),
                bound == limit * pow2(i as nat),
                pow2(149) == pow2(i as nat) * pow2(x),
                pow2(x) > 0,
        ;
        assert(units > 0) by (nonlinear_arith)
            requires
                units == single.mantissa * pow2(x),
                pow2(x) > 0,
                single.mantissa > 0,
        ;
    }
    if single.mantissa > bound {
        return None;
    }
    let product = single.times(num, log);
    proof {
        lemma_level_range(units, limit as nat, num as nat, den);
    }
    Some(product.round() as u8)
}

/// The level of a percentage.
pub(crate) fn level_of_percent(s: &str) -> (r: Option<u8>)
    ensures
        r == percent_level(s@),
{
    proof {
        lemma2_to64();
        lemma_percent_scale();
        if let Some(number) = decimal_number(s@) {
            lemma_percent_product(nearest_decimal(number.significand, number.exponent));
        }
    }
    level(s, 100, 10_695_475, 22)
}

/// The level of a fraction of one.
pub(crate) fn level_of_fraction(s: &str) -> (r: Option<u8>)
    ensures
        r == fraction_level(s@),
{
    proof {
        lemma2_to64();
    }
    level(s, 1, 255, 0)
}

/// 2.55 in single precision.
proof fn lemma_percent_scale()
    ensures
        nearest_single(255, 100) == 10_695_475 * pow2(127),
{
    lemma2_to64();
    lemma_pow2_adds(22, 127);
    lemma_pow2_pos(127);
    let f = pow2(127);
    assert(255 * pow2(149) == (255 * 0x40_0000) * f) by (nonlinear_arith)
        requires
            pow2(149) == 0x40_0000 * f,
    ;
    lemma_nearest_scaled(255, 100, 127, 255 * 0x40_0000, 100, f);
}

proof fn lemma_percent_product(units: nat)
    ensures
        single_product(units, nearest_single(255, 100), pow2(149)) == single_product(
            units,
            10_695_475,
            pow2(22),
        ),
{
    lemma_percent_scale();
    lemma_pow2_adds(22, 127);
    lemma_pow2_pos(127);
    lemma_pow2_pos(149);
    lemma_pow2_pos(22);
    let f = pow2(127);
    let p = pow2(149);
    assert(p * pow2(22) > 0) by (nonlinear_arith)
        requires
            p > 0,
            pow2(22) > 0,
    ;
    lemma_nearest_scale(units * 10_695_475, p * pow2(22), f);
    assert(f * (units * 10_695_475) == units * (10_695_475 * f)) by (nonlinear_arith);
    assert(f * (p * pow2(22)) == p * p) by (nonlinear_arith)
        requires
            p == pow2(22) * f,
    ;
}

// ---------------------------------------------------------------------------
// Laws
// ---------------------------------------------------------------------------

/// Whether `a / b` is the size of a decimal number.
pub open spec fn is_ratio_of(number: Decimal, a: nat, b: nat) -> bool {
    if number.exponent >= 0 {
        a == number.significand * pow10(number.exponent as nat) && b == 1
    } else {
        a == number.significand && b == pow10((-number.exponent) as nat)
    }
}

proof fn lemma_within_limit(a: nat, b: nat, limit: nat)
    requires
        b > 0,
        nearest_single(a, b) <= limit * pow2(149),
    ensures
        a * 0xff_ffff <= b * (limit * 0x100_0000 + 1),
{
    let p = pow2(149);
    lemma_pow2_pos(149);
    lemma2_to64();
    lemma_pow2_strictly_increases(24, 149);
    let u = nearest_single(a, b);
    lemma_nearest_bounds(a, b);
    assert(u * b <= limit * p * b) by (nonlinear_arith)
        requires
            u <= limit * p,
    ;
    let ap = a * p;
    let bp = b * p;
    assert(b * 0x80_0000 <= bp) by (nonlinear_arith)
        requires
            bp == b * p,
            p >= 0x80_0000,
    ;
    assert(limit * p * b == limit * bp) by (nonlinear_arith)
        requires
            bp == b * p,
    ;
    assert(ap * 0xff_ffff <= (limit * bp) * 0x100_0000 + bp);
    assert(a * 0xff_ffff <= b * (limit * 0x100_0000 + 1)) by (nonlinear_arith)
        requires
            ap * 0xff_ffff <= (limit * bp) * 0x100_0000 + bp,
            ap == a * p,
            bp == b * p,
            p > 0,
    ;
}

/// A percentage from 0 to 100 has the level nearest to 255 hundredths of it, up to rounding
/// in single precision; one above has none, and neither has a negative one, unless it is so
/// small that it counts as zero.
pub proof fn percentages_have_the_nearest_level(s: Seq<char>, number: Decimal, a: nat, b: nat)
    requires
        decimal_number(s) == Some(number),
        is_ratio_of(number, a, b),
    ensures
        !number.negative && a <= 100 * b ==> percent_level(s) is Some,
        a > 101 * b ==> percent_level(s) is None,
        number.negative && a * pow2(150) > b ==> percent_level(s) is None,
        number.negative && a * pow2(150) <= b ==> percent_level(s) == Some(0u8),
        percent_level(s) matches Some(level) ==> {
            &&& 12_800 * (level * b) <= 32_640 * a + 6_501 * b
            &&& 32_640 * a <= 12_800 * (level * b) + 6_501 * b
        },
{
    let p = pow2(149);
    lemma_pow2_pos(149);
    lemma2_to64();
    if number.exponent < 0 {
        lemma_pow10_pos((-number.exponent) as nat);
    }
    let u = nearest_single(a, b);
    assert(u == nearest_decimal(number.significand, number.exponent));
    lemma_nearest_zero(a, b);
    if a <= 100 * b {
        lemma_pow2_adds(17, 132);
        let bits: u32 = 0x42c8_0000;
        assert(bits / 0x80_0000 == 133 && bits % 0x80_0000 == 0x48_0000);
        assert(units_of_bits(bits) == 0xc8_0000 * pow2(132));
        assert(p == 0x2_0000 * pow2(132));
        assert(a * p <= (100 * p) * b) by (nonlinear_arith)
            requires
                a <= 100 * b,
        ;
        lemma_nearest_at_most(a, b, 0x42c8_0000);
    }
    if u <= 100 * p {
        lemma_within_limit(a, b, 100);
        assert(b * (100 * 0x100_0000 + 1) == 0x6400_0001 * b) by (nonlinear_arith);
        assert(a <= 101 * b);
        let c: nat = 10_695_475;
        lemma_pow2_pos(128);
        lemma_pow2_strictly_increases(24, 128);
        let d = pow2(22);
        assert(d == 4_194_304);
        assert(c <= d * pow2(128)) by (nonlinear_arith)
            requires
                c == 10_695_475,
                d == 4_194_304,
                pow2(128) >= 3,
        ;
        assert(a * c == 10_695_475 * a && b * d == 4_194_304 * b) by (nonlinear_arith)
            requires
                c == 10_695_475,
                d == 4_194_304,
        ;
        scaled_quotients_are_nearest(a, b, c, d);
        lemma_percent_product(u);
        lemma_percent_scale();
        lemma_pow2_adds(22, 127);
        lemma_level_range(u, 100, nearest_single(255, 100), p);
        lemma_zero_level(nearest_single(255, 100), p);
        let level = nearest_integer(single_product(u, c, d));
        let lb = level * b;
        assert(level * (b * d) == 4_194_304 * lb) by (nonlinear_arith)
            requires
                lb == level * b,
                d == 4_194_304,
        ;
    }
}

/// A fraction from 0 to 1 has the level nearest to 255 times it, up to rounding in single
/// precision; one above has none, and neither has a negative one, unless it is so small
/// that it counts as zero.
pub proof fn fractions_have_the_nearest_level(s: Seq<char>, number: Decimal, a: nat, b: nat)
    requires
        decimal_number(s) == Some(number),
        is_ratio_of(number, a, b),
    ensures
        !number.negative && a <= b ==> fraction_level(s) is Some,
        100 * a > 101 * b ==> fraction_level(s) is None,
        number.negative && a * pow2(150) > b ==> fraction_level(s) is None,
        number.negative && a * pow2(150) <= b ==> fraction_level(s) == Some(0u8),
        fraction_level(s) matches Some(level) ==> {
            &&& 128 * (level * b) <= 32_640 * a + 65 * b
            &&& 32_640 * a <= 128 * (level * b) + 65 * b
        },
{
    let p = pow2(149);
    lemma_pow2_pos(149);
    lemma2_to64();
    if number.exponent < 0 {
        lemma_pow10_pos((-number.exponent) as nat);
    }
    let u = nearest_single(a, b);
    assert(u == nearest_decimal(number.significand, number.exponent));
    lemma_nearest_zero(a, b);
    if a <= b {
        lemma_pow2_adds(23, 126);
        assert(units_of_bits(0x3f80_0000) == p);
        assert(a * p <= p * b) by (nonlinear_arith)
            requires
                a <= b,
        ;
        lemma_nearest_at_most(a, b, 0x3f80_0000);
    }
    if u <= 1 * p {
        lemma_within_limit(a, b, 1);
        assert(b * (1 * 0x100_0000 + 1) == 0x100_0001 * b) by (nonlinear_arith);
        assert(100 * a <= 101 * b);
        lemma_pow2_strictly_increases(24, 128);
        scaled_quotients_are_nearest(a, b, 255, 1);
        lemma_level_range(u, 1, 255, 1);
        lemma_zero_level(255, 1);
        let level = nearest_integer(single_product(u, 255, 1));
        assert(level * (b * 1) == level * b) by (nonlinear_arith);
    }
}

} // verus!
