//! Single-precision arithmetic on non-negative numbers.
//!
//! A single-precision number is a multiple of 2^-149. The model counts in that
//! unit, so that rounding is integer arithmetic. There is no upper limit: the
//! largest finite number is far above everything that is computed here.

use vstd::prelude::*;
use vstd::arithmetic::div_mod::{
    lemma_div_denominator, lemma_fundamental_div_mod, lemma_fundamental_div_mod_converse,
};
use vstd::arithmetic::power2::{
    lemma2_to64, lemma2_to64_rest, lemma_pow2_adds, lemma_pow2_pos, lemma_pow2_strictly_increases,
    lemma_pow2_unfold, pow2,
};

verus! {

// ---------------------------------------------------------------------------
// Model
// ---------------------------------------------------------------------------

/// `num / den` rounded to the nearest integer, halves to the even neighbour.
pub open spec fn half_even(num: nat, den: nat) -> nat {
    let q = num / den;
    let r = num % den;
    if 2 * r > den || (2 * r == den && q % 2 == 1) {
        (q + 1) as nat
    } else {
        q
    }
}

/// The least exponent at which the quotient of two numbers has at most 24 bits.
pub open spec fn single_shift(num: nat, den: nat) -> nat
    decreases num - den,
{
    if den == 0 || num < den * 0x100_0000 {
        0
    } else {
        1 + single_shift(num, 2 * den)
    }
}

/// The single-precision number nearest to `num / den`, in units of 2^-149.
pub open spec fn nearest_single(num: nat, den: nat) -> nat {
    let units = num * pow2(149);
    let shift = single_shift(units, den);
    half_even(units, den * pow2(shift)) * pow2(shift)
}

/// The integer nearest to a number of units of 2^-149, halves up.
pub open spec fn nearest_integer(units: nat) -> nat {
    (units + pow2(148)) / pow2(149)
}

/// The single-precision product of `units` and the fraction `num / den`.
pub open spec fn single_product(units: nat, num: nat, den: nat) -> nat {
    nearest_single(units * num, pow2(149) * den)
}

/// Whether the bits are those of a positive, finite single-precision number.
pub open spec fn is_positive_finite(bits: u32) -> bool {
    0 < bits < 0x7f80_0000
}

/// A positive, finite single-precision number in units of 2^-149.
pub open spec fn units_of_bits(bits: u32) -> nat {
    let fraction = (bits % 0x80_0000) as nat;
    let exponent = (bits / 0x80_0000) as nat;
    if exponent == 0 {
        fraction
    } else {
        (0x80_0000 + fraction) * pow2((exponent - 1) as nat)
    }
}

/// The single-precision quotient of two integers, each in single precision itself.
pub open spec fn integer_ratio(n: nat, d: nat) -> nat {
    nearest_single(nearest_single(n, 1), nearest_single(d, 1))
}

// ---------------------------------------------------------------------------
// Facts
// ---------------------------------------------------------------------------

/// The exponent is determined by the two powers that enclose the quotient.
pub proof fn lemma_single_shift(num: nat, den: nat, k: nat)
    requires
        den > 0,
        k > 0 ==> den * pow2((k + 23) as nat) <= num,
        num < den * pow2((k + 24) as nat),
    ensures
        single_shift(num, den) == k,
    decreases k,
{
    lemma2_to64();
    if k > 0 {
        let half = pow2((k + 22) as nat);
        lemma_pow2_unfold((k + 23) as nat);
        lemma_pow2_unfold((k + 24) as nat);
        assert(den * pow2((k + 23) as nat) == (2 * den) * half) by (nonlinear_arith)
            requires
                pow2((k + 23) as nat) == 2 * half,
        ;
        assert(den * pow2((k + 24) as nat) == (2 * den) * pow2((k + 23) as nat))
            by (nonlinear_arith)
            requires
                pow2((k + 24) as nat) == 2 * pow2((k + 23) as nat),
        ;
        if k + 23 > 24 {
            lemma_pow2_strictly_increases(24, (k + 23) as nat);
        }
        assert(den * 0x100_0000 <= den * pow2((k + 23) as nat)) by (nonlinear_arith)
            requires
                0x100_0000 <= pow2((k + 23) as nat),
        ;
        lemma_single_shift(num, 2 * den, (k - 1) as nat);
    }
}

/// Rounding a quotient does not depend on a common factor.
pub proof fn lemma_half_even_scale(num: nat, den: nat, a: nat)
    requires
        den > 0,
        a > 0,
    ensures
        half_even(a * num, a * den) == half_even(num, den),
{
    let q = num / den;
    let r = num % den;
    lemma_fundamental_div_mod(num as int, den as int);
    assert(a * num == q * (a * den) + a * r) by (nonlinear_arith)
        requires
            num == den * q + r,
    ;
    assert(0 <= a * r < a * den) by (nonlinear_arith)
        requires
            0 <= r < den,
            a > 0,
    ;
    lemma_fundamental_div_mod_converse((a * num) as int, (a * den) as int, q as int, (a * r) as int);
    assert((2 * (a * r) > a * den <==> 2 * r > den) && (2 * (a * r) == a * den <==> 2 * r == den))
        by (nonlinear_arith)
        requires
            a > 0,
    ;
}

/// Rounding `num / (g * k)` from `num / g` alone, when `k` is even: what was cut
/// off matters only where the rest is exactly one half.
pub proof fn lemma_half_even_sticky(num: nat, g: nat, k: nat)
    requires
        g > 0,
        k > 0,
        k % 2 == 0 || num % g == 0,
    ensures
        ({
            let n = num / g;
            let sticky = num % g != 0;
            let q = n / k;
            let r = n % k;
            half_even(num, g * k) == (if 2 * r > k || (2 * r == k && (sticky || q % 2 == 1)) {
                q + 1
            } else {
                q
            })
        }),
{
    let n = num / g;
    let s = num % g;
    let q = n / k;
    let r = n % k;
    lemma_fundamental_div_mod(num as int, g as int);
    lemma_fundamental_div_mod(n as int, k as int);
    assert(num == q * (g * k) + (g * r + s)) by (nonlinear_arith)
        requires
            num == g * n + s,
            n == k * q + r,
    ;
    assert(0 <= g * r + s < g * k) by (nonlinear_arith)
        requires
            0 <= r,
            r + 1 <= k,
            0 <= s < g,
    ;
    lemma_fundamental_div_mod_converse(num as int, (g * k) as int, q as int, (g * r + s) as int);
    if 2 * r > k {
        assert(2 * (g * r + s) > g * k) by (nonlinear_arith)
            requires
                2 * r > k,
                s >= 0,
                g > 0,
        ;
    } else if 2 * r == k {
        assert(2 * (g * r + s) == g * k + 2 * s) by (nonlinear_arith)
            requires
                2 * r == k,
        ;
    } else {
        if s == 0 {
            assert(2 * (g * r + s) < g * k) by (nonlinear_arith)
                requires
                    2 * r < k,
                    s == 0,
                    g > 0,
            ;
        } else {
            assert(2 * r + 2 <= k);
            assert(2 * (g * r + s) < g * k) by (nonlinear_arith)
                requires
                    2 * r + 2 <= k,
                    0 <= s < g,
            ;
        }
    }
}

/// The nearest single-precision number, from an exponent `k` at which the
/// quotient has 24 bits and the rounded quotient `m`.
pub proof fn lemma_nearest_single(num: nat, den: nat, k: nat, m: nat)
    requires
        den > 0,
        k > 0 ==> den * pow2((k + 23) as nat) <= num * pow2(149),
        num * pow2(149) < den * pow2((k + 24) as nat),
        m == half_even(num * pow2(149), den * pow2(k)),
    ensures
        nearest_single(num, den) == m * pow2(k),
{
    lemma_single_shift(num * pow2(149), den, k);
}

/// As `lemma_nearest_single`, from a quotient `a / b` that is scaled to 24 bits.
pub proof fn lemma_nearest_scaled(num: nat, den: nat, k: nat, a: nat, b: nat, f: nat)
    requires
        den > 0,
        b > 0,
        f > 0,
        num * pow2(149) == a * f,
        den * pow2(k) == b * f,
        b * 0x80_0000 <= a,
        a < b * 0x100_0000,
    ensures
        nearest_single(num, den) == half_even(a, b) * pow2(k),
{
    lemma2_to64();
    lemma_pow2_adds(k, 23);
    lemma_pow2_adds(k, 24);
    assert(den * pow2((k + 23) as nat) == (b * f) * 0x80_0000) by (nonlinear_arith)
        requires
            den * pow2(k) == b * f,
            pow2((k + 23) as nat) == pow2(k) * 0x80_0000,
    ;
    assert(den * pow2((k + 24) as nat) == (b * f) * 0x100_0000) by (nonlinear_arith)
        requires
            den * pow2(k) == b * f,
            pow2((k + 24) as nat) == pow2(k) * 0x100_0000,
    ;
    assert((b * f) * 0x80_0000 <= a * f && a * f < (b * f) * 0x100_0000) by (nonlinear_arith)
        requires
            b * 0x80_0000 <= a < b * 0x100_0000,
            f > 0,
    ;
    assert(a * f == f * a && b * f == f * b) by (nonlinear_arith);
    lemma_half_even_scale(a, b, f);
    lemma_nearest_single(num, den, k, half_even(a, b));
}

/// The quotient has at least 24 bits at every exponent but the least.
proof fn lemma_single_shift_bounds(num: nat, den: nat)
    requires
        den > 0,
    ensures
        single_shift(num, den) > 0 ==> den * pow2(single_shift(num, den)) * 0x80_0000 <= num,
    decreases num - den,
{
    lemma2_to64();
    if num >= den * 0x100_0000 {
        let k = single_shift(num, 2 * den);
        lemma_single_shift_bounds(num, 2 * den);
        lemma_pow2_unfold((k + 1) as nat);
        assert(den * pow2((k + 1) as nat) == (2 * den) * pow2(k)) by (nonlinear_arith)
            requires
                pow2((k + 1) as nat) == 2 * pow2(k),
        ;
        if k == 0 {
            assert((2 * den) * pow2(k) == 2 * den) by (nonlinear_arith)
                requires
                    pow2(k) == 1,
            ;
        }
    }
}

/// The exponent is at most `k` where the quotient has at most `k + 24` bits.
proof fn lemma_single_shift_at_most(num: nat, den: nat, k: nat)
    requires
        den > 0,
        num < den * pow2((k + 24) as nat),
    ensures
        single_shift(num, den) <= k,
    decreases k,
{
    lemma2_to64();
    if num >= den * 0x100_0000 && k > 0 {
        lemma_pow2_unfold((k + 24) as nat);
        assert(den * pow2((k + 24) as nat) == (2 * den) * pow2((k + 23) as nat))
            by (nonlinear_arith)
            requires
                pow2((k + 24) as nat) == 2 * pow2((k + 23) as nat),
        ;
        lemma_single_shift_at_most(num, 2 * den, (k - 1) as nat);
    }
}

/// What is no more than a single-precision number is not rounded to more than that.
pub proof fn lemma_nearest_at_most(num: nat, den: nat, bits: u32)
    requires
        den > 0,
        is_positive_finite(bits),
        num * pow2(149) <= units_of_bits(bits) * den,
    ensures
        nearest_single(num, den) <= units_of_bits(bits),
{
    let n = num * pow2(149);
    let limit = units_of_bits(bits);
    let exponent = (bits / 0x80_0000) as nat;
    let fraction = (bits % 0x80_0000) as nat;
    let j: nat = if exponent == 0 {
        0
    } else {
        (exponent - 1) as nat
    };
    let m: nat = if exponent == 0 {
        fraction
    } else {
        0x80_0000 + fraction
    };
    lemma2_to64();
    lemma_pow2_pos(j);
    assert(limit == m * pow2(j)) by {
        if exponent == 0 {
            assert(m * pow2(j) == m) by (nonlinear_arith)
                requires
                    pow2(j) == 1,
            ;
        }
    }
    lemma_pow2_adds(j, 24);
    assert(n < den * pow2(j + 24)) by (nonlinear_arith)
        requires
            n <= (m * pow2(j)) * den,
            m < 0x100_0000,
            pow2(j + 24) == pow2(j) * 0x100_0000,
            den > 0,
            pow2(j) > 0,
    ;
    lemma_single_shift_at_most(n, den, j);
    let k = single_shift(n, den);
    let whole = m * pow2((j - k) as nat);
    let b = den * pow2(k);
    lemma_pow2_pos(k);
    lemma_pow2_adds((j - k) as nat, k);
    assert(whole * pow2(k) == limit) by (nonlinear_arith)
        requires
            whole == m * pow2((j - k) as nat),
            pow2(j) == pow2((j - k) as nat) * pow2(k),
            limit == m * pow2(j),
    ;
    assert(b > 0 && n <= whole * b) by (nonlinear_arith)
        requires
            b == den * pow2(k),
            den > 0,
            pow2(k) > 0,
            n <= limit * den,
            whole * pow2(k) == limit,
    ;
    let q = n / b;
    let r = n % b;
    lemma_fundamental_div_mod(n as int, b as int);
    assert(q <= whole && (r > 0 ==> q + 1 <= whole)) by (nonlinear_arith)
        requires
            n == b * q + r,
            0 <= r < b,
            n <= whole * b,
    ;
    assert(half_even(n, b) <= whole);
    assert(half_even(n, b) * pow2(k) <= whole * pow2(k)) by (nonlinear_arith)
        requires
            half_even(n, b) <= whole,
    ;
}

/// Rounding changes a number by at most one part in 2^24 or half a unit.
pub proof fn lemma_nearest_bounds(num: nat, den: nat)
    requires
        den > 0,
    ensures
        nearest_single(num, den) * den * 0x100_0000 <= (num * pow2(149)) * 0x100_0001 + den
            * 0x80_0000,
        nearest_single(num, den) * den * 0x100_0000 + den * 0x80_0000 >= (num * pow2(149))
            * 0xff_ffff,
{
    let n = num * pow2(149);
    let k = single_shift(n, den);
    lemma_pow2_pos(k);
    lemma_single_shift_bounds(n, den);
    lemma2_to64();
    let b = den * pow2(k);
    assert(b > 0) by (nonlinear_arith)
        requires
            b == den * pow2(k),
            den > 0,
            pow2(k) > 0,
    ;
    let h = half_even(n, b);
    lemma_fundamental_div_mod(n as int, b as int);
    let q = n / b;
    let r = n % b;
    assert(b * (q + 1) == b * q + b) by (nonlinear_arith);
    assert(2 * (b * h) <= 2 * n + b && 2 * (b * h) + b >= 2 * n);
    assert(nearest_single(num, den) * den == b * h) by (nonlinear_arith)
        requires
            b == den * pow2(k),
            nearest_single(num, den) == h * pow2(k),
    ;
    if k == 0 {
        assert(b == den) by (nonlinear_arith)
            requires
                b == den * pow2(k),
                pow2(k) == 1,
        ;
    }
}

/// A number rounds to zero when it is at most half a unit.
pub proof fn lemma_nearest_zero(num: nat, den: nat)
    requires
        den > 0,
    ensures
        nearest_single(num, den) == 0 <==> num * pow2(150) <= den,
{
    let n = num * pow2(149);
    lemma_pow2_unfold(150);
    assert(num * pow2(150) == 2 * n) by (nonlinear_arith)
        requires
            n == num * pow2(149),
            pow2(150) == 2 * pow2(149),
    ;
    let k = single_shift(n, den);
    lemma_pow2_pos(k);
    lemma_single_shift_bounds(n, den);
    lemma2_to64();
    let b = den * pow2(k);
    assert(b > 0) by (nonlinear_arith)
        requires
            b == den * pow2(k),
            den > 0,
            pow2(k) > 0,
    ;
    let h = half_even(n, b);
    lemma_fundamental_div_mod(n as int, b as int);
    assert(h * pow2(k) == 0 <==> h == 0) by (nonlinear_arith)
        requires
            pow2(k) > 0,
    ;
    if k == 0 {
        assert(b == den) by (nonlinear_arith)
            requires
                b == den * pow2(k),
                pow2(k) == 1,
        ;
        if n < b {
            lemma_fundamental_div_mod_converse(n as int, b as int, 0, n as int);
        } else {
            assert(n / b >= 1) by (nonlinear_arith)
                requires
                    n >= b,
                    b > 0,
                    n == b * (n / b) + n % b,
                    n % b < b,
            ;
        }
    } else {
        assert(b >= den) by (nonlinear_arith)
            requires
                b == den * pow2(k),
                pow2(k) >= 1,
        ;
        assert(n / b >= 1) by (nonlinear_arith)
            requires
                n >= b,
                b > 0,
                n == b * (n / b) + n % b,
                n % b < b,
        ;
    }
}

// ---------------------------------------------------------------------------
// Numbers
// ---------------------------------------------------------------------------

/// A positive single-precision number, `mantissa * 2^exponent`, with all of its
/// 24 bits.
pub(crate) struct Single {
    pub(crate) mantissa: u64,
    pub(crate) exponent: i32,
}

impl Single {
    pub(crate) open spec fn wf(self) -> bool {
        &&& 0x80_0000 <= self.mantissa <= 0x100_0000
        &&& -100 <= self.exponent <= 100
    }

    pub(crate) open spec fn units(self) -> nat {
        (self.mantissa as nat) * pow2((self.exponent + 149) as nat)
    }
}

/// `n / d` to the nearest integer, halves to even, where `sticky` says that a
/// fraction of `n` was cut off.
pub(crate) fn round_quotient(n: u128, sticky: bool, d: u128) -> (r: u128)
    requires
        0 < d < 0x4000_0000_0000_0000_0000_0000_0000_0000,
        n / d < 0x1_0000_0000,
    ensures
        r == ({
            let q = n / d;
            let rest = n % d;
            if 2 * rest > d || (2 * rest == d && (sticky || q % 2 == 1)) {
                q + 1
            } else {
                q as int
            }
        }),
        !sticky ==> r == half_even(n as nat, d as nat),
{
    let q = n / d;
    let rest = n % d;
    if 2 * rest > d || (2 * rest == d && (sticky || q % 2 == 1)) {
        q + 1
    } else {
        q
    }
}

pub(crate) proof fn lemma_quotient_range(a: nat, b: nat)
    requires
        b > 0,
        b * 0x80_0000 <= a,
        a < b * 0x100_0000,
    ensures
        0x80_0000 <= a / b < 0x100_0000,
{
    lemma_fundamental_div_mod(a as int, b as int);
    assert(0x80_0000 <= a / b < 0x100_0000) by (nonlinear_arith)
        requires
            a == b * (a / b) + a % b,
            0 <= a % b < b,
            b * 0x80_0000 <= a,
            a < b * 0x100_0000,
    ;
}

/// A fraction `r.0 / r.1` with 24 bits, such that `n / d` is `2^r.2` times as much.
pub(crate) fn scaled_to_24_bits(n: u64, d: u32) -> (r: (u128, u128, i32))
    requires
        n > 0,
        d > 0,
    ensures
        0 < r.1 <= 0x1ff_ffff_ffff,
        n <= 0xffff_ffff ==> r.1 <= 0xffff_ffff,
        r.1 * 0x80_0000 <= r.0,
        r.0 < r.1 * 0x100_0000,
        -55 <= r.2 <= 41,
        n <= 0xffff_ffff ==> r.2 <= 32,
        r.2 > 0 ==> r.0 == n && r.1 == d * pow2(r.2 as nat),
        r.2 <= 0 ==> r.1 == d && r.0 == n * pow2((-r.2) as nat),
{
    let mut a: u128 = n as u128;
    let mut b: u128 = d as u128;
    let mut e: i32 = 0;
    proof {
        lemma2_to64();
        assert(d * pow2(0) == d && n * pow2(0) == n) by (nonlinear_arith)
            requires
                pow2(0) == 1,
        ;
    }
    while a >= b * 0x100_0000
        invariant
            a == n,
            0 < d,
            0 <= e <= 41,
            b == d * pow2(e as nat),
            0 < b <= 0x1ff_ffff_ffff,
            n <= 0xffff_ffff ==> b <= 0xffff_ffff && e <= 32,
            e > 0 ==> b * 0x80_0000 <= a,
            pow2(e as nat) <= b,
        decreases a - b,
    {
        proof {
            lemma_pow2_unfold((e + 1) as nat);
            assert(d * pow2((e + 1) as nat) == 2 * (d * pow2(e as nat))) by (nonlinear_arith)
                requires
                    pow2((e + 1) as nat) == 2 * pow2(e as nat),
            ;
            if e == 32 {
                lemma2_to64();
            }
            if e == 41 {
                lemma2_to64_rest();
            }
        }
        b = b * 2;
        e = e + 1;
    }
    while a < b * 0x80_0000
        invariant
            n > 0,
            0 < d,
            -55 <= e <= 41,
            n <= 0xffff_ffff ==> b <= 0xffff_ffff && e <= 32,
            e > 0 ==> a == n && b == d * pow2(e as nat),
            e <= 0 ==> b == d && a == n * pow2((-e) as nat),
            0 < b <= 0x1ff_ffff_ffff,
            e <= 0 ==> b <= 0xffff_ffff,
            0 < a < b * 0x100_0000,
            e > 0 ==> b * 0x80_0000 <= a,
            e <= 0 ==> pow2((-e) as nat) <= a,
        decreases e + 60,
    {
        proof {
            lemma_pow2_unfold((1 - e) as nat);
            assert(n * pow2((1 - e) as nat) == 2 * (n * pow2((-e) as nat))) by (nonlinear_arith)
                requires
                    pow2((1 - e) as nat) == 2 * pow2((-e) as nat),
            ;
            if e == -55 {
                lemma2_to64_rest();
            }
        }
        a = a * 2;
        e = e - 1;
    }
    (a, b, e)
}

/// The single-precision number nearest to `n / d`.
pub(crate) fn single_ratio(n: u32, d: u32) -> (r: Single)
    requires
        n > 0,
        d > 0,
    ensures
        r.wf(),
        -32 - 23 <= r.exponent <= 32,
        r.units() == nearest_single(n as nat, d as nat),
{
    let (a, b, e) = scaled_to_24_bits(n as u64, d);
    proof {
        lemma_quotient_range(a as nat, b as nat);
    }
    let m = round_quotient(a, false, b);
    proof {
        let k = (e + 149) as nat;
        if e > 0 {
            lemma_pow2_adds(149, e as nat);
            lemma_pow2_pos(149);
            assert(d * pow2(k) == b * pow2(149)) by (nonlinear_arith)
                requires
                    pow2(k) == pow2(149) * pow2(e as nat),
                    b == d * pow2(e as nat),
            ;
            lemma_nearest_scaled(n as nat, d as nat, k, a as nat, b as nat, pow2(149));
        } else {
            lemma_pow2_adds(k, (-e) as nat);
            lemma_pow2_pos(k);
            assert(n * pow2(149) == a * pow2(k)) by (nonlinear_arith)
                requires
                    pow2(149) == pow2(k) * pow2((-e) as nat),
                    a == n * pow2((-e) as nat),
            ;
            lemma_nearest_scaled(n as nat, d as nat, k, a as nat, b as nat, pow2(k));
        }
    }
    Single { mantissa: m as u64, exponent: e }
}

impl Single {
    /// The single-precision product with `num / 2^log`.
    pub(crate) fn times(&self, num: u32, log: u32) -> (r: Single)
        requires
            self.wf(),
            -60 <= self.exponent <= 40,
            0 < num <= 0xff_ffff,
            log <= 30,
        ensures
            r.wf(),
            self.exponent - log <= r.exponent <= self.exponent - log + 25,
            num <= 0xff ==> r.exponent <= self.exponent - log + 8,
            r.units() == single_product(self.units(), num as nat, pow2(log as nat)),
    {
        assert(0x80_0000 <= self.mantissa * num <= 0x100_0000 * 0xff_ffff) by (nonlinear_arith)
            requires
                0x80_0000 <= self.mantissa <= 0x100_0000,
                0 < num <= 0xff_ffff,
        ;
        assert(num <= 0xff ==> self.mantissa * num <= 0x100_0000 * 0xff) by (nonlinear_arith)
            requires
                0x80_0000 <= self.mantissa <= 0x100_0000,
        ;
        let product: u128 = self.mantissa as u128 * num as u128;
        let mut b: u128 = 1;
        let mut t: i32 = 0;
        proof {
            lemma2_to64();
        }
        while product >= b * 0x100_0000
            invariant
                0x80_0000 <= product <= 0x100_0000 * 0xff_ffff,
                num <= 0xff ==> product <= 0x100_0000 * 0xff,
                0 <= t <= 24,
                num <= 0xff ==> t <= 8,
                b == pow2(t as nat),
                b <= 0x100_0000,
                b * 0x80_0000 <= product,
            decreases 25 - t,
        {
            proof {
                lemma_pow2_unfold((t + 1) as nat);
                lemma2_to64();
                if t + 1 < 24 {
                    lemma_pow2_strictly_increases((t + 1) as nat, 24);
                }
            }
            b = b * 2;
            t = t + 1;
        }
        proof {
            lemma_quotient_range(product as nat, b as nat);
        }
        let m = round_quotient(product, false, b);
        let r = Single { mantissa: m as u64, exponent: t + self.exponent - log as i32 };
        proof {
            let x = (self.exponent + 149) as nat;
            let units = self.units();
            let den = pow2(149) * pow2(log as nat);
            let k = (r.exponent + 149) as nat;
            let f = pow2((149 + x) as nat);
            lemma_pow2_pos((149 + x) as nat);
            lemma_pow2_pos((149 + log) as nat);
            lemma_pow2_adds(149, log as nat);
            lemma_pow2_adds((149 + log) as nat, k);
            lemma_pow2_adds(149, x);
            lemma_pow2_adds(t as nat, (149 + x) as nat);
            assert(149 + log + k == t + (149 + x));
            assert(den * pow2(k) == b * f);
            assert((units * num) * pow2(149) == product * f) by (nonlinear_arith)
                requires
                    units == self.mantissa as nat * pow2(x),
                    product == self.mantissa * num,
                    f == pow2(149) * pow2(x),
            ;
            lemma_nearest_scaled(units * num as nat, den, k, product as nat, b as nat, f);
        }
        r
    }

    /// The nearest integer, halves up.
    pub(crate) fn round(&self) -> (r: u64)
        requires
            self.wf(),
            -60 <= self.exponent < 0,
        ensures
            r == nearest_integer(self.units()),
            r <= 0x100_0000,
    {
        let y: u32 = (0 - self.exponent) as u32;
        let mut half: u64 = 1;
        let mut i: u32 = 1;
        proof {
            lemma2_to64();
        }
        while i < y
            invariant
                1 <= i <= y <= 60,
                half == pow2((i - 1) as nat),
                half <= 0x800_0000_0000_0000,
            decreases y - i,
        {
            proof {
                lemma_pow2_unfold(i as nat);
                if i < 59 {
                    lemma_pow2_strictly_increases(i as nat, 59);
                }
                lemma2_to64_rest();
            }
            half = half * 2;
            i = i + 1;
        }
        proof {
            let z = (self.exponent + 149) as nat;
            lemma_pow2_unfold(y as nat);
            lemma_pow2_adds(z, y as nat);
            lemma_pow2_adds(z, (y - 1) as nat);
            lemma_pow2_pos(z);
            lemma_pow2_pos(y as nat);
            let m = self.mantissa as nat;
            assert(self.units() + pow2(148) == pow2(z) * (m + half)) by (nonlinear_arith)
                requires
                    self.units() == m * pow2(z),
                    pow2(148) == pow2(z) * half,
            ;
            lemma_div_denominator((pow2(z) * (m + half)) as int, pow2(z) as int, pow2(y as nat) as int);
            lemma_fundamental_div_mod_converse(
                (pow2(z) * (m + half)) as int,
                pow2(z) as int,
                (m + half) as int,
                0,
            );
        }
        let r = (self.mantissa + half) / (2 * half);
        assert(r <= 0x100_0000) by (nonlinear_arith)
            requires
                r == (self.mantissa + half) / (2 * half),
                self.mantissa <= 0x100_0000,
                half >= 1,
        ;
        r
    }
}

/// An integer in single precision.
fn single_of(n: u64) -> (r: Single)
    requires
        n > 0,
    ensures
        0x80_0000 <= r.mantissa <= 0x100_0000,
        -23 <= r.exponent <= 41,
        r.units() == nearest_single(n as nat, 1),
{
    let (a, b, e) = scaled_to_24_bits(n, 1);
    proof {
        lemma_quotient_range(a as nat, b as nat);
        if e < -23 {
            lemma2_to64();
            if -e > 24 {
                lemma_pow2_strictly_increases(24, (-e) as nat);
            }
            assert(n * pow2((-e) as nat) >= 0x100_0000) by (nonlinear_arith)
                requires
                    n > 0,
                    pow2((-e) as nat) >= 0x100_0000,
            ;
        }
    }
    let m = round_quotient(a, false, b);
    proof {
        let k = (e + 149) as nat;
        if e > 0 {
            lemma_pow2_adds(149, e as nat);
            lemma_pow2_pos(149);
            assert(1 * pow2(k) == b * pow2(149)) by (nonlinear_arith)
                requires
                    pow2(k) == pow2(149) * pow2(e as nat),
                    b == 1 * pow2(e as nat),
            ;
            lemma_nearest_scaled(n as nat, 1, k, a as nat, b as nat, pow2(149));
        } else {
            lemma_pow2_adds(k, (-e) as nat);
            lemma_pow2_pos(k);
            assert(n * pow2(149) == a * pow2(k)) by (nonlinear_arith)
                requires
                    pow2(149) == pow2(k) * pow2((-e) as nat),
                    a == n * pow2((-e) as nat),
            ;
            lemma_nearest_scaled(n as nat, 1, k, a as nat, b as nat, pow2(k));
        }
    }
    Single { mantissa: m as u64, exponent: e }
}

/// The bits of the quotient of two integers in single precision.
pub(crate) fn ratio_bits(n: u64, d: u64) -> (r: u32)
    requires
        d > 0,
    ensures
        r < 0x7f80_0000,
        units_of_bits(r) == integer_ratio(n as nat, d as nat),
{
    if n == 0 {
        proof {
            assert(0 * pow2(150) <= 1) by (nonlinear_arith);
            lemma_nearest_zero(0, 1);
            let divisor = nearest_single(d as nat, 1);
            lemma2_to64();
            lemma_pow2_strictly_increases(1, 150);
            assert(d * pow2(150) > 1) by (nonlinear_arith)
                requires
                    d > 0,
                    pow2(150) > 1,
            ;
            lemma_nearest_zero(d as nat, 1);
            assert(0 * pow2(150) <= divisor) by (nonlinear_arith);
            lemma_nearest_zero(0, divisor);
        }
        return 0;
    }
    let x = single_of(n);
    let y = single_of(d);
    let (a, b, e) = scaled_to_24_bits(x.mantissa, y.mantissa as u32);
    proof {
        lemma_quotient_range(a as nat, b as nat);
        if e > 0 {
            lemma_pow2_pos(e as nat);
            assert(b >= 0x80_0000) by (nonlinear_arith)
                requires
                    b == y.mantissa * pow2(e as nat),
                    y.mantissa >= 0x80_0000,
                    pow2(e as nat) >= 1,
            ;
        }
    }
    let m = round_quotient(a, false, b);
    let shift: u32 = (149 + e + x.exponent - y.exponent) as u32;
    proof {
        let p = (x.exponent + 149) as nat;
        let q = (y.exponent + 149) as nat;
        let k = shift as nat;
        let f = pow2((p + 149 + e) as nat);
        let u = x.mantissa as nat;
        let v = y.mantissa as nat;
        lemma_pow2_pos((p + 149 + e) as nat);
        lemma_pow2_pos(q);
        lemma_pow2_adds(p, 149);
        lemma_pow2_adds((p + 149 + e) as nat, (-e) as nat);
        lemma_pow2_adds(q, k);
        assert(q + k == p + 149 + e);
        assert((u * pow2(p)) * pow2(149) == a * f) by (nonlinear_arith)
            requires
                a == u * pow2((-e) as nat),
                pow2((p + 149) as nat) == pow2(p) * pow2(149),
                pow2((p + 149) as nat) == f * pow2((-e) as nat),
        ;
        assert((v * pow2(q)) * pow2(k) == b * f && v * pow2(q) > 0) by (nonlinear_arith)
            requires
                b == v,
                v > 0,
                pow2(q) > 0,
                f == pow2(q) * pow2(k),
        ;
        lemma_nearest_scaled(u * pow2(p), v * pow2(q), k, a as nat, b as nat, f);
    }
    let (mantissa, exponent): (u32, u32) = if m == 0x100_0000 {
        proof {
            lemma_pow2_unfold((shift + 1) as nat);
            assert(0x80_0000 * pow2((shift + 1) as nat) == 0x100_0000 * pow2(shift as nat));
        }
        (0x80_0000, shift + 1)
    } else {
        (m as u32, shift)
    };
    let bits: u32 = (exponent + 1) * 0x80_0000 + (mantissa - 0x80_0000);
    proof {
        lemma_fundamental_div_mod_converse(
            bits as int,
            0x80_0000,
            exponent + 1,
            mantissa - 0x80_0000,
        );
    }
    bits
}

/// The quotient of a number and itself is one.
pub proof fn lemma_ratio_of_equals(n: nat)
    requires
        n > 0,
    ensures
        nearest_single(n, n) == pow2(149),
{
    lemma2_to64();
    lemma_pow2_adds(23, 126);
    lemma_pow2_pos(126);
    let f = n * pow2(126);
    assert(n * pow2(149) == 0x80_0000 * f && f > 0 && n * pow2(126) == 1 * f) by (nonlinear_arith)
        requires
            f == n * pow2(126),
            pow2(149) == 0x80_0000 * pow2(126),
            n > 0,
            pow2(126) > 0,
    ;
    lemma_nearest_scaled(n, n, 126, 0x80_0000, 1, f);
    lemma_fundamental_div_mod_converse(0x80_0000, 1, 0x80_0000, 0);
}

// ---------------------------------------------------------------------------
// How far rounding goes
// ---------------------------------------------------------------------------

/// The nearest integer is at most half a one away, and more than that below the next half.
pub proof fn integers_are_nearest(units: nat)
    ensures
        2 * (nearest_integer(units) * pow2(149)) <= 2 * units + pow2(149),
        2 * units + pow2(149) < 2 * (nearest_integer(units) * pow2(149)) + 2 * pow2(149),
{
    let p = pow2(149);
    lemma_pow2_pos(149);
    lemma_pow2_unfold(149);
    let t = units + pow2(148);
    let l = nearest_integer(units);
    lemma_fundamental_div_mod(t as int, p as int);
    assert(l * p == p * l) by (nonlinear_arith);
}

/// A product that is rounded in single precision and then to an integer is off by little
/// more than a half.
pub proof fn products_are_nearest(u: nat, c: nat, d: nat)
    requires
        d > 0,
        u * c <= 40_000 * (d * pow2(149)),
    ensures
        256 * (nearest_integer(single_product(u, c, d)) * (d * pow2(149))) <= 256 * (u * c) + 129
            * (d * pow2(149)),
        256 * (u * c) <= 256 * (nearest_integer(single_product(u, c, d)) * (d * pow2(149))) + 129
            * (d * pow2(149)),
{
    let p = pow2(149);
    lemma_pow2_pos(149);
    lemma2_to64();
    lemma_pow2_strictly_increases(24, 149);
    let y = d * p;
    assert(y > 0 && p * d == y) by (nonlinear_arith)
        requires
            y == d * p,
            d > 0,
            p > 0,
    ;
    let v = u * c;
    let w = single_product(u, c, d);
    lemma_nearest_bounds(v, y);
    let wy = w * y;
    let vp = v * p;
    let yp = y * p;
    assert(vp <= 40_000 * yp) by (nonlinear_arith)
        requires
            v <= 40_000 * y,
            vp == v * p,
            yp == y * p,
    ;
    assert(0x100_0000 * y <= yp) by (nonlinear_arith)
        requires
            yp == y * p,
            p >= 0x100_0000,
    ;
    assert(w * y * 0x100_0000 == wy * 0x100_0000);
    // w * y is within a part of 400 of v * p
    assert(400 * wy <= 400 * vp + yp);
    assert(400 * vp <= 400 * wy + yp);
    integers_are_nearest(w);
    let l = nearest_integer(w);
    let lp = l * p;
    let ly = l * y;
    assert(2 * (lp * y) <= 2 * wy + yp && 2 * wy + yp <= 2 * (lp * y) + 2 * yp) by (nonlinear_arith)
        requires
            2 * lp <= 2 * w + p,
            2 * w + p < 2 * lp + 2 * p,
            wy == w * y,
            yp == y * p,
            y > 0,
    ;
    assert(lp * y == ly * p) by (nonlinear_arith)
        requires
            lp == l * p,
            ly == l * y,
    ;
    let lyp = ly * p;
    assert(256 * lyp <= 256 * vp + 129 * yp);
    assert(256 * vp <= 256 * lyp + 129 * yp);
    assert(256 * ly <= 256 * v + 129 * y && 256 * v <= 256 * ly + 129 * y) by (nonlinear_arith)
        requires
            256 * lyp <= 256 * vp + 129 * yp,
            256 * vp <= 256 * lyp + 129 * yp,
            lyp == ly * p,
            vp == v * p,
            yp == y * p,
            p > 0,
    ;
}

/// A quotient and its product with a fraction, each rounded in single precision, and then
/// the product rounded to an integer, are off by little more than a half.
pub proof fn scaled_quotients_are_nearest(a: nat, b: nat, c: nat, d: nat)
    requires
        b > 0,
        d > 0,
        a * c <= 30_000 * (b * d),
        c <= d * pow2(128),
    ensures
        128 * (nearest_integer(single_product(nearest_single(a, b), c, d)) * (b * d)) <= 128 * (a
            * c) + 65 * (b * d),
        128 * (a * c) <= 128 * (nearest_integer(single_product(nearest_single(a, b), c, d)) * (b
            * d)) + 65 * (b * d),
{
    let p = pow2(149);
    lemma_pow2_pos(149);
    lemma_pow2_adds(128, 21);
    lemma2_to64();
    let u = nearest_single(a, b);
    lemma_nearest_bounds(a, b);
    let x = b * d;
    let y = d * p;
    let xp = x * p;
    let ac = a * c;
    let acp = ac * p;
    let uc = u * c;
    let t = uc * b;
    assert(b * c * 0x80_0000 <= 4 * xp) by (nonlinear_arith)
        requires
            c <= d * pow2(128),
            x == b * d,
            xp == x * p,
            p == pow2(128) * 0x20_0000,
    ;
    assert(acp <= 30_000 * xp) by (nonlinear_arith)
        requires
            ac <= 30_000 * x,
            acp == ac * p,
            xp == x * p,
    ;
    assert(t * 0x100_0000 <= acp * 0x100_0001 + b * c * 0x80_0000 && t * 0x100_0000 + b * c
        * 0x80_0000 >= acp * 0xff_ffff) by {
        lemma_bound_times(u * b, a * p, b, c);
        assert((u * b) * c == t) by (nonlinear_arith)
            requires
                t == (u * c) * b,
        ;
        assert((a * p) * c == acp) by (nonlinear_arith)
            requires
                acp == (a * c) * p,
        ;
    }
    assert(512 * t <= 512 * acp + xp);
    assert(512 * acp <= 512 * t + xp);
    assert(xp == b * y) by (nonlinear_arith)
        requires
            xp == x * p,
            x == b * d,
            y == d * p,
    ;
    assert(uc <= 40_000 * y) by (nonlinear_arith)
        requires
            t == uc * b,
            t <= 30_001 * xp,
            xp == b * y,
            b > 0,
    ;
    products_are_nearest(u, c, d);
    let l = nearest_integer(single_product(u, c, d));
    let ly = l * y;
    let lx = l * x;
    let lxp = lx * p;
    assert(lxp == ly * b) by (nonlinear_arith)
        requires
            lxp == (l * x) * p,
            ly == l * y,
            y == d * p,
            x == b * d,
    ;
    assert(256 * lxp <= 256 * t + 129 * xp && 256 * t <= 256 * lxp + 129 * xp) by (nonlinear_arith)
        requires
            256 * ly <= 256 * uc + 129 * y,
            256 * uc <= 256 * ly + 129 * y,
            t == uc * b,
            xp == b * y,
            lxp == ly * b,
            b > 0,
    ;
    assert(128 * lx <= 128 * ac + 65 * x && 128 * ac <= 128 * lx + 65 * x) by (nonlinear_arith)
        requires
            512 * lxp <= 512 * acp + 259 * xp,
            512 * acp <= 512 * lxp + 259 * xp,
            lxp == lx * p,
            acp == ac * p,
            xp == x * p,
            p > 0,
    ;
}

proof fn lemma_bound_times(ub: nat, ap: nat, b: nat, c: nat)
    requires
        ub * 0x100_0000 <= ap * 0x100_0001 + b * 0x80_0000,
        ub * 0x100_0000 + b * 0x80_0000 >= ap * 0xff_ffff,
    ensures
        (ub * c) * 0x100_0000 <= (ap * c) * 0x100_0001 + b * c * 0x80_0000,
        (ub * c) * 0x100_0000 + b * c * 0x80_0000 >= (ap * c) * 0xff_ffff,
{
    assert((ub * c) * 0x100_0000 <= (ap * c) * 0x100_0001 + b * c * 0x80_0000) by (nonlinear_arith)
        requires
            ub * 0x100_0000 <= ap * 0x100_0001 + b * 0x80_0000,
    ;
    assert((ub * c) * 0x100_0000 + b * c * 0x80_0000 >= (ap * c) * 0xff_ffff) by (nonlinear_arith)
        requires
            ub * 0x100_0000 + b * 0x80_0000 >= ap * 0xff_ffff,
    ;
}

/// What is no less than a single-precision number is not rounded to less than that.
pub proof fn lemma_nearest_at_least(num: nat, den: nat, bits: u32)
    requires
        den > 0,
        is_positive_finite(bits),
        num * pow2(149) >= units_of_bits(bits) * den,
    ensures
        nearest_single(num, den) >= units_of_bits(bits),
{
    let n = num * pow2(149);
    let limit = units_of_bits(bits);
    let exponent = (bits / 0x80_0000) as nat;
    let fraction = (bits % 0x80_0000) as nat;
    let j: nat = if exponent == 0 {
        0
    } else {
        (exponent - 1) as nat
    };
    let m: nat = if exponent == 0 {
        fraction
    } else {
        0x80_0000 + fraction
    };
    lemma2_to64();
    lemma_pow2_pos(j);
    assert(limit == m * pow2(j)) by {
        if exponent == 0 {
            assert(m * pow2(j) == m) by (nonlinear_arith)
                requires
                    pow2(j) == 1,
            ;
        }
    }
    let k = single_shift(n, den);
    let b = den * pow2(k);
    lemma_pow2_pos(k);
    assert(b > 0) by (nonlinear_arith)
        requires
            b == den * pow2(k),
            den > 0,
            pow2(k) > 0,
    ;
    let q = n / b;
    lemma_fundamental_div_mod(n as int, b as int);
    assert(half_even(n, b) >= q);
    assert(half_even(n, b) * pow2(k) >= q * pow2(k)) by (nonlinear_arith)
        requires
            half_even(n, b) >= q,
    ;
    if k <= j {
        let whole = m * pow2((j - k) as nat);
        lemma_pow2_adds((j - k) as nat, k);
        assert(whole * pow2(k) == limit) by (nonlinear_arith)
            requires
                whole == m * pow2((j - k) as nat),
                pow2(j) == pow2((j - k) as nat) * pow2(k),
                limit == m * pow2(j),
        ;
        assert(n >= whole * b) by (nonlinear_arith)
            requires
                b == den * pow2(k),
                n >= limit * den,
                whole * pow2(k) == limit,
        ;
        assert(q >= whole) by (nonlinear_arith)
            requires
                n == b * q + n % b,
                n % b < b,
                n >= whole * b,
                b > 0,
        ;
        assert(q * pow2(k) >= whole * pow2(k)) by (nonlinear_arith)
            requires
                q >= whole,
        ;
    } else {
        lemma_single_shift_bounds(n, den);
        assert(q >= 0x80_0000) by (nonlinear_arith)
            requires
                n == b * q + n % b,
                n % b < b,
                n >= b * 0x80_0000,
                b > 0,
        ;
        lemma_pow2_unfold((j + 1) as nat);
        if k > j + 1 {
            lemma_pow2_strictly_increases((j + 1) as nat, k);
        }
        assert(q * pow2(k) >= m * pow2(j)) by (nonlinear_arith)
            requires
                q >= 0x80_0000,
                pow2(k) >= 2 * pow2(j),
                m < 0x100_0000,
                pow2(j) > 0,
        ;
    }
}

/// The quotient of two integers is off by less than a part in a million.
pub proof fn integer_ratios_are_near(n: nat, d: nat)
    requires
        0 < n,
        0 < d <= pow2(64),
    ensures
        (integer_ratio(n, d) * d) * 0x10_0000 <= (n * pow2(149)) * 0x10_0001,
        (n * pow2(149)) * 0xf_ffff <= (integer_ratio(n, d) * d) * 0x10_0000,
{
    let p = pow2(149);
    lemma_pow2_pos(149);
    lemma2_to64();
    lemma_pow2_adds(64, 85);
    lemma_pow2_strictly_increases(64, 85);
    let a = nearest_single(n, 1);
    let b = nearest_single(d, 1);
    let r = nearest_single(a, b);
    let np = n * p;
    let dp = d * p;
    lemma_nearest_bounds(n, 1);
    lemma_nearest_bounds(d, 1);
    assert(p >= pow2(64) * 0x1_0000_0000_0000_0000) by (nonlinear_arith)
        requires
            p == pow2(64) * pow2(85),
            pow2(85) >= 0x1_0000_0000_0000_0000,
    ;
    assert(p <= np && p <= dp) by (nonlinear_arith)
        requires
            np == n * p,
            dp == d * p,
            n > 0,
            d > 0,
    ;
    assert(a * 1 * 0x100_0000 == a * 0x100_0000 && b * 1 * 0x100_0000 == b * 0x100_0000)
        by (nonlinear_arith);
    // a and b are off by two parts in 2^24 at most
    assert(a * 0x100_0000 <= np * 0x100_0002);
    assert(a * 0x100_0000 >= np * 0xff_fffe);
    assert(b * 0x100_0000 <= dp * 0x100_0002);
    assert(b * 0x100_0000 >= dp * 0xff_fffe);
    assert(b > 0);
    lemma_nearest_bounds(a, b);
    let rb = r * b;
    let ap = a * p;
    let rd = r * d;
    let rdp = rd * p;
    let npp = np * p;
    assert(rb * 0x100_0000 <= rdp * 0x100_0002 && rb * 0x100_0000 >= rdp * 0xff_fffe)
        by (nonlinear_arith)
        requires
            b * 0x100_0000 <= dp * 0x100_0002,
            b * 0x100_0000 >= dp * 0xff_fffe,
            rb == r * b,
            rdp == (r * d) * p,
            dp == d * p,
    ;
    assert(ap * 0x100_0000 <= npp * 0x100_0002 && ap * 0x100_0000 >= npp * 0xff_fffe)
        by (nonlinear_arith)
        requires
            a * 0x100_0000 <= np * 0x100_0002,
            a * 0x100_0000 >= np * 0xff_fffe,
            ap == a * p,
            npp == np * p,
    ;
    assert(dp * 0x1_0000_0000_0000_0000 <= npp) by (nonlinear_arith)
        requires
            dp == d * p,
            npp == np * p,
            d <= pow2(64),
            pow2(64) * 0x1_0000_0000_0000_0000 <= p,
            p <= np,
    ;
    assert(r * b * 0x100_0000 == rb * 0x100_0000);
    assert(rb * 0x100_0000 <= ap * 0x100_0001 + b * 0x80_0000);
    assert(rb * 0x100_0000 + b * 0x80_0000 >= ap * 0xff_ffff);
    assert(rdp * 0x10_0000 <= npp * 0x10_0001);
    assert(npp * 0xf_ffff <= rdp * 0x10_0000);
    assert(rd * 0x10_0000 <= np * 0x10_0001 && np * 0xf_ffff <= rd * 0x10_0000)
        by (nonlinear_arith)
        requires
            rdp * 0x10_0000 <= npp * 0x10_0001,
            npp * 0xf_ffff <= rdp * 0x10_0000,
            rdp == rd * p,
            npp == np * p,
            p > 0,
    ;
}

} // verus!
