//! The sizes at which a vector image is drawn.
//!
//! A document states its size in single-precision numbers. They are handed over
//! as their bits, and everything that follows from them is exact.

use vstd::prelude::*;
use vstd::arithmetic::div_mod::{
    lemma_div_is_ordered, lemma_fundamental_div_mod, lemma_fundamental_div_mod_converse,
};
use vstd::arithmetic::power2::{
    lemma2_to64, lemma2_to64_rest, lemma_pow2_adds, lemma_pow2_pos, lemma_pow2_strictly_increases,
    lemma_pow2_unfold, pow2,
};
use crate::single::{
    integers_are_nearest, is_positive_finite, lemma_half_even_scale, lemma_nearest_at_least,
    lemma_nearest_at_most, lemma_nearest_bounds, lemma_nearest_scaled, lemma_nearest_single,
    lemma_nearest_zero, lemma_quotient_range, nearest_integer, nearest_single, products_are_nearest,
    round_quotient, scaled_quotients_are_nearest, scaled_to_24_bits, single_product, units_of_bits,
    Single,
};

verus! {

/// The most columns of a preview.
pub const PREVIEW_MAX_WIDTH: u32 = 960;

/// The most rows of a preview.
pub const PREVIEW_MAX_HEIGHT: u32 = 540;

/// The most columns and rows of a thumbnail.
pub const THUMBNAIL_SIZE: u32 = 16;

// ---------------------------------------------------------------------------
// Model
// ---------------------------------------------------------------------------

/// The whole number of pixels for a length: at least one.
pub open spec fn whole_pixels(units: nat) -> nat {
    let n = nearest_integer(units);
    if n == 0 {
        1
    } else if n > u32::MAX {
        u32::MAX as nat
    } else {
        n
    }
}

pub open spec fn smaller(a: nat, b: nat) -> nat {
    if a <= b {
        a
    } else {
        b
    }
}

/// The single-precision scale, in units of 2^-149, that fits a document into a
/// box without enlarging it.
pub open spec fn fitting_scale(width: nat, height: nat, max_width: nat, max_height: nat) -> nat {
    smaller(
        smaller(
            nearest_single(max_width * pow2(149), width),
            nearest_single(max_height * pow2(149), height),
        ),
        pow2(149),
    )
}

/// A length after scaling, in whole pixels.
pub open spec fn scaled_pixels(units: nat, scale: nat) -> nat {
    whole_pixels(single_product(scale, units, pow2(149)))
}

/// A size in pixels, and the bits of the scale at which a document has it.
#[derive(Clone, Copy, Debug, PartialEq, Eq, Structural)]
pub struct ScaledSize {
    pub width: u32,
    pub height: u32,
    pub scale: u32,
}

/// The sizes at which a document is shown.
#[derive(Clone, Copy, Debug, PartialEq, Eq, Structural)]
pub struct SvgLayout {
    pub width: u32,
    pub height: u32,
    pub preview: ScaledSize,
    pub thumbnail: ScaledSize,
}

/// Whether `r` is the size of a document that is fitted into a box.
pub open spec fn fits_box(
    r: ScaledSize,
    width: nat,
    height: nat,
    max_width: nat,
    max_height: nat,
) -> bool {
    let scale = fitting_scale(width, height, max_width, max_height);
    &&& is_positive_finite(r.scale)
    &&& units_of_bits(r.scale) == scale
    &&& r.width == scaled_pixels(width, scale)
    &&& r.height == scaled_pixels(height, scale)
}

/// Whether `r` is the layout of a document of the given size.
pub open spec fn lays_out(r: SvgLayout, width: nat, height: nat) -> bool {
    &&& r.width == whole_pixels(width)
    &&& r.height == whole_pixels(height)
    &&& fits_box(
        r.preview,
        width,
        height,
        PREVIEW_MAX_WIDTH as nat,
        PREVIEW_MAX_HEIGHT as nat,
    )
    &&& fits_box(r.thumbnail, width, height, THUMBNAIL_SIZE as nat, THUMBNAIL_SIZE as nat)
}

/// Whether `r` is the layout of a document of some size.
pub open spec fn is_layout(r: SvgLayout) -> bool {
    exists|width: u32, height: u32|
        #![trigger units_of_bits(width), units_of_bits(height)]
        is_positive_finite(width) && is_positive_finite(height) && lays_out(
            r,
            units_of_bits(width),
            units_of_bits(height),
        )
}

// ---------------------------------------------------------------------------
// Numbers
// ---------------------------------------------------------------------------

/// `mantissa * 2^shift` units of 2^-149.
#[derive(Clone, Copy)]
struct Units {
    mantissa: u64,
    shift: u32,
}

impl Units {
    spec fn value(self) -> nat {
        self.mantissa as nat * pow2(self.shift as nat)
    }

    /// All 24 bits of the mantissa are in use.
    spec fn full(self) -> bool {
        0x80_0000 <= self.mantissa < 0x100_0000
    }
}

fn units(bits: u32) -> (r: Units)
    requires
        is_positive_finite(bits),
    ensures
        r.value() == units_of_bits(bits),
        0 < r.mantissa < 0x100_0000,
        r.mantissa < 0x80_0000 ==> r.shift == 0,
        r.shift <= 253,
{
    let fraction: u32 = bits % 0x80_0000;
    let exponent: u32 = bits / 0x80_0000;
    if exponent == 0 {
        proof {
            lemma2_to64();
            assert(fraction * pow2(0) == fraction) by (nonlinear_arith)
                requires
                    pow2(0) == 1,
            ;
        }
        Units { mantissa: fraction as u64, shift: 0 }
    } else {
        Units { mantissa: 0x80_0000 + fraction as u64, shift: exponent - 1 }
    }
}

/// The single-precision quotient of `n` and `x`.
fn quotient(n: u32, x: Units) -> (r: Units)
    requires
        16 <= n <= 960,
        0 < x.mantissa < 0x100_0000,
        x.shift <= 253,
    ensures
        r.full(),
        r.shift <= 400,
        r.value() == nearest_single(n as nat * pow2(149), x.value()),
{
    let (a, b, e) = scaled_to_24_bits(n as u64, x.mantissa as u32);
    proof {
        lemma_quotient_range(a as nat, b as nat);
        if e <= -44 {
            lemma2_to64_rest();
            if -e > 44 {
                lemma_pow2_strictly_increases(44, (-e) as nat);
            }
            assert(n * pow2((-e) as nat) >= 16 * 0x1000_0000_0000) by (nonlinear_arith)
                requires
                    n >= 16,
                    pow2((-e) as nat) >= 0x1000_0000_0000,
            ;
        }
    }
    let m = round_quotient(a, false, b);
    let shift: u32 = (298 + e - x.shift as i32) as u32;
    proof {
        let num = n as nat * pow2(149);
        let den = x.value();
        let w = x.mantissa as nat;
        lemma_pow2_adds(149, 149);
        lemma_pow2_adds(x.shift as nat, shift as nat);
        lemma_pow2_pos(x.shift as nat);
        assert(den > 0 && den * pow2(shift as nat) == w * pow2((298 + e) as nat))
            by (nonlinear_arith)
            requires
                den == w * pow2(x.shift as nat),
                pow2((298 + e) as nat) == pow2(x.shift as nat) * pow2(shift as nat),
                w > 0,
                pow2(x.shift as nat) > 0,
        ;
        assert(num * pow2(149) == n as nat * pow2(298)) by (nonlinear_arith)
            requires
                num == n as nat * pow2(149),
                pow2(298) == pow2(149) * pow2(149),
        ;
        if e > 0 {
            let f = pow2(298);
            lemma_pow2_pos(298);
            lemma_pow2_adds(298, e as nat);
            assert(w * pow2((298 + e) as nat) == b * f) by (nonlinear_arith)
                requires
                    pow2((298 + e) as nat) == pow2(298) * pow2(e as nat),
                    b == w * pow2(e as nat),
                    f == pow2(298),
            ;
            lemma_nearest_scaled(num, den, shift as nat, a as nat, b as nat, f);
        } else {
            let f = pow2((298 + e) as nat);
            lemma_pow2_pos((298 + e) as nat);
            lemma_pow2_adds((298 + e) as nat, (-e) as nat);
            assert(n as nat * pow2(298) == a * f) by (nonlinear_arith)
                requires
                    pow2(298) == f * pow2((-e) as nat),
                    a == n * pow2((-e) as nat),
            ;
            lemma_nearest_scaled(num, den, shift as nat, a as nat, b as nat, f);
        }
    }
    if m == 0x100_0000 {
        proof {
            lemma_pow2_unfold((shift + 1) as nat);
            assert(0x80_0000 * pow2((shift + 1) as nat) == 0x100_0000 * pow2(shift as nat));
        }
        Units { mantissa: 0x80_0000, shift: shift + 1 }
    } else {
        Units { mantissa: m as u64, shift }
    }
}

proof fn lemma_order(a: Units, b: Units)
    requires
        a.full(),
        b.full(),
        a.shift < b.shift,
    ensures
        a.value() < b.value(),
{
    let p = pow2(a.shift as nat);
    lemma_pow2_unfold((a.shift + 1) as nat);
    if a.shift + 1 < b.shift {
        lemma_pow2_strictly_increases((a.shift + 1) as nat, b.shift as nat);
    }
    lemma_pow2_pos(a.shift as nat);
    let q = pow2(b.shift as nat);
    assert(a.mantissa as nat * p < b.mantissa as nat * q) by (nonlinear_arith)
        requires
            a.mantissa < 0x100_0000,
            b.mantissa >= 0x80_0000,
            q >= 2 * p,
            p > 0,
    ;
}

fn least(a: Units, b: Units) -> (r: Units)
    requires
        a.full(),
        b.full(),
    ensures
        r.full(),
        r.shift <= a.shift,
        r.shift <= b.shift,
        r.value() == smaller(a.value(), b.value()),
{
    if a.shift < b.shift {
        proof {
            lemma_order(a, b);
        }
        a
    } else if b.shift < a.shift {
        proof {
            lemma_order(b, a);
        }
        b
    } else {
        proof {
            lemma_pow2_pos(a.shift as nat);
            assert(a.mantissa <= b.mantissa <==> a.mantissa as nat * pow2(a.shift as nat)
                <= b.mantissa as nat * pow2(a.shift as nat)) by (nonlinear_arith)
                requires
                    pow2(a.shift as nat) > 0,
            ;
        }
        if a.mantissa <= b.mantissa {
            a
        } else {
            b
        }
    }
}

proof fn lemma_product_value(a: Units, b: Units)
    ensures
        a.value() * b.value() == (a.mantissa as nat * b.mantissa as nat) * pow2(
            (a.shift + b.shift) as nat,
        ),
{
    lemma_pow2_adds(a.shift as nat, b.shift as nat);
    let p = pow2(a.shift as nat);
    let q = pow2(b.shift as nat);
    let m = a.mantissa as nat;
    let n = b.mantissa as nat;
    assert((m * p) * (n * q) == (m * n) * (p * q)) by (nonlinear_arith);
}

/// The single-precision product of a scale and a length.
fn product(scale: Units, x: Units) -> (r: Units)
    requires
        scale.full(),
        scale.shift <= 400,
        0 < x.mantissa < 0x100_0000,
        x.shift <= 253,
    ensures
        r.mantissa <= 0x100_0000,
        r.mantissa < 0x80_0000 ==> r.shift == 0,
        r.shift <= 600,
        r.value() == single_product(scale.value(), x.value(), pow2(149)),
{
    assert(0x80_0000 <= scale.mantissa * x.mantissa < 0x1_0000_0000_0000) by (nonlinear_arith)
        requires
            0x80_0000 <= scale.mantissa < 0x100_0000,
            0 < x.mantissa < 0x100_0000,
    ;
    let p: u128 = scale.mantissa as u128 * x.mantissa as u128;
    let sum: u32 = scale.shift + x.shift;
    let ghost num = scale.value() * x.value();
    let ghost den = pow2(149) * pow2(149);
    proof {
        lemma_product_value(scale, x);
        lemma_pow2_adds(149, 149);
        lemma_pow2_adds(sum as nat, 149);
        lemma_pow2_pos(298);
        assert(num * pow2(149) == p * pow2((sum + 149) as nat)) by (nonlinear_arith)
            requires
                num == p * pow2(sum as nat),
                pow2((sum + 149) as nat) == pow2(sum as nat) * pow2(149),
        ;
    }
    let under: u32 = if sum < 149 {
        149 - sum
    } else {
        0
    };
    if under > 48 {
        proof {
            lemma_pow2_adds(sum as nat, 150);
            lemma_pow2_adds(48, (sum + 150) as nat);
            lemma2_to64_rest();
            if sum + 198 < 298 {
                lemma_pow2_strictly_increases((sum + 198) as nat, 298);
            }
            assert(num * pow2(150) <= den) by (nonlinear_arith)
                requires
                    num == p * pow2(sum as nat),
                    pow2((sum + 150) as nat) == pow2(sum as nat) * pow2(150),
                    p <= 0x1_0000_0000_0000,
                    0x1_0000_0000_0000 * pow2((sum + 150) as nat) <= den,
            ;
            lemma_nearest_zero(num, den);
        }
        return Units { mantissa: 0, shift: 0 };
    }
    let mut b: u128 = 1;
    let mut i: u32 = 0;
    proof {
        lemma2_to64();
    }
    while i < under
        invariant
            i <= under <= 48,
            b == pow2(i as nat),
        decreases under - i,
    {
        proof {
            lemma_pow2_unfold((i + 1) as nat);
            lemma2_to64_rest();
            lemma_pow2_strictly_increases(i as nat, 48);
        }
        b = b * 2;
        i = i + 1;
    }
    let mut t: u32 = 0;
    proof {
        lemma_pow2_pos(under as nat);
        lemma2_to64_rest();
        if under < 48 {
            lemma_pow2_strictly_increases(under as nat, 48);
        }
    }
    while p >= b * 0x100_0000
        invariant
            0x80_0000 <= p < 0x1_0000_0000_0000,
            under <= 48,
            t <= 24,
            b == pow2((under + t) as nat),
            0 < b <= 0x1_0000_0000_0000,
            t > 0 ==> b * 0x80_0000 <= p,
            under == 0 ==> b * 0x80_0000 <= p,
        decreases 25 - t,
    {
        proof {
            lemma_pow2_unfold((under + t + 1) as nat);
            lemma2_to64();
            if t == 24 {
                if under > 0 {
                    lemma_pow2_strictly_increases(24, (under + 24) as nat);
                }
                assert(false);
            }
        }
        b = b * 2;
        t = t + 1;
    }
    assert(p / b < 0x100_0000) by {
        lemma_fundamental_div_mod(p as int, b as int);
        assert(p / b < 0x100_0000) by (nonlinear_arith)
            requires
                p == b * (p / b) + p % b,
                0 <= p % b,
                p < b * 0x100_0000,
                b > 0,
        ;
    }
    let m = round_quotient(p, false, b);
    let shift: u32 = if sum < 149 {
        t
    } else {
        t + (sum - 149)
    };
    proof {
        let k = shift as nat;
        let f = pow2((sum + 149) as nat);
        lemma_pow2_pos((sum + 149) as nat);
        lemma_pow2_adds(298, k);
        lemma_pow2_adds((under + t) as nat, (sum + 149) as nat);
        assert(298 + k == under + t + sum + 149);
        assert(den * pow2(k) == b * f);
        if b * 0x80_0000 <= p {
            lemma_quotient_range(p as nat, b as nat);
            lemma_nearest_scaled(num, den, k, p as nat, b as nat, f);
        } else {
            lemma2_to64();
            lemma_pow2_adds(k, 24);
            assert(k == 0);
            assert(den * pow2((k + 24) as nat) == (b * f) * 0x100_0000) by (nonlinear_arith)
                requires
                    den * pow2(k) == b * f,
                    pow2((k + 24) as nat) == pow2(k) * 0x100_0000,
            ;
            assert(p * f < (b * f) * 0x100_0000) by (nonlinear_arith)
                requires
                    p < b * 0x100_0000,
                    f > 0,
            ;
            assert(p * f == f * p && b * f == f * b) by (nonlinear_arith);
            lemma_half_even_scale(p as nat, b as nat, f);
            lemma_nearest_single(num, den, k, m as nat);
        }
    }
    Units { mantissa: m as u64, shift }
}

/// A length in whole pixels.
fn whole(x: Units) -> (r: u32)
    requires
        x.mantissa <= 0x100_0000,
        x.mantissa < 0x80_0000 ==> x.shift == 0,
    ensures
        r == whole_pixels(x.value()),
{
    proof {
        lemma2_to64();
        lemma_pow2_unfold(149);
        lemma_pow2_pos(148);
    }
    if x.shift >= 149 {
        let e: u32 = x.shift - 149;
        let ghost v = x.mantissa as nat * pow2(e as nat);
        proof {
            lemma_pow2_adds(e as nat, 149);
            assert(x.value() == v * pow2(149)) by (nonlinear_arith)
                requires
                    x.value() == x.mantissa as nat * pow2(x.shift as nat),
                    pow2(x.shift as nat) == pow2(e as nat) * pow2(149),
                    v == x.mantissa as nat * pow2(e as nat),
            ;
            lemma_fundamental_div_mod_converse(
                (x.value() + pow2(148)) as int,
                pow2(149) as int,
                v as int,
                pow2(148) as int,
            );
            assert(nearest_integer(x.value()) == v);
        }
        if e >= 16 {
            proof {
                if e > 16 {
                    lemma_pow2_strictly_increases(16, e as nat);
                }
                assert(v >= 0x80_0000 * 0x1_0000) by (nonlinear_arith)
                    requires
                        v == x.mantissa as nat * pow2(e as nat),
                        x.mantissa >= 0x80_0000,
                        pow2(e as nat) >= 0x1_0000,
                ;
            }
            return u32::MAX;
        }
        let mut n: u64 = x.mantissa;
        let mut i: u32 = 0;
        proof {
            assert(x.mantissa as nat * pow2(0) == x.mantissa) by (nonlinear_arith)
                requires
                    pow2(0) == 1,
            ;
        }
        while i < e
            invariant
                i <= e < 16,
                x.mantissa <= 0x100_0000,
                n == x.mantissa as nat * pow2(i as nat),
                pow2(i as nat) <= 0x8000,
            decreases e - i,
        {
            proof {
                lemma_pow2_unfold((i + 1) as nat);
                assert(n <= 0x100_0000 * 0x8000 && x.mantissa as nat * pow2((i + 1) as nat) == 2
                    * n) by (nonlinear_arith)
                    requires
                        n == x.mantissa as nat * pow2(i as nat),
                        x.mantissa <= 0x100_0000,
                        pow2(i as nat) <= 0x8000,
                        pow2((i + 1) as nat) == 2 * pow2(i as nat),
                ;
                lemma2_to64();
                if i + 1 < 15 {
                    lemma_pow2_strictly_increases((i + 1) as nat, 15);
                }
            }
            n = n * 2;
            i = i + 1;
        }
        proof {
            lemma_pow2_pos(e as nat);
            assert(v > 0) by (nonlinear_arith)
                requires
                    v == x.mantissa as nat * pow2(e as nat),
                    x.mantissa > 0,
                    pow2(e as nat) > 0,
            ;
        }
        if n > u32::MAX as u64 {
            u32::MAX
        } else {
            n as u32
        }
    } else if x.shift < 89 {
        proof {
            lemma_pow2_strictly_increases(x.shift as nat, 89);
            lemma_pow2_adds(24, 89);
            lemma_pow2_strictly_increases(113, 148);
            assert(x.value() < pow2(148)) by (nonlinear_arith)
                requires
                    x.value() == x.mantissa as nat * pow2(x.shift as nat),
                    x.mantissa <= 0x100_0000,
                    pow2(x.shift as nat) < pow2(89),
                    pow2(113) == 0x100_0000 * pow2(89),
                    pow2(113) < pow2(148),
            ;
            lemma_fundamental_div_mod_converse(
                (x.value() + pow2(148)) as int,
                pow2(149) as int,
                0,
                (x.value() + pow2(148)) as int,
            );
        }
        1
    } else {
        let number = Single { mantissa: x.mantissa, exponent: x.shift as i32 - 149 };
        let n = number.round();
        if n == 0 {
            1
        } else if n > u32::MAX as u64 {
            u32::MAX
        } else {
            n as u32
        }
    }
}

// ---------------------------------------------------------------------------
// Layout
// ---------------------------------------------------------------------------

fn fitted(width: Units, height: Units, max_width: u32, max_height: u32) -> (r: ScaledSize)
    requires
        0 < width.mantissa < 0x100_0000,
        width.shift <= 253,
        0 < height.mantissa < 0x100_0000,
        height.shift <= 253,
        16 <= max_width <= 960,
        16 <= max_height <= 960,
    ensures
        fits_box(r, width.value(), height.value(), max_width as nat, max_height as nat),
{
    let one = Units { mantissa: 0x80_0000, shift: 126 };
    proof {
        lemma_pow2_adds(23, 126);
        lemma2_to64();
    }
    let across = quotient(max_width, width);
    let down = quotient(max_height, height);
    let scale = least(least(across, down), one);
    let bits: u32 = (scale.shift + 1) * 0x80_0000 + (scale.mantissa as u32 - 0x80_0000);
    proof {
        lemma_fundamental_div_mod_converse(
            bits as int,
            0x80_0000,
            scale.shift + 1,
            scale.mantissa - 0x80_0000,
        );
    }
    ScaledSize {
        width: whole(product(scale, width)),
        height: whole(product(scale, height)),
        scale: bits,
    }
}

/// The sizes at which a document is shown whose width and height have the given
/// bits.
pub fn svg_layout(width: u32, height: u32) -> (r: SvgLayout)
    requires
        is_positive_finite(width),
        is_positive_finite(height),
    ensures
        lays_out(r, units_of_bits(width), units_of_bits(height)),
        is_layout(r),
{
    let across = units(width);
    let down = units(height);
    SvgLayout {
        width: whole(across),
        height: whole(down),
        preview: fitted(across, down, PREVIEW_MAX_WIDTH, PREVIEW_MAX_HEIGHT),
        thumbnail: fitted(across, down, THUMBNAIL_SIZE, THUMBNAIL_SIZE),
    }
}

// ---------------------------------------------------------------------------
// Laws
// ---------------------------------------------------------------------------

/// A length that is scaled by at most `max / length` has at most `max` pixels.
proof fn lemma_scaled_length(units: nat, scale: nat, max: nat)
    requires
        0 < units <= pow2(277),
        scale <= nearest_single(max * pow2(149), units),
        1 <= max <= 0x10000,
    ensures
        scaled_pixels(units, scale) <= max,
{
    let one = pow2(149);
    let full = one * one;
    let most = nearest_single(max * one, units);
    let r = nearest_single(scale * units, full);
    lemma_pow2_adds(149, 149);
    lemma_pow2_pos(149);
    lemma_pow2_pos(277);
    lemma2_to64();
    lemma_pow2_adds(277, 21);
    assert(units * 0x20_0000 <= full) by (nonlinear_arith)
        requires
            units <= pow2(277),
            full == pow2(277) * 0x20_0000,
    ;
    lemma_nearest_bounds(max * one, units);
    assert((max * one) * one == max * full) by (nonlinear_arith)
        requires
            full == one * one,
    ;
    assert(most * units * 0x100_0000 <= (max * full) * 0x100_0001 + units * 0x80_0000);
    assert(scale * units <= most * units) by (nonlinear_arith)
        requires
            scale <= most,
    ;
    let z = max * full;
    assert(full <= z) by (nonlinear_arith)
        requires
            z == max * full,
            max >= 1,
    ;
    // scale * units <= z * (1 + 2^-21)
    assert((scale * units) * 0x20_0000 <= z * 0x20_0001);
    lemma_nearest_bounds(scale * units, full);
    let v = scale * units;
    assert((v * one) * 0x20_0000 <= (z * one) * 0x20_0001) by (nonlinear_arith)
        requires
            v * 0x20_0000 <= z * 0x20_0001,
    ;
    assert(r * full * 0x100_0000 <= (v * one) * 0x100_0001 + full * 0x80_0000);
    assert(full <= z * one) by (nonlinear_arith)
        requires
            full <= z,
            one >= 1,
    ;
    lemma_pow2_strictly_increases(24, 149);
    assert(full * 0x80_0000 <= z * one) by (nonlinear_arith)
        requires
            full <= z,
            one >= 0x100_0000,
            full > 0,
    ;
    // r * full <= z * one * (1 + 2^-20)
    let y = z * one;
    assert(r * full * 0x10_0000 <= y * 0x10_0001);
    assert(y == (max * one) * full) by (nonlinear_arith)
        requires
            y == z * one,
            z == max * full,
    ;
    assert(r * 0x10_0000 <= (max * one) * 0x10_0001) by (nonlinear_arith)
        requires
            r * full * 0x10_0000 <= y * 0x10_0001,
            y == (max * one) * full,
            full > 0,
    ;
    lemma_pow2_unfold(149);
    assert(max * one <= 0x10000 * one) by (nonlinear_arith)
        requires
            max <= 0x10000,
    ;
    assert(r < max * one + pow2(148));
    let n = r + pow2(148);
    lemma_fundamental_div_mod(n as int, one as int);
    assert(n / one <= max) by (nonlinear_arith)
        requires
            n == one * (n / one) + n % one,
            n % one >= 0,
            n < max * one + one,
            one > 0,
    ;
}

proof fn lemma_units_bound(bits: u32)
    requires
        is_positive_finite(bits),
    ensures
        0 < units_of_bits(bits) <= pow2(277),
{
    let exponent = bits / 0x80_0000;
    let fraction = bits % 0x80_0000;
    lemma2_to64();
    lemma_fundamental_div_mod(bits as int, 0x80_0000);
    if exponent == 0 {
        lemma_pow2_strictly_increases(23, 277);
    } else {
        let p = pow2((exponent - 1) as nat);
        lemma_pow2_pos((exponent - 1) as nat);
        if exponent - 1 < 253 {
            lemma_pow2_strictly_increases((exponent - 1) as nat, 253);
        }
        lemma_pow2_adds(24, 253);
        assert(0 < (0x80_0000 + fraction) * p <= 0x100_0000 * pow2(253)) by (nonlinear_arith)
            requires
                0 <= fraction < 0x80_0000,
                0 < p <= pow2(253),
        ;
    }
}

/// A length that is scaled by at most one has no more pixels than before.
proof fn lemma_not_enlarged(bits: u32, scale: nat)
    requires
        is_positive_finite(bits),
        scale <= pow2(149),
    ensures
        scaled_pixels(units_of_bits(bits), scale) <= whole_pixels(units_of_bits(bits)),
{
    let units = units_of_bits(bits);
    let one = pow2(149);
    lemma_pow2_pos(149);
    assert(one * one > 0 && (scale * units) * one <= units * (one * one)) by (nonlinear_arith)
        requires
            scale <= one,
            one > 0,
    ;
    lemma_nearest_at_most(scale * units, one * one, bits);
    let scaled = single_product(scale, units, one);
    lemma_div_is_ordered((scaled + pow2(148)) as int, (units + pow2(148)) as int, one as int);
}

/// A preview never exceeds 960 by 540 pixels and a thumbnail never 16 by 16; no
/// drawing is empty, and none is larger than the document.
pub proof fn svg_layout_is_bounded(r: SvgLayout, width: u32, height: u32)
    requires
        is_positive_finite(width),
        is_positive_finite(height),
        lays_out(r, units_of_bits(width), units_of_bits(height)),
    ensures
        1 <= r.preview.width <= smaller(PREVIEW_MAX_WIDTH as nat, r.width as nat),
        1 <= r.preview.height <= smaller(PREVIEW_MAX_HEIGHT as nat, r.height as nat),
        1 <= r.thumbnail.width <= smaller(THUMBNAIL_SIZE as nat, r.width as nat),
        1 <= r.thumbnail.height <= smaller(THUMBNAIL_SIZE as nat, r.height as nat),
        units_of_bits(r.preview.scale) <= pow2(149),
        units_of_bits(r.thumbnail.scale) <= pow2(149),
{
    let w = units_of_bits(width);
    let h = units_of_bits(height);
    lemma_units_bound(width);
    lemma_units_bound(height);
    let preview = units_of_bits(r.preview.scale);
    let thumbnail = units_of_bits(r.thumbnail.scale);
    lemma_scaled_length(w, preview, PREVIEW_MAX_WIDTH as nat);
    lemma_scaled_length(h, preview, PREVIEW_MAX_HEIGHT as nat);
    lemma_scaled_length(w, thumbnail, THUMBNAIL_SIZE as nat);
    lemma_scaled_length(h, thumbnail, THUMBNAIL_SIZE as nat);
    lemma_not_enlarged(width, preview);
    lemma_not_enlarged(height, preview);
    lemma_not_enlarged(width, thumbnail);
    lemma_not_enlarged(height, thumbnail);
}

/// What `svg_layout_is_bounded` says, of every layout.
pub(crate) proof fn lemma_layout_is_bounded(r: SvgLayout)
    requires
        is_layout(r),
    ensures
        1 <= r.preview.width <= smaller(PREVIEW_MAX_WIDTH as nat, r.width as nat),
        1 <= r.preview.height <= smaller(PREVIEW_MAX_HEIGHT as nat, r.height as nat),
        1 <= r.thumbnail.width <= smaller(THUMBNAIL_SIZE as nat, r.width as nat),
        1 <= r.thumbnail.height <= smaller(THUMBNAIL_SIZE as nat, r.height as nat),
{
    let (width, height) = choose|width: u32, height: u32|
        #![trigger units_of_bits(width), units_of_bits(height)]
        is_positive_finite(width) && is_positive_finite(height) && lays_out(
            r,
            units_of_bits(width),
            units_of_bits(height),
        );
    svg_layout_is_bounded(r, width, height);
}

/// A document has the whole number of pixels nearest to its size, but at least one, and no
/// more than can be counted.
pub proof fn documents_have_the_nearest_size(units: nat)
    ensures
        1 <= whole_pixels(units) <= u32::MAX,
        2 * (whole_pixels(units) * pow2(149)) <= 2 * units + pow2(149) || whole_pixels(units) == 1,
        2 * units + pow2(149) < 2 * (whole_pixels(units) * pow2(149)) + 2 * pow2(149)
            || whole_pixels(units) == u32::MAX,
{
    let p = pow2(149);
    lemma_pow2_pos(149);
    integers_are_nearest(units);
    let n = nearest_integer(units);
    if n > u32::MAX {
        let most = u32::MAX as nat;
        assert(most * p <= n * p) by (nonlinear_arith)
            requires
                most <= n,
        ;
    }
    if n == 0 {
        assert(0 * p == 0) by (nonlinear_arith);
    }
}

proof fn lemma_one()
    ensures
        units_of_bits(0x3f80_0000) == pow2(149),
{
    let bits: u32 = 0x3f80_0000;
    lemma2_to64();
    lemma_pow2_adds(23, 126);
    assert(bits / 0x80_0000 == 127 && bits % 0x80_0000 == 0);
}

proof fn lemma_small_keeps_size(
    r: ScaledSize,
    width: u32,
    height: u32,
    max_width: nat,
    max_height: nat,
)
    requires
        is_positive_finite(width),
        is_positive_finite(height),
        fits_box(r, units_of_bits(width), units_of_bits(height), max_width, max_height),
        units_of_bits(width) <= max_width * pow2(149),
        units_of_bits(height) <= max_height * pow2(149),
    ensures
        units_of_bits(r.scale) == pow2(149),
        r.width == whole_pixels(units_of_bits(width)),
        r.height == whole_pixels(units_of_bits(height)),
{
    let one = pow2(149);
    lemma_one();
    lemma_pow2_pos(149);
    lemma_ratio_at_least_one(width, max_width);
    lemma_ratio_at_least_one(height, max_height);
    lemma_unscaled(width);
    lemma_unscaled(height);
}

proof fn lemma_ratio_at_least_one(bits: u32, max: nat)
    requires
        is_positive_finite(bits),
        units_of_bits(bits) <= max * pow2(149),
    ensures
        nearest_single(max * pow2(149), units_of_bits(bits)) >= pow2(149),
{
    let one = pow2(149);
    let units = units_of_bits(bits);
    lemma_one();
    lemma_units_bound(bits);
    assert((max * one) * one >= one * units) by (nonlinear_arith)
        requires
            units <= max * one,
    ;
    lemma_nearest_at_least(max * one, units, 0x3f80_0000);
}

proof fn lemma_unscaled(bits: u32)
    requires
        is_positive_finite(bits),
    ensures
        scaled_pixels(units_of_bits(bits), pow2(149)) == whole_pixels(units_of_bits(bits)),
{
    let one = pow2(149);
    let units = units_of_bits(bits);
    lemma_pow2_pos(149);
    assert(one * one > 0 && (one * units) * one == units * (one * one)) by (nonlinear_arith)
        requires
            one > 0,
    ;
    lemma_nearest_at_most(one * units, one * one, bits);
    lemma_nearest_at_least(one * units, one * one, bits);
}

/// A document that fits is drawn at its own size, as a preview and as a thumbnail.
pub proof fn small_documents_keep_their_size(r: SvgLayout, width: u32, height: u32)
    requires
        is_positive_finite(width),
        is_positive_finite(height),
        lays_out(r, units_of_bits(width), units_of_bits(height)),
    ensures
        units_of_bits(width) <= 960 * pow2(149) && units_of_bits(height) <= 540 * pow2(149) ==> {
            &&& units_of_bits(r.preview.scale) == pow2(149)
            &&& r.preview.width == r.width
            &&& r.preview.height == r.height
        },
        units_of_bits(width) <= 16 * pow2(149) && units_of_bits(height) <= 16 * pow2(149) ==> {
            &&& units_of_bits(r.thumbnail.scale) == pow2(149)
            &&& r.thumbnail.width == r.width
            &&& r.thumbnail.height == r.height
        },
{
    if units_of_bits(width) <= 960 * pow2(149) && units_of_bits(height) <= 540 * pow2(149) {
        lemma_small_keeps_size(r.preview, width, height, 960, 540);
    }
    if units_of_bits(width) <= 16 * pow2(149) && units_of_bits(height) <= 16 * pow2(149) {
        lemma_small_keeps_size(r.thumbnail, width, height, 16, 16);
    }
}

proof fn lemma_side_is_filled(bits: u32, max: nat)
    requires
        is_positive_finite(bits),
        1 <= max <= 960,
    ensures
        scaled_pixels(
            units_of_bits(bits),
            nearest_single(max * pow2(149), units_of_bits(bits)),
        ) == max,
        units_of_bits(bits) > max * pow2(149) ==> nearest_single(
            max * pow2(149),
            units_of_bits(bits),
        ) <= pow2(149),
{
    let one = pow2(149);
    let units = units_of_bits(bits);
    lemma_pow2_pos(149);
    lemma_units_bound(bits);
    lemma_pow2_adds(149, 128);
    let x = units * one;
    assert(x > 0 && (max * one) * units == max * x) by (nonlinear_arith)
        requires
            x == units * one,
            units > 0,
            one > 0,
    ;
    assert(max * x <= 30_000 * x) by (nonlinear_arith)
        requires
            max <= 960,
    ;
    scaled_quotients_are_nearest(max * one, units, units, one);
    let n = nearest_integer(
        single_product(nearest_single(max * one, units), units, one),
    );
    assert(n == max) by (nonlinear_arith)
        requires
            128 * (n * x) <= 128 * (max * x) + 65 * x,
            128 * (max * x) <= 128 * (n * x) + 65 * x,
            x > 0,
    ;
    if units > max * one {
        lemma_one();
        assert((max * one) * one <= one * units) by (nonlinear_arith)
            requires
                units > max * one,
        ;
        lemma_nearest_at_most(max * one, units, 0x3f80_0000);
    }
}

/// A document that does not fit fills its box in one direction.
pub proof fn large_documents_fill_the_box(r: SvgLayout, width: u32, height: u32)
    requires
        is_positive_finite(width),
        is_positive_finite(height),
        lays_out(r, units_of_bits(width), units_of_bits(height)),
    ensures
        units_of_bits(width) > 960 * pow2(149) || units_of_bits(height) > 540 * pow2(149)
            ==> r.preview.width == 960 || r.preview.height == 540,
        units_of_bits(width) > 16 * pow2(149) || units_of_bits(height) > 16 * pow2(149)
            ==> r.thumbnail.width == 16 || r.thumbnail.height == 16,
{
    lemma_side_is_filled(width, 960);
    lemma_side_is_filled(height, 540);
    lemma_side_is_filled(width, 16);
    lemma_side_is_filled(height, 16);
}

proof fn lemma_side_is_nearest(units: nat, scale: nat, max: nat)
    requires
        0 < units <= pow2(277),
        scale <= nearest_single(max * pow2(149), units),
        1 <= max <= 960,
    ensures
        256 * (scaled_pixels(units, scale) * (pow2(149) * pow2(149))) <= 256 * (scale * units)
            + 129 * (pow2(149) * pow2(149)) || scaled_pixels(units, scale) == 1,
        256 * (scale * units) <= 256 * (scaled_pixels(units, scale) * (pow2(149) * pow2(149)))
            + 129 * (pow2(149) * pow2(149)),
{
    let one = pow2(149);
    let full = one * one;
    let most = nearest_single(max * one, units);
    lemma_pow2_pos(149);
    lemma_pow2_adds(149, 149);
    lemma_pow2_adds(277, 21);
    lemma2_to64();
    lemma_nearest_bounds(max * one, units);
    assert((max * one) * one == max * full) by (nonlinear_arith)
        requires
            full == one * one,
    ;
    assert(max * full <= 960 * full) by (nonlinear_arith)
        requires
            max <= 960,
    ;
    assert(units * 0x20_0000 <= full) by (nonlinear_arith)
        requires
            units <= pow2(277),
            full == pow2(277) * 0x20_0000,
    ;
    assert(most * units <= 2_000 * full);
    assert(scale * units <= most * units) by (nonlinear_arith)
        requires
            scale <= most,
    ;
    products_are_nearest(scale, units, one);
    lemma_scaled_length(units, scale, max);
    let n = nearest_integer(single_product(scale, units, one));
    if n == 0 {
        assert(0 * full == 0) by (nonlinear_arith);
        assert(1 * full == full) by (nonlinear_arith);
    }
}

/// Both sides of a drawing are scaled alike: each is the document's times the scale, to the
/// nearest pixel, up to rounding in single precision, but at least a pixel.
pub proof fn drawings_keep_their_proportions(r: SvgLayout, width: u32, height: u32)
    requires
        is_positive_finite(width),
        is_positive_finite(height),
        lays_out(r, units_of_bits(width), units_of_bits(height)),
    ensures
        ({
            let full = pow2(149) * pow2(149);
            let w = units_of_bits(width);
            let h = units_of_bits(height);
            let preview = units_of_bits(r.preview.scale);
            let thumbnail = units_of_bits(r.thumbnail.scale);
            &&& 256 * (r.preview.width * full) <= 256 * (preview * w) + 129 * full
                || r.preview.width == 1
            &&& 256 * (preview * w) <= 256 * (r.preview.width * full) + 129 * full
            &&& 256 * (r.preview.height * full) <= 256 * (preview * h) + 129 * full
                || r.preview.height == 1
            &&& 256 * (preview * h) <= 256 * (r.preview.height * full) + 129 * full
            &&& 256 * (r.thumbnail.width * full) <= 256 * (thumbnail * w) + 129 * full
                || r.thumbnail.width == 1
            &&& 256 * (thumbnail * w) <= 256 * (r.thumbnail.width * full) + 129 * full
            &&& 256 * (r.thumbnail.height * full) <= 256 * (thumbnail * h) + 129 * full
                || r.thumbnail.height == 1
            &&& 256 * (thumbnail * h) <= 256 * (r.thumbnail.height * full) + 129 * full
        }),
{
    lemma_units_bound(width);
    lemma_units_bound(height);
    let preview = units_of_bits(r.preview.scale);
    let thumbnail = units_of_bits(r.thumbnail.scale);
    lemma_side_is_nearest(units_of_bits(width), preview, 960);
    lemma_side_is_nearest(units_of_bits(height), preview, 540);
    lemma_side_is_nearest(units_of_bits(width), thumbnail, 16);
    lemma_side_is_nearest(units_of_bits(height), thumbnail, 16);
}

} // verus!
