//! Sizes in bytes, KiB and MiB.

use vstd::prelude::*;
use vstd::string::*;
use vstd::arithmetic::div_mod::lemma_fundamental_div_mod;
use vstd::arithmetic::power2::{lemma2_to64, lemma_pow2_unfold, pow2};
use crate::single::half_even;
use crate::text::{decimal, digit_char, push_decimal};

verus! {

broadcast use vstd::string::group_string_axioms;

// ---------------------------------------------------------------------------
// Model
// ---------------------------------------------------------------------------

/// The least exponent at which `num / den` has at most 53 bits.
pub open spec fn double_shift(num: nat, den: nat) -> nat
    decreases num - den,
{
    if den == 0 || num < den * 0x20_0000_0000_0000 {
        0
    } else {
        1 + double_shift(num, 2 * den)
    }
}

/// The double-precision number nearest to an integer.
pub open spec fn nearest_double(n: nat) -> nat {
    let unit = pow2(double_shift(n, 1));
    half_even(n, unit) * unit
}

/// `n / unit` with one digit after the decimal point, ties to the even digit.
pub open spec fn one_decimal(n: nat, unit: nat) -> Seq<char> {
    let tenths = half_even(10 * n, unit);
    decimal(tenths / 10) + seq!['.', digit_char(tenths % 10)]
}

/// A number of bytes in the largest unit of which there is at least one. From
/// 2^53 bytes on the number is rounded to double precision.
pub open spec fn byte_size(bytes: nat) -> Seq<char> {
    let n = nearest_double(bytes);
    if n >= 0x10_0000 {
        one_decimal(n, 0x10_0000) + " MiB"@
    } else if n >= 0x400 {
        one_decimal(n, 0x400) + " KiB"@
    } else {
        decimal(n) + " B"@
    }
}

// ---------------------------------------------------------------------------
// Formatting
// ---------------------------------------------------------------------------

fn round_half_even(n: u128, d: u128) -> (r: u128)
    requires
        0 < d <= 0x10_0000,
        n < 0x1_0000_0000_0000_0000_0000_0000,
    ensures
        r == half_even(n as nat, d as nat),
        r <= n / d + 1,
{
    let q = n / d;
    let rest = n % d;
    if 2 * rest > d || (2 * rest == d && q % 2 == 1) {
        q + 1
    } else {
        q
    }
}

fn to_double(n: u64) -> (r: u128)
    ensures
        r == nearest_double(n as nat),
        r <= 0x1_0000_0000_0000_0000,
{
    let mut unit: u128 = 1;
    let mut k: u32 = 0;
    proof {
        lemma2_to64();
    }
    while n as u128 >= unit * 0x20_0000_0000_0000
        invariant
            k <= 11,
            unit == pow2(k as nat),
            0 < unit <= 0x800,
            double_shift(n as nat, 1) == k + double_shift(n as nat, unit as nat),
        decreases n - unit,
    {
        proof {
            lemma_pow2_unfold((k + 1) as nat);
            lemma2_to64();
            if k == 11 {
                assert(unit == 0x800);
            } else if k + 1 < 11 {
                vstd::arithmetic::power2::lemma_pow2_strictly_increases((k + 1) as nat, 11);
            }
        }
        unit = unit * 2;
        k = k + 1;
    }
    let m = round_half_even(n as u128, unit);
    proof {
        lemma_fundamental_div_mod(n as int, unit as int);
        let q = n as int / unit as int;
        assert(q < 0x20_0000_0000_0000) by (nonlinear_arith)
            requires
                n == unit * q + (n as int % unit as int),
                0 <= n as int % unit as int,
                n < unit * 0x20_0000_0000_0000,
                unit > 0,
        ;
        assert(m * unit <= 0x20_0000_0000_0000 * 0x800) by (nonlinear_arith)
            requires
                m <= 0x20_0000_0000_0000,
                unit <= 0x800,
        ;
    }
    m * unit
}

fn push_one_decimal(out: &mut String, n: u128, unit: u128)
    requires
        unit == 0x400 || unit == 0x10_0000,
        n <= 0x1_0000_0000_0000_0000,
        unit == 0x400 ==> n < 0x10_0000,
    ensures
        final(out)@ == old(out)@ + one_decimal(n as nat, unit as nat),
{
    let tenths = round_half_even(10 * n, unit);
    push_decimal(out, (tenths / 10) as u64);
    out.push('.');
    out.push((48 + (tenths % 10) as u8) as char);
    assert(out@ =~= old(out)@ + one_decimal(n as nat, unit as nat));
}

/// Formats a number of bytes.
pub fn format_bytes(bytes: u64) -> (r: String)
    ensures
        r@ == byte_size(bytes as nat),
{
    let n = to_double(bytes);
    let mut out = String::new();
    if n >= 0x10_0000 {
        push_one_decimal(&mut out, n, 0x10_0000);
        out.append(" MiB");
    } else if n >= 0x400 {
        push_one_decimal(&mut out, n, 0x400);
        out.append(" KiB");
    } else {
        push_decimal(&mut out, n as u64);
        out.append(" B");
    }
    assert(out@ =~= byte_size(bytes as nat));
    out
}

// ---------------------------------------------------------------------------
// Laws
// ---------------------------------------------------------------------------

proof fn lemma_half_even_error(num: nat, den: nat)
    requires
        den > 0,
    ensures
        2 * (half_even(num, den) * den) <= 2 * num + den,
        2 * num <= 2 * (half_even(num, den) * den) + den,
        2 * (half_even(num, den) * den) == 2 * num + den || 2 * num == 2 * (half_even(num, den)
            * den) + den ==> half_even(num, den) % 2 == 0,
{
    let q = num / den;
    let r = num % den;
    lemma_fundamental_div_mod(num as int, den as int);
    assert((q + 1) * den == q * den + den && den * q == q * den) by (nonlinear_arith);
}

proof fn lemma_double_shift_small(n: nat, den: nat, most: nat)
    requires
        den > 0,
        n < den * 0x20_0000_0000_0000 * pow2(most),
    ensures
        double_shift(n, den) <= most,
    decreases most,
{
    lemma2_to64();
    if most == 0 {
        assert(den * 0x20_0000_0000_0000 * pow2(most) == den * 0x20_0000_0000_0000)
            by (nonlinear_arith)
            requires
                pow2(most) == 1,
        ;
    } else if n >= den * 0x20_0000_0000_0000 {
        lemma_pow2_unfold(most);
        assert(den * 0x20_0000_0000_0000 * pow2(most) == (2 * den) * 0x20_0000_0000_0000 * pow2(
            (most - 1) as nat,
        )) by (nonlinear_arith)
            requires
                pow2(most) == 2 * pow2((most - 1) as nat),
        ;
        lemma_double_shift_small(n, 2 * den, (most - 1) as nat);
    }
}

proof fn lemma_nearest_double(n: nat)
    requires
        n <= u64::MAX,
    ensures
        n < 0x20_0000_0000_0000 ==> nearest_double(n) == n,
        n >= 0x20_0000_0000_0000 ==> n <= nearest_double(n) + 1024 && nearest_double(n) <= n + 1024,
{
    lemma2_to64();
    let k = double_shift(n, 1);
    if n < 0x20_0000_0000_0000 {
        assert(k == 0);
        assert(half_even(n, 1) == n);
        assert(n * 1 == n);
    } else {
        lemma_double_shift_small(n, 1, 11);
        if k < 11 {
            vstd::arithmetic::power2::lemma_pow2_strictly_increases(k, 11);
        }
        vstd::arithmetic::power2::lemma_pow2_pos(k);
        lemma_half_even_error(n, pow2(k));
    }
}

/// A number of bytes is written out whole below one KiB. From there on it is written with
/// one digit after the point, in KiB below one MiB and else in MiB, and the tenths `t` that
/// are written are those nearest to it; of two that are equally near, the even ones. From
/// 2^53 bytes on, the number that is written may be up to 1024 bytes off.
pub proof fn byte_sizes_are_nearest(bytes: nat) -> (t: nat)
    requires
        bytes <= u64::MAX,
    ensures
        bytes < 1024 ==> byte_size(bytes) == decimal(bytes) + " B"@,
        1024 <= bytes < 1048576 ==> {
            &&& byte_size(bytes) == decimal(t / 10) + seq!['.'] + decimal(t % 10) + " KiB"@
            &&& 2 * (t * 1024) <= 20 * bytes + 1024
            &&& 20 * bytes <= 2 * (t * 1024) + 1024
            &&& 2 * (t * 1024) == 20 * bytes + 1024 || 20 * bytes == 2 * (t * 1024) + 1024 ==> t
                % 2 == 0
        },
        bytes >= 1048576 ==> {
            let off: nat = if bytes < 0x20_0000_0000_0000 {
                0
            } else {
                1024
            };
            &&& byte_size(bytes) == decimal(t / 10) + seq!['.'] + decimal(t % 10) + " MiB"@
            &&& 2 * (t * 1048576) <= 20 * (bytes + off) + 1048576
            &&& 20 * bytes <= 2 * (t * 1048576) + 1048576 + 20 * off
            &&& off == 0 && (2 * (t * 1048576) == 20 * bytes + 1048576 || 20 * bytes == 2 * (t
                * 1048576) + 1048576) ==> t % 2 == 0
        },
{
    lemma_nearest_double(bytes);
    let n = nearest_double(bytes);
    if bytes < 1024 {
        0
    } else {
        let unit: nat = if bytes < 1048576 {
            1024
        } else {
            1048576
        };
        let t = half_even(10 * n, unit);
        lemma_half_even_error(10 * n, unit);
        assert(seq!['.', digit_char(t % 10)] =~= seq!['.'] + decimal(t % 10));
        assert(byte_size(bytes) =~= decimal(t / 10) + seq!['.'] + decimal(t % 10) + (if bytes
            < 1048576 {
            " KiB"@
        } else {
            " MiB"@
        }));
        t
    }
}

} // verus!
