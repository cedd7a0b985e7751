//! Decimal numerals of any length, and the single-precision numbers they name.

use vstd::prelude::*;
use vstd::arithmetic::power2::{lemma_pow2_pos, pow2};
use crate::single::{lemma_half_even_scale, nearest_single, single_shift};
use crate::text::{chars_of, decimal, find_from, lemma_position_unique, position};

verus! {

// ---------------------------------------------------------------------------
// Model
// ---------------------------------------------------------------------------

pub open spec fn pow10(n: nat) -> nat
    decreases n,
{
    if n == 0 {
        1
    } else {
        10 * pow10((n - 1) as nat)
    }
}

pub open spec fn is_digit(c: char) -> bool {
    '0' <= c <= '9'
}

pub open spec fn all_digits(s: Seq<char>) -> bool {
    forall|i: int| 0 <= i < s.len() ==> is_digit(#[trigger] s[i])
}

/// The value of a digit.
pub open spec fn digit_value(c: char) -> nat {
    (c as u32 - '0' as u32) as nat
}

/// The number that a sequence of digits denotes.
pub open spec fn numeral_value(s: Seq<char>) -> nat
    decreases s.len(),
{
    if s.len() == 0 {
        0
    } else {
        10 * numeral_value(s.drop_last()) + digit_value(s.last())
    }
}

/// Whether `s` begins with a sign, and what follows the sign.
pub open spec fn has_sign(s: Seq<char>) -> bool {
    s.len() > 0 && (s[0] == '+' || s[0] == '-')
}

pub open spec fn is_negative(s: Seq<char>) -> bool {
    s.len() > 0 && s[0] == '-'
}

pub open spec fn without_sign(s: Seq<char>) -> Seq<char> {
    if has_sign(s) {
        s.drop_first()
    } else {
        s
    }
}

/// The index of the first exponent mark, `e` or `E`, or the length.
pub open spec fn exponent_mark(s: Seq<char>) -> int {
    let lower = position(s, 'e');
    let upper = position(s, 'E');
    if lower < upper {
        lower
    } else {
        upper
    }
}

/// The digits of a numeral with an optional decimal point, without the point.
pub open spec fn significant_digits(s: Seq<char>) -> Seq<char> {
    let point = position(s, '.');
    if point < s.len() {
        s.take(point) + s.skip(point + 1)
    } else {
        s
    }
}

/// The number of digits after the decimal point.
pub open spec fn fraction_length(s: Seq<char>) -> nat {
    let point = position(s, '.');
    if point < s.len() {
        (s.len() - point - 1) as nat
    } else {
        0
    }
}

/// Whether `s` is a numeral: one or more digits with at most one decimal point.
pub open spec fn is_numeral(s: Seq<char>) -> bool {
    significant_digits(s).len() > 0 && all_digits(significant_digits(s))
}

/// Whether `s` is a signed sequence of one or more digits.
pub open spec fn is_exponent(s: Seq<char>) -> bool {
    without_sign(s).len() > 0 && all_digits(without_sign(s))
}

pub open spec fn exponent_value(s: Seq<char>) -> int {
    if is_negative(s) {
        -(numeral_value(without_sign(s)) as int)
    } else {
        numeral_value(without_sign(s)) as int
    }
}

/// A decimal number, `(-1)^negative * significand * 10^exponent`.
pub ghost struct Decimal {
    pub negative: bool,
    pub significand: nat,
    pub exponent: int,
}

/// The number that `s` writes out: an optional sign, digits with an optional
/// decimal point, and an optional exponent. Infinities are no numbers here.
pub open spec fn decimal_number(s: Seq<char>) -> Option<Decimal> {
    let body = without_sign(s);
    let mark = exponent_mark(body);
    let numeral = body.take(mark);
    let tail = body.skip(mark + 1);
    if !is_numeral(numeral) {
        None
    } else if mark < body.len() && !is_exponent(tail) {
        None
    } else {
        Some(
            Decimal {
                negative: is_negative(s),
                significand: numeral_value(significant_digits(numeral)),
                exponent: (if mark < body.len() {
                    exponent_value(tail)
                } else {
                    0
                }) - fraction_length(numeral),
            },
        )
    }
}

/// The single-precision number nearest to `significand * 10^exponent`, in units
/// of 2^-149.
pub open spec fn nearest_decimal(significand: nat, exponent: int) -> nat {
    if exponent >= 0 {
        nearest_single(significand * pow10(exponent as nat), 1)
    } else {
        nearest_single(significand, pow10((-exponent) as nat))
    }
}

/// The number that a sequence of digit values denotes.
pub open spec fn digits_value(s: Seq<u8>) -> nat
    decreases s.len(),
{
    if s.len() == 0 {
        0
    } else {
        10 * digits_value(s.drop_last()) + s.last() as nat
    }
}

pub open spec fn are_digits(s: Seq<u8>) -> bool {
    forall|i: int| 0 <= i < s.len() ==> #[trigger] s[i] < 10
}

// ---------------------------------------------------------------------------
// Facts
// ---------------------------------------------------------------------------

/// What `decimal` writes out is a numeral that denotes the number, without leading zeros.
pub proof fn decimal_reads_back(n: nat)
    ensures
        decimal(n).len() > 0,
        all_digits(decimal(n)),
        numeral_value(decimal(n)) == n,
        n > 0 ==> decimal(n)[0] != '0',
    decreases n,
{
    let text = decimal(n);
    if n < 10 {
        assert(text.drop_last() =~= seq![]);
        assert(numeral_value(text.drop_last()) == 0);
    } else {
        decimal_reads_back(n / 10);
        assert(text.drop_last() =~= decimal(n / 10));
        assert(text[0] == decimal(n / 10)[0]);
        assert forall|i: int| 0 <= i < text.len() implies is_digit(#[trigger] text[i]) by {
            if i < text.len() - 1 {
                assert(text[i] == decimal(n / 10)[i]);
            }
        }
    }
}

/// A number below a power of ten has no more digits than that power has zeros.
pub proof fn lemma_decimal_length(n: nat, width: nat)
    requires
        n < pow10(width),
        width > 0,
    ensures
        decimal(n).len() <= width,
    decreases width,
{
    if n >= 10 {
        if width == 1 {
            reveal_with_fuel(pow10, 2);
            assert(false);
        }
        assert(n / 10 < pow10((width - 1) as nat));
        lemma_decimal_length(n / 10, (width - 1) as nat);
    }
}

pub proof fn lemma_pow10_pos(n: nat)
    ensures
        pow10(n) > 0,
    decreases n,
{
    if n > 0 {
        lemma_pow10_pos((n - 1) as nat);
    }
}

pub proof fn lemma_pow10_adds(a: nat, b: nat)
    ensures
        pow10(a + b) == pow10(a) * pow10(b),
    decreases a,
{
    if a == 0 {
        assert(1 * pow10(b) == pow10(b));
    } else {
        lemma_pow10_adds((a - 1) as nat, b);
        assert(10 * (pow10((a - 1) as nat) * pow10(b)) == (10 * pow10((a - 1) as nat)) * pow10(b))
            by (nonlinear_arith);
    }
}

pub proof fn lemma_pow10_monotonic(a: nat, b: nat)
    requires
        a <= b,
    ensures
        pow10(a) <= pow10(b),
    decreases b - a,
{
    if a < b {
        lemma_pow10_monotonic(a, (b - 1) as nat);
        lemma_pow10_pos((b - 1) as nat);
    }
}

pub proof fn lemma_pow10_33()
    ensures
        pow10(33) == 1_000_000_000_000_000_000_000_000_000_000_000,
{
    reveal_with_fuel(pow10, 12);
    lemma_pow10_adds(11, 11);
    lemma_pow10_adds(22, 11);
}

/// Leading digits count for their value times a power of ten.
pub proof fn lemma_digits_concat(a: Seq<u8>, b: Seq<u8>)
    ensures
        digits_value(a + b) == digits_value(a) * pow10(b.len()) + digits_value(b),
    decreases b.len(),
{
    if b.len() == 0 {
        assert(a + b =~= a);
        assert(digits_value(a) * pow10(0) == digits_value(a)) by (nonlinear_arith)
            requires
                pow10(0) == 1,
        ;
    } else {
        assert((a + b).drop_last() =~= a + b.drop_last());
        lemma_digits_concat(a, b.drop_last());
        let p = pow10((b.len() - 1) as nat);
        assert(10 * (digits_value(a) * p) == digits_value(a) * (10 * p)) by (nonlinear_arith);
    }
}

pub proof fn lemma_digits_bound(s: Seq<u8>)
    requires
        are_digits(s),
    ensures
        digits_value(s) < pow10(s.len()),
    decreases s.len(),
{
    if s.len() > 0 {
        lemma_digits_bound(s.drop_last());
    }
}

/// A sequence of digits denotes zero when every digit is zero.
pub proof fn lemma_digits_zero(s: Seq<u8>)
    ensures
        digits_value(s) == 0 <==> (forall|i: int| 0 <= i < s.len() ==> #[trigger] s[i] == 0),
    decreases s.len(),
{
    if s.len() > 0 {
        lemma_digits_zero(s.drop_last());
        if digits_value(s) == 0 {
            assert forall|i: int| 0 <= i < s.len() implies #[trigger] s[i] == 0 by {
                if i < s.len() - 1 {
                    assert(s[i] == s.drop_last()[i]);
                }
            }
        } else if forall|i: int| 0 <= i < s.len() ==> #[trigger] s[i] == 0 {
            assert(s.last() == s[s.len() - 1]);
            assert forall|i: int| 0 <= i < s.drop_last().len() implies #[trigger] s.drop_last()[i]
                == 0 by {
                assert(s[i] == 0);
            }
        }
    }
}

proof fn lemma_digits_of_chars(s: Seq<char>, d: Seq<u8>)
    requires
        s.len() == d.len(),
        forall|i: int| 0 <= i < s.len() ==> #[trigger] d[i] == digit_value(s[i]),
    ensures
        digits_value(d) == numeral_value(s),
    decreases s.len(),
{
    if s.len() > 0 {
        assert forall|i: int| 0 <= i < s.drop_last().len() implies #[trigger] d.drop_last()[i]
            == digit_value(s.drop_last()[i]) by {
            assert(d[i] == digit_value(s[i]));
        }
        lemma_digits_of_chars(s.drop_last(), d.drop_last());
        assert(d[s.len() - 1] == digit_value(s[s.len() - 1]));
    }
}

/// Rounding to single precision does not depend on a common factor.
pub proof fn lemma_nearest_scale(num: nat, den: nat, a: nat)
    requires
        den > 0,
        a > 0,
    ensures
        nearest_single(a * num, a * den) == nearest_single(num, den),
{
    let n = num * pow2(149);
    assert((a * num) * pow2(149) == a * n) by (nonlinear_arith)
        requires
            n == num * pow2(149),
    ;
    lemma_shift_scale(n, den, a);
    let k = single_shift(n, den);
    lemma_pow2_pos(k);
    assert((a * den) * pow2(k) == a * (den * pow2(k)) && den * pow2(k) > 0) by (nonlinear_arith)
        requires
            den > 0,
            pow2(k) > 0,
    ;
    lemma_half_even_scale(n, den * pow2(k), a);
}

proof fn lemma_shift_scale(num: nat, den: nat, a: nat)
    requires
        den > 0,
        a > 0,
    ensures
        single_shift(a * num, a * den) == single_shift(num, den),
    decreases num - den,
{
    assert(a * den > 0) by (nonlinear_arith)
        requires
            a > 0,
            den > 0,
    ;
    assert(a * num < (a * den) * 0x100_0000 <==> num < den * 0x100_0000) by (nonlinear_arith)
        requires
            a > 0,
    ;
    if num >= den * 0x100_0000 {
        lemma_shift_scale(num, 2 * den, a);
        assert(a * (2 * den) == 2 * (a * den)) by (nonlinear_arith);
    }
}

// ---------------------------------------------------------------------------
// Reading
// ---------------------------------------------------------------------------

/// A decimal number as it was read. An exponent beyond `EXPONENT_FAR` stands for
/// any exponent beyond it.
pub(crate) struct Numeral {
    pub(crate) negative: bool,
    pub(crate) digits: Vec<u8>,
    pub(crate) exponent: i128,
}

pub(crate) const EXPONENT_FAR: i128 = 100_000_000_000_000_000_000_000_000;

/// Whether `read` is the exponent `e`, or both are far out on the same side.
pub(crate) open spec fn stands_for(read: int, e: int) -> bool {
    ||| read == e
    ||| read >= EXPONENT_FAR && e >= EXPONENT_FAR
    ||| read <= -EXPONENT_FAR && e <= -EXPONENT_FAR
}

fn digit_of(c: char) -> (r: Option<u8>)
    ensures
        r is Some <==> is_digit(c),
        r matches Some(d) ==> d < 10 && d == digit_value(c),
{
    if '0' <= c && c <= '9' {
        Some((c as u32 - 48) as u8)
    } else {
        None
    }
}

/// The values of the digits of `chars` from `from` up to `to`, or nothing when
/// another character stands between them.
fn digits_between(chars: &Vec<char>, from: usize, to: usize) -> (r: Option<Vec<u8>>)
    requires
        from <= to <= chars.len(),
    ensures
        r is Some <==> all_digits(chars@.subrange(from as int, to as int)),
        r matches Some(d) ==> d.len() == to - from && are_digits(d@) && forall|i: int|
            0 <= i < d.len() ==> #[trigger] d@[i] == digit_value(chars@[from + i]),
{
    let mut out: Vec<u8> = Vec::new();
    let mut i: usize = from;
    let ghost part = chars@.subrange(from as int, to as int);
    while i < to
        invariant
            from <= i <= to <= chars.len(),
            part == chars@.subrange(from as int, to as int),
            out.len() == i - from,
            are_digits(out@),
            forall|k: int| 0 <= k < out.len() ==> #[trigger] out@[k] == digit_value(chars@[from + k]),
            forall|k: int| 0 <= k < i - from ==> is_digit(#[trigger] part[k]),
        decreases to - i,
    {
        match digit_of(chars[i]) {
            None => {
                assert(!is_digit(part[i - from]));
                return None;
            },
            Some(d) => {
                assert(part[i - from] == chars@[i as int]);
                out.push(d);
            },
        }
        i = i + 1;
    }
    Some(out)
}

/// The value of a sequence of digits, or a number not below `EXPONENT_FAR * 10`
/// where the value is not below it either.
fn clamped_value(digits: &Vec<u8>) -> (r: i128)
    requires
        are_digits(digits@),
    ensures
        0 <= r < 100 * EXPONENT_FAR + 10,
        r == digits_value(digits@) || (r >= 10 * EXPONENT_FAR && digits_value(digits@) >= 10
            * EXPONENT_FAR),
{
    let mut r: i128 = 0;
    let mut i: usize = 0;
    while i < digits.len()
        invariant
            i <= digits.len(),
            are_digits(digits@),
            0 <= r < 100 * EXPONENT_FAR + 10,
            r == digits_value(digits@.take(i as int)) || (r >= 10 * EXPONENT_FAR && digits_value(
                digits@.take(i as int),
            ) >= 10 * EXPONENT_FAR),
        decreases digits.len() - i,
    {
        proof {
            assert(digits@.take(i + 1).drop_last() =~= digits@.take(i as int));
        }
        if r < 10 * EXPONENT_FAR {
            r = r * 10 + digits[i] as i128;
        }
        i = i + 1;
    }
    assert(digits@.take(digits.len() as int) =~= digits@);
    r
}

fn find_mark(chars: &Vec<char>, from: usize) -> (r: usize)
    requires
        from <= chars.len(),
    ensures
        from <= r <= chars.len(),
        r - from == exponent_mark(chars@.skip(from as int)),
{
    let lower = find_from(chars, from, 'e');
    let upper = find_from(chars, from, 'E');
    if lower < upper {
        lower
    } else {
        upper
    }
}

/// Reads a numeral: its digits, and how many of them follow the decimal point.
fn parse_numeral(chars: &Vec<char>, start: usize, end: usize) -> (r: Option<(Vec<u8>, usize)>)
    requires
        start <= end <= chars.len(),
    ensures
        r is Some <==> is_numeral(chars@.subrange(start as int, end as int)),
        r matches Some((digits, fraction)) ==> {
            let numeral = chars@.subrange(start as int, end as int);
            &&& are_digits(digits@)
            &&& digits_value(digits@) == numeral_value(significant_digits(numeral))
            &&& fraction == fraction_length(numeral)
        },
{
    let ghost numeral = chars@.subrange(start as int, end as int);
    let ghost sig = significant_digits(numeral);
    let mut point: usize = start;
    while point < end && chars[point] != '.'
        invariant
            start <= point <= end <= chars.len(),
            forall|k: int| start <= k < point ==> chars@[k] != '.',
        decreases end - point,
    {
        point = point + 1;
    }
    proof {
        assert forall|k: int| 0 <= k < point - start implies numeral[k] != '.' by {
            assert(numeral[k] == chars@[start + k]);
        }
        lemma_position_unique(numeral, '.', point - start);
        assert(chars@.subrange(start as int, point as int) =~= numeral.take(point - start));
        assert(point < end ==> chars@.subrange(point + 1, end as int) =~= numeral.skip(
            point - start + 1,
        ));
        assert(point == end ==> sig =~= numeral.take(point - start));
    }
    let mut digits = match digits_between(chars, start, point) {
        Some(d) => d,
        None => {
            proof {
                let part = chars@.subrange(start as int, point as int);
                let k = choose|k: int| 0 <= k < part.len() && !is_digit(#[trigger] part[k]);
                assert(sig[k] == part[k]);
            }
            return None;
        },
    };
    let mut fraction: usize = 0;
    if point < end {
        let mut tail = match digits_between(chars, point + 1, end) {
            Some(d) => d,
            None => {
                proof {
                    let part = chars@.subrange(point + 1, end as int);
                    let k = choose|k: int| 0 <= k < part.len() && !is_digit(#[trigger] part[k]);
                    assert(sig[point - start + k] == part[k]);
                }
                return None;
            },
        };
        fraction = tail.len();
        digits.append(&mut tail);
    }
    proof {
        assert(digits.len() == sig.len());
        assert forall|i: int| 0 <= i < sig.len() implies #[trigger] digits@[i] == digit_value(
            sig[i],
        ) && is_digit(sig[i]) by {
            if i < point - start {
                assert(sig[i] == chars@[start + i]);
                assert(is_digit(chars@.subrange(start as int, point as int)[i]));
            } else {
                let j = i - (point - start);
                assert(sig[i] == chars@[point + 1 + j]);
                assert(is_digit(chars@.subrange(point + 1, end as int)[j]));
            }
        }
        lemma_digits_of_chars(sig, digits@);
        assert forall|i: int| 0 <= i < sig.len() implies is_digit(#[trigger] sig[i]) by {
            assert(digits@[i] == digit_value(sig[i]));
        }
    }
    if digits.len() == 0 {
        return None;
    }
    Some((digits, fraction))
}

/// Reads an exponent: an optional sign and one or more digits.
fn parse_exponent(chars: &Vec<char>, start: usize) -> (r: Option<i128>)
    requires
        start <= chars.len(),
    ensures
        r is Some <==> is_exponent(chars@.skip(start as int)),
        r matches Some(e) ==> {
            let value = exponent_value(chars@.skip(start as int));
            &&& -100 * EXPONENT_FAR - 10 <= e <= 100 * EXPONENT_FAR + 10
            &&& e == value || (e >= 10 * EXPONENT_FAR && value >= 10 * EXPONENT_FAR) || (e <= -10
                * EXPONENT_FAR && value <= -10 * EXPONENT_FAR)
        },
{
    let ghost tail = chars@.skip(start as int);
    let len = chars.len();
    let mut from: usize = start;
    let mut minus = false;
    if from < len && (chars[from] == '+' || chars[from] == '-') {
        minus = chars[from] == '-';
        from = from + 1;
    }
    proof {
        assert(without_sign(tail) =~= chars@.subrange(from as int, len as int));
    }
    let digits = match digits_between(chars, from, len) {
        None => {
            return None;
        },
        Some(d) => d,
    };
    if digits.len() == 0 {
        return None;
    }
    proof {
        lemma_digits_of_chars(without_sign(tail), digits@);
    }
    let value = clamped_value(&digits);
    Some(if minus { 0 - value } else { value })
}

/// Reads a decimal number.
pub(crate) fn parse_decimal(s: &str) -> (r: Option<Numeral>)
    ensures
        r is Some <==> decimal_number(s@) is Some,
        r matches Some(n) ==> {
            let d = decimal_number(s@)->0;
            &&& n.negative == d.negative
            &&& are_digits(n.digits@)
            &&& digits_value(n.digits@) == d.significand
            &&& stands_for(n.exponent as int, d.exponent)
            &&& -200 * EXPONENT_FAR <= n.exponent <= 200 * EXPONENT_FAR
        },
{
    let chars = chars_of(s);
    let len = chars.len();
    let mut start: usize = 0;
    let mut negative = false;
    if len > 0 && (chars[0] == '+' || chars[0] == '-') {
        negative = chars[0] == '-';
        start = 1;
    }
    let mark = find_mark(&chars, start);
    let ghost body = without_sign(s@);
    proof {
        assert(body =~= chars@.skip(start as int));
        assert(body.take(mark - start) =~= chars@.subrange(start as int, mark as int));
        assert(mark < len ==> body.skip(mark - start + 1) =~= chars@.skip(mark + 1));
    }
    match parse_numeral(&chars, start, mark) {
        None => None,
        Some((digits, fraction)) => {
            if mark == len {
                return Some(Numeral { negative, digits, exponent: 0 - fraction as i128 });
            }
            match parse_exponent(&chars, mark + 1) {
                None => None,
                Some(e) => Some(Numeral { negative, digits, exponent: e - fraction as i128 }),
            }
        },
    }
}

// ---------------------------------------------------------------------------
// Laws
// ---------------------------------------------------------------------------

proof fn lemma_numerals_concat(a: Seq<char>, b: Seq<char>)
    ensures
        numeral_value(a + b) == numeral_value(a) * pow10(b.len()) + numeral_value(b),
    decreases b.len(),
{
    if b.len() == 0 {
        assert(a + b =~= a);
        assert(numeral_value(a) * 1 == numeral_value(a)) by (nonlinear_arith);
    } else {
        let fewer = b.drop_last();
        lemma_numerals_concat(a, fewer);
        assert((a + b).drop_last() =~= a + fewer);
        assert((a + b).last() == b.last());
        let x = numeral_value(a);
        let p = pow10(fewer.len());
        assert(10 * (x * p) == x * (10 * p)) by (nonlinear_arith);
    }
}

proof fn lemma_no_char(s: Seq<char>, c: char)
    requires
        forall|i: int| 0 <= i < s.len() ==> s[i] != c,
    ensures
        position(s, c) == s.len(),
{
    lemma_position_unique(s, c, s.len() as int);
}

/// A decimal number is read digit by digit: digits after the point count for their place,
/// the exponent moves the point, and a sign in front tells whether the number is negative.
pub proof fn decimals_are_read_digit_by_digit(
    whole: Seq<char>,
    fraction: Seq<char>,
    exponent: nat,
)
    requires
        all_digits(whole),
        all_digits(fraction),
        whole.len() + fraction.len() > 0,
    ensures
        ({
            let text = whole + seq!['.'] + fraction;
            let value = numeral_value(whole) * pow10(fraction.len()) + numeral_value(fraction);
            let places = fraction.len() as int;
            &&& decimal_number(text) == Some(
                Decimal { negative: false, significand: value, exponent: -places },
            )
            &&& decimal_number(seq!['-'] + text) == Some(
                Decimal { negative: true, significand: value, exponent: -places },
            )
            &&& decimal_number(seq!['+'] + text) == decimal_number(text)
            &&& decimal_number(text + seq!['e'] + decimal(exponent)) == Some(
                Decimal { negative: false, significand: value, exponent: exponent - places },
            )
            &&& decimal_number(text + seq!['e', '-'] + decimal(exponent)) == Some(
                Decimal { negative: false, significand: value, exponent: -exponent - places },
            )
            &&& decimal_number(text + seq!['e']) is None
        }),
        whole.len() > 0 ==> decimal_number(whole) == Some(
            Decimal { negative: false, significand: numeral_value(whole), exponent: 0 },
        ),
{
    let text = whole + seq!['.'] + fraction;
    let n = text.len() as int;
    let point = whole.len() as int;
    assert forall|i: int| 0 <= i < n implies text[i] != 'e' && text[i] != 'E' && text[i] != '+'
        && text[i] != '-' && (text[i] == '.' <==> i == point) by {
        if i < point {
            assert(is_digit(whole[i]));
            assert(text[i] == whole[i]);
        } else if i > point {
            assert(is_digit(fraction[i - point - 1]));
            assert(text[i] == fraction[i - point - 1]);
        }
    }
    lemma_position_unique(text, '.', point);
    assert(text.take(point) =~= whole);
    assert(text.skip(point + 1) =~= fraction);
    let digits = whole + fraction;
    assert forall|i: int| 0 <= i < digits.len() implies is_digit(#[trigger] digits[i]) by {
        if i < point {
            assert(digits[i] == whole[i]);
        } else {
            assert(digits[i] == fraction[i - point]);
        }
    }
    assert(significant_digits(text) == digits);
    assert(fraction_length(text) == fraction.len());
    lemma_numerals_concat(whole, fraction);
    lemma_marked(text, seq![]);
    assert((seq!['-'] + text).drop_first() =~= text);
    assert((seq!['+'] + text).drop_first() =~= text);
    decimal_reads_back(exponent);
    let tail = decimal(exponent);
    assert(is_digit(tail[0]));
    lemma_marked(text, tail);
    assert(text + seq!['e'] + tail =~= text + (seq!['e'] + tail));
    let negative = seq!['-'] + tail;
    assert(negative.drop_first() =~= tail);
    lemma_marked(text, negative);
    assert(text + seq!['e', '-'] + tail =~= text + seq!['e'] + negative);
    assert(text + seq!['e'] =~= text + seq!['e'] + seq![]);
    if whole.len() > 0 {
        assert forall|i: int| 0 <= i < point implies whole[i] != 'e' && whole[i] != 'E' && whole[i]
            != '.' && whole[i] != '+' && whole[i] != '-' by {
            assert(is_digit(whole[i]));
        }
        lemma_no_char(whole, '.');
        lemma_no_char(whole, 'e');
        lemma_no_char(whole, 'E');
        assert(whole.take(point) =~= whole);
    }
}

proof fn lemma_marked(text: Seq<char>, tail: Seq<char>)
    requires
        text.len() > 0,
        forall|i: int|
            0 <= i < text.len() ==> text[i] != 'e' && text[i] != 'E' && text[i] != '+' && text[i]
                != '-',
        forall|i: int| 0 <= i < tail.len() ==> tail[i] != 'E',
    ensures
        exponent_mark(text) == text.len(),
        text.take(text.len() as int) == text,
        without_sign(text) == text,
        ({
            let all = text + seq!['e'] + tail;
            &&& exponent_mark(all) == text.len()
            &&& all.take(text.len() as int) == text
            &&& all.skip(text.len() as int + 1) == tail
            &&& without_sign(all) == all
            &&& text.len() < all.len()
        }),
{
    lemma_no_char(text, 'e');
    lemma_no_char(text, 'E');
    assert(text.take(text.len() as int) =~= text);
    let all = text + seq!['e'] + tail;
    let n = text.len() as int;
    assert(all[0] == text[0]);
    assert forall|i: int| 0 <= i < all.len() implies all[i] != 'E' && (i < n ==> all[i] != 'e') by {
        if i < n {
            assert(all[i] == text[i]);
        } else if i > n {
            assert(all[i] == tail[i - n - 1]);
        }
    }
    assert(all[n] == 'e');
    lemma_position_unique(all, 'e', n);
    lemma_no_char(all, 'E');
    assert(all.take(n) =~= text);
    assert(all.skip(n + 1) =~= tail);
}

} // verus!
