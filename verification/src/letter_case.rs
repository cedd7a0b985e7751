//! Letter case: colors are read alike in upper and in lower case.

use vstd::prelude::*;
use vstd::utf8::{
    encode_scalar, encode_utf8, encode_utf8_valid_utf8, is_ascii_chars, is_ascii_chars_encode_utf8,
    is_char_boundary, is_char_boundary_iff_not_is_continuation_byte,
    is_char_boundary_start_end_of_seq,
};
use crate::color::{
    alpha_channel, ascii_lower, byte_value, color_expression, hex_color, hex_splits_well,
    hex_value, long_channel, pair_splits_well, pairs_split_well, rgb_channel, rgb_color,
};
use crate::decimal::{
    all_digits, decimal_number, exponent_mark, is_digit, significant_digits, without_sign,
};
use crate::text::{
    fields, is_white_space, lemma_position, position, trimmed, trimmed_end, trimmed_start,
};

verus! {

/// Whether two texts differ at most in the case of ASCII letters.
pub open spec fn differ_in_case(a: Seq<char>, b: Seq<char>) -> bool {
    a.len() == b.len() && forall|i: int|
        #![trigger a[i]]
        #![trigger b[i]]
        0 <= i < a.len() ==> ascii_lower(a[i]) == ascii_lower(b[i])
}

/// Whether two bytes are the same, or the same letter in upper and in lower case.
spec fn same_letter(x: u8, y: u8) -> bool {
    ||| x == y
    ||| 0x41 <= x <= 0x5a && y == x + 32
    ||| 0x41 <= y <= 0x5a && x == y + 32
}

spec fn same_letters(a: Seq<u8>, b: Seq<u8>) -> bool {
    a.len() == b.len() && forall|i: int|
        #![trigger a[i]]
        #![trigger b[i]]
        0 <= i < a.len() ==> same_letter(a[i], b[i])
}

// ---------------------------------------------------------------------------
// Parts of a text
// ---------------------------------------------------------------------------

proof fn lemma_part(a: Seq<char>, b: Seq<char>, i: int, j: int)
    requires
        differ_in_case(a, b),
        0 <= i <= j <= a.len(),
    ensures
        differ_in_case(a.subrange(i, j), b.subrange(i, j)),
{
    let x = a.subrange(i, j);
    let y = b.subrange(i, j);
    assert forall|k: int|
        #![trigger x[k]]
        #![trigger y[k]]
        0 <= k < x.len() implies ascii_lower(x[k]) == ascii_lower(y[k]) by {
        assert(x[k] == a[i + k] && y[k] == b[i + k]);
    }
}

proof fn lemma_drop(a: Seq<char>, b: Seq<char>)
    requires
        differ_in_case(a, b),
        a.len() > 0,
    ensures
        differ_in_case(a.drop_first(), b.drop_first()),
        differ_in_case(a.drop_last(), b.drop_last()),
{
    let n = a.len() as int;
    lemma_part(a, b, 1, n);
    lemma_part(a, b, 0, n - 1);
    assert(a.drop_first() =~= a.subrange(1, n) && b.drop_first() =~= b.subrange(1, n));
    assert(a.drop_last() =~= a.subrange(0, n - 1) && b.drop_last() =~= b.subrange(0, n - 1));
}

proof fn lemma_cut(a: Seq<char>, b: Seq<char>, i: int)
    requires
        differ_in_case(a, b),
        0 <= i <= a.len(),
    ensures
        differ_in_case(a.take(i), b.take(i)),
        differ_in_case(a.skip(i), b.skip(i)),
{
    let n = a.len() as int;
    lemma_part(a, b, 0, i);
    lemma_part(a, b, i, n);
    assert(a.take(i) =~= a.subrange(0, i) && b.take(i) =~= b.subrange(0, i));
    assert(a.skip(i) =~= a.subrange(i, n) && b.skip(i) =~= b.subrange(i, n));
}

proof fn lemma_trimmed_start_alike(a: Seq<char>, b: Seq<char>)
    requires
        differ_in_case(a, b),
    ensures
        differ_in_case(trimmed_start(a), trimmed_start(b)),
    decreases a.len(),
{
    if a.len() > 0 {
        assert(ascii_lower(a[0]) == ascii_lower(b[0]));
        assert(is_white_space(a[0]) == is_white_space(b[0]));
        lemma_drop(a, b);
        lemma_trimmed_start_alike(a.drop_first(), b.drop_first());
    }
}

proof fn lemma_trimmed_end_alike(a: Seq<char>, b: Seq<char>)
    requires
        differ_in_case(a, b),
    ensures
        differ_in_case(trimmed_end(a), trimmed_end(b)),
    decreases a.len(),
{
    if a.len() > 0 {
        assert(ascii_lower(a[a.len() - 1]) == ascii_lower(b[a.len() - 1]));
        assert(is_white_space(a.last()) == is_white_space(b.last()));
        lemma_drop(a, b);
        lemma_trimmed_end_alike(a.drop_last(), b.drop_last());
    }
}

proof fn lemma_trimmed_alike(a: Seq<char>, b: Seq<char>)
    requires
        differ_in_case(a, b),
    ensures
        differ_in_case(trimmed(a), trimmed(b)),
{
    lemma_trimmed_start_alike(a, b);
    lemma_trimmed_end_alike(trimmed_start(a), trimmed_start(b));
}

proof fn lemma_position_alike(a: Seq<char>, b: Seq<char>, c: char)
    requires
        differ_in_case(a, b),
        c < 'A',
    ensures
        position(a, c) == position(b, c),
    decreases a.len(),
{
    if a.len() > 0 {
        assert(ascii_lower(a[0]) == ascii_lower(b[0]));
        assert((a[0] == c) == (b[0] == c));
        lemma_drop(a, b);
        lemma_position_alike(a.drop_first(), b.drop_first(), c);
    }
}

proof fn lemma_fields_alike(a: Seq<char>, b: Seq<char>, separator: char)
    requires
        differ_in_case(a, b),
        separator < 'A',
    ensures
        fields(a, separator).len() == fields(b, separator).len(),
        forall|i: int|
            0 <= i < fields(a, separator).len() ==> differ_in_case(
                #[trigger] fields(a, separator)[i],
                fields(b, separator)[i],
            ),
    decreases a.len(),
{
    let i = position(a, separator);
    lemma_position(a, separator);
    lemma_position_alike(a, b, separator);
    if i < a.len() {
        lemma_cut(a, b, i);
        lemma_cut(a, b, i + 1);
        let x = fields(a.skip(i + 1), separator);
        let y = fields(b.skip(i + 1), separator);
        lemma_fields_alike(a.skip(i + 1), b.skip(i + 1), separator);
        assert forall|k: int| 0 <= k < fields(a, separator).len() implies differ_in_case(
            #[trigger] fields(a, separator)[k],
            fields(b, separator)[k],
        ) by {
            if k > 0 {
                assert(fields(a, separator)[k] == x[k - 1]);
                assert(fields(b, separator)[k] == y[k - 1]);
            }
        }
    }
}

// ---------------------------------------------------------------------------
// Numbers
// ---------------------------------------------------------------------------

/// Digits are the same in upper and in lower case.
proof fn lemma_digits_alike(a: Seq<char>, b: Seq<char>)
    requires
        differ_in_case(a, b),
    ensures
        all_digits(a) == all_digits(b),
        all_digits(a) ==> a == b,
{
    assert forall|i: int| 0 <= i < a.len() implies is_digit(#[trigger] a[i]) == is_digit(b[i]) && (
    is_digit(a[i]) ==> a[i] == b[i]) by {
        assert(ascii_lower(a[i]) == ascii_lower(b[i]));
    }
    if all_digits(a) {
        assert forall|i: int| 0 <= i < b.len() implies is_digit(#[trigger] b[i]) by {
            assert(is_digit(a[i]));
        }
        assert(a =~= b);
    } else if all_digits(b) {
        assert forall|i: int| 0 <= i < a.len() implies is_digit(#[trigger] a[i]) by {
            assert(is_digit(b[i]));
        }
    }
}

proof fn lemma_sign_alike(a: Seq<char>, b: Seq<char>)
    requires
        differ_in_case(a, b),
    ensures
        a.len() > 0 ==> (a[0] == '+') == (b[0] == '+') && (a[0] == '-') == (b[0] == '-'),
        differ_in_case(without_sign(a), without_sign(b)),
{
    if a.len() > 0 {
        assert(ascii_lower(a[0]) == ascii_lower(b[0]));
        lemma_drop(a, b);
    }
}

proof fn lemma_byte_value_alike(a: Seq<char>, b: Seq<char>)
    requires
        differ_in_case(a, b),
    ensures
        byte_value(a) == byte_value(b),
{
    lemma_sign_alike(a, b);
    lemma_digits_alike(a, b);
    if a.len() > 0 {
        lemma_drop(a, b);
        lemma_digits_alike(a.drop_first(), b.drop_first());
    }
}

proof fn lemma_exponent_mark_alike(a: Seq<char>, b: Seq<char>)
    requires
        differ_in_case(a, b),
    ensures
        exponent_mark(a) == exponent_mark(b),
        0 <= exponent_mark(a) <= a.len(),
{
    lemma_position(a, 'e');
    lemma_position(a, 'E');
    lemma_position(b, 'e');
    lemma_position(b, 'E');
    let m = exponent_mark(a);
    let n = exponent_mark(b);
    if m < n {
        assert(ascii_lower(a[m]) == 'e');
        assert(ascii_lower(b[m]) == 'e');
        assert(b[m] == 'e' || b[m] == 'E');
    }
    if n < m {
        assert(ascii_lower(b[n]) == 'e');
        assert(ascii_lower(a[n]) == 'e');
        assert(a[n] == 'e' || a[n] == 'E');
    }
}

proof fn lemma_decimal_alike(a: Seq<char>, b: Seq<char>)
    requires
        differ_in_case(a, b),
    ensures
        decimal_number(a) == decimal_number(b),
{
    lemma_sign_alike(a, b);
    let x = without_sign(a);
    let y = without_sign(b);
    lemma_exponent_mark_alike(x, y);
    let mark = exponent_mark(x);
    lemma_cut(x, y, mark);
    let p = x.take(mark);
    let q = y.take(mark);
    lemma_position(p, '.');
    lemma_position_alike(p, q, '.');
    let point = position(p, '.');
    if point < p.len() {
        lemma_cut(p, q, point);
        lemma_cut(p, q, point + 1);
        let v = significant_digits(p);
        let w = significant_digits(q);
        assert forall|k: int|
            #![trigger v[k]]
            #![trigger w[k]]
            0 <= k < v.len() implies ascii_lower(v[k]) == ascii_lower(w[k]) by {
            let n = if k < point {
                k
            } else {
                k + 1
            };
            assert(v[k] == p[n] && w[k] == q[n]);
        }
    }
    lemma_digits_alike(significant_digits(p), significant_digits(q));
    if mark < x.len() {
        lemma_cut(x, y, mark + 1);
        let s = x.skip(mark + 1);
        let t = y.skip(mark + 1);
        lemma_sign_alike(s, t);
        lemma_digits_alike(without_sign(s), without_sign(t));
    }
}

proof fn lemma_rgb_channel_alike(a: Seq<char>, b: Seq<char>)
    requires
        differ_in_case(a, b),
    ensures
        rgb_channel(a) == rgb_channel(b),
        alpha_channel(a) == alpha_channel(b),
{
    lemma_byte_value_alike(a, b);
    lemma_decimal_alike(a, b);
    if a.len() > 0 {
        assert(ascii_lower(a[a.len() - 1]) == ascii_lower(b[a.len() - 1]));
        lemma_drop(a, b);
        lemma_trimmed_alike(a.drop_last(), b.drop_last());
        lemma_decimal_alike(trimmed(a.drop_last()), trimmed(b.drop_last()));
    }
}

proof fn lemma_rgb_color_alike(a: Seq<char>, b: Seq<char>)
    requires
        differ_in_case(a, b),
    ensures
        rgb_color(a) == rgb_color(b),
{
    let open = position(a, '(');
    lemma_position(a, '(');
    lemma_position_alike(a, b, '(');
    if open < a.len() {
        lemma_cut(a, b, open);
        lemma_cut(a, b, open + 1);
        let x = a.skip(open + 1);
        let y = b.skip(open + 1);
        if x.len() > 0 {
            assert(ascii_lower(x[x.len() - 1]) == ascii_lower(y[x.len() - 1]));
            lemma_drop(x, y);
            lemma_trimmed_alike(a.take(open), b.take(open));
            let v = trimmed(a.take(open)).map_values(|c: char| ascii_lower(c));
            let w = trimmed(b.take(open)).map_values(|c: char| ascii_lower(c));
            assert(v =~= w);
            lemma_fields_alike(x.drop_last(), y.drop_last(), ',');
            let p = fields(x.drop_last(), ',');
            let q = fields(y.drop_last(), ',');
            assert forall|i: int| 0 <= i < p.len() implies rgb_channel(trimmed(#[trigger] p[i]))
                == rgb_channel(trimmed(q[i])) && alpha_channel(trimmed(p[i])) == alpha_channel(
                trimmed(q[i]),
            ) by {
                lemma_trimmed_alike(p[i], q[i]);
                lemma_rgb_channel_alike(trimmed(p[i]), trimmed(q[i]));
            }
        }
    }
}

// ---------------------------------------------------------------------------
// Hexadecimal digits
// ---------------------------------------------------------------------------

proof fn lemma_scalar_alike(c: char, d: char)
    requires
        ascii_lower(c) == ascii_lower(d),
    ensures
        same_letters(encode_scalar(c as u32), encode_scalar(d as u32)),
{
    if c != d {
        let x = seq![c];
        let y = seq![d];
        assert(is_ascii_chars(x) && is_ascii_chars(y));
        is_ascii_chars_encode_utf8(x);
        is_ascii_chars_encode_utf8(y);
        assert(x.drop_first() =~= seq![] && y.drop_first() =~= seq![]);
        assert(encode_utf8(seq![]) =~= seq![]);
        assert(encode_utf8(x) =~= encode_scalar(c as u32));
        assert(encode_utf8(y) =~= encode_scalar(d as u32));
        assert(encode_utf8(x)[0] == c as u8 && encode_utf8(y)[0] == d as u8);
    }
}

proof fn lemma_bytes_alike(a: Seq<char>, b: Seq<char>)
    requires
        differ_in_case(a, b),
    ensures
        same_letters(encode_utf8(a), encode_utf8(b)),
    decreases a.len(),
{
    if a.len() > 0 {
        assert(ascii_lower(a[0]) == ascii_lower(b[0]));
        lemma_scalar_alike(a[0], b[0]);
        lemma_drop(a, b);
        lemma_bytes_alike(a.drop_first(), b.drop_first());
        let n = encode_scalar(a[0] as u32).len();
        let x = encode_utf8(a);
        let y = encode_utf8(b);
        assert forall|i: int|
            #![trigger x[i]]
            #![trigger y[i]]
            0 <= i < x.len() implies same_letter(x[i], y[i]) by {
            if i < n {
                assert(x[i] == encode_scalar(a[0] as u32)[i]);
                assert(y[i] == encode_scalar(b[0] as u32)[i]);
            } else {
                assert(x[i] == encode_utf8(a.drop_first())[i - n]);
                assert(y[i] == encode_utf8(b.drop_first())[i - n]);
            }
        }
    }
}

proof fn lemma_boundary_alike(a: Seq<char>, b: Seq<char>, i: int)
    requires
        differ_in_case(a, b),
        0 <= i <= encode_utf8(a).len(),
    ensures
        is_char_boundary(encode_utf8(a), i) == is_char_boundary(encode_utf8(b), i),
{
    let x = encode_utf8(a);
    let y = encode_utf8(b);
    lemma_bytes_alike(a, b);
    encode_utf8_valid_utf8(a);
    encode_utf8_valid_utf8(b);
    is_char_boundary_start_end_of_seq(x);
    is_char_boundary_start_end_of_seq(y);
    if i < x.len() {
        is_char_boundary_iff_not_is_continuation_byte(x, i);
        is_char_boundary_iff_not_is_continuation_byte(y, i);
        assert(same_letter(x[i], y[i]));
    }
}

proof fn lemma_pairs_alike(a: Seq<char>, b: Seq<char>)
    requires
        differ_in_case(a, b),
        pairs_split_well(encode_utf8(a)),
    ensures
        pairs_split_well(encode_utf8(b)),
{
    let x = encode_utf8(a);
    let y = encode_utf8(b);
    lemma_bytes_alike(a, b);
    assert forall|k: int|
        0 <= k && 2 * k + 2 <= y.len() && (forall|j: int|
            0 <= j < k ==> #[trigger] long_channel(y[2 * j], y[2 * j + 1]) is Some)
            implies #[trigger] pair_splits_well(y, k) by {
        assert forall|j: int| 0 <= j < k implies #[trigger] long_channel(
            x[2 * j],
            x[2 * j + 1],
        ) is Some by {
            assert(same_letter(x[2 * j], y[2 * j]));
            assert(same_letter(x[2 * j + 1], y[2 * j + 1]));
            assert(long_channel(y[2 * j], y[2 * j + 1]) is Some);
        }
        assert(pair_splits_well(x, k));
        lemma_boundary_alike(a, b, 2 * k);
        lemma_boundary_alike(a, b, 2 * k + 2);
    }
}

proof fn lemma_hex_color_alike(a: Seq<char>, b: Seq<char>)
    requires
        differ_in_case(a, b),
    ensures
        hex_color(a) == hex_color(b),
        hex_splits_well(a) == hex_splits_well(b),
{
    if a.len() > 0 {
        assert(ascii_lower(a[0]) == ascii_lower(b[0]));
        lemma_drop(a, b);
        let c = a.drop_first();
        let d = b.drop_first();
        lemma_bytes_alike(c, d);
        let x = encode_utf8(c);
        let y = encode_utf8(d);
        assert forall|i: int| 0 <= i < x.len() implies hex_value(#[trigger] x[i]) == hex_value(y[i])
            && (x[i] == 0x2b) == (y[i] == 0x2b) by {
            assert(same_letter(x[i], y[i]));
        }
        if pairs_split_well(x) {
            lemma_pairs_alike(c, d);
        }
        if pairs_split_well(y) {
            assert(differ_in_case(d, c));
            lemma_pairs_alike(d, c);
        }
    }
}

// ---------------------------------------------------------------------------
// Law
// ---------------------------------------------------------------------------

/// Texts that differ in the case of their letters alone write out the same color, or
/// neither does. Both can be handed to `parse_color_expression`, or neither can.
pub proof fn letter_case_is_ignored(value: Seq<char>, other: Seq<char>)
    requires
        differ_in_case(value, other),
    ensures
        color_expression(value) == color_expression(other),
        hex_splits_well(trimmed(value)) == hex_splits_well(trimmed(other)),
{
    lemma_trimmed_alike(value, other);
    lemma_hex_color_alike(trimmed(value), trimmed(other));
    lemma_rgb_color_alike(trimmed(value), trimmed(other));
}

} // verus!
