//! Colors: the native clipboard format, hexadecimal notation and the `rgb` and
//! `rgba` functions.

use vstd::prelude::*;
use vstd::string::*;
use vstd::utf8::{encode_utf8, is_ascii_chars, is_ascii_chars_encode_utf8, is_char_boundary};
use crate::decimal::{all_digits, decimal_reads_back, is_digit, numeral_value};
use crate::level::{fraction_level, level_of_fraction, level_of_percent, percent_level};
use crate::text::{
    chars_of, decimal, fields, find_from, is_white_space, lemma_position, lemma_position_unique,
    lemma_trimmed, lemma_trimmed_range, position, same_text, split, string_of, trim, trimmed,
    views,
};

verus! {

broadcast use vstd::string::group_string_axioms;

// ---------------------------------------------------------------------------
// Model
// ---------------------------------------------------------------------------

/// The four channels of a color: red, green, blue and alpha.
pub open spec fn channels(color: Option<[u8; 4]>) -> Option<Seq<u8>> {
    match color {
        Some(rgba) => Some(rgba@),
        None => None,
    }
}

/// The order of the two bytes of a 16-bit channel in memory.
pub enum ByteOrder {
    Little,
    Big,
}

/// The 16-bit number at index `i` of `bytes`.
pub open spec fn channel_at(order: ByteOrder, bytes: Seq<u8>, i: int) -> nat {
    match order {
        ByteOrder::Little => (bytes[i] + 256 * bytes[i + 1]) as nat,
        ByteOrder::Big => (256 * bytes[i] + bytes[i + 1]) as nat,
    }
}

/// The 8-bit channel nearest to a 16-bit channel.
pub open spec fn narrow(channel: nat) -> u8 {
    ((channel + 128) / 257) as u8
}

/// The color in the first eight bytes of a native color.
pub open spec fn native_color(order: ByteOrder, bytes: Seq<u8>) -> Option<Seq<u8>> {
    if bytes.len() < 8 {
        None
    } else {
        Some(
            seq![
                narrow(channel_at(order, bytes, 0)),
                narrow(channel_at(order, bytes, 2)),
                narrow(channel_at(order, bytes, 4)),
                narrow(channel_at(order, bytes, 6)),
            ],
        )
    }
}

/// The native color of four channels. Each 8-bit channel fills both bytes of
/// its 16-bit channel, so that the byte order does not matter.
pub open spec fn native_bytes(rgba: Seq<u8>) -> Seq<u8> {
    seq![rgba[0], rgba[0], rgba[1], rgba[1], rgba[2], rgba[2], rgba[3], rgba[3]]
}

/// The value of a hexadecimal digit.
pub open spec fn hex_value(byte: u8) -> Option<u8> {
    if 0x30 <= byte <= 0x39 {
        Some((byte - 0x30) as u8)
    } else if 0x61 <= byte <= 0x66 {
        Some((byte - 0x61 + 10) as u8)
    } else if 0x41 <= byte <= 0x46 {
        Some((byte - 0x41 + 10) as u8)
    } else {
        None
    }
}

/// The channel of a single hexadecimal digit, which counts twice.
pub open spec fn short_channel(byte: u8) -> Option<u8> {
    match hex_value(byte) {
        Some(d) => Some((17 * d) as u8),
        None => None,
    }
}

/// The channel of two hexadecimal digits, of which the first may be a plus sign.
pub open spec fn long_channel(high: u8, low: u8) -> Option<u8> {
    match (hex_value(high), hex_value(low)) {
        (Some(h), Some(l)) => Some((16 * h + l) as u8),
        (None, Some(l)) => if high == 0x2b {
            Some(l)
        } else {
            None
        },
        _ => None,
    }
}

/// A color of four channels, if there are four.
pub open spec fn all_channels(
    red: Option<u8>,
    green: Option<u8>,
    blue: Option<u8>,
    alpha: Option<u8>,
) -> Option<Seq<u8>> {
    match (red, green, blue, alpha) {
        (Some(r), Some(g), Some(b), Some(a)) => Some(seq![r, g, b, a]),
        _ => None,
    }
}

/// The color of the hexadecimal digits `hex`.
pub open spec fn hex_digits_color(hex: Seq<u8>) -> Option<Seq<u8>> {
    if hex.len() == 3 {
        all_channels(
            short_channel(hex[0]),
            short_channel(hex[1]),
            short_channel(hex[2]),
            Some(255u8),
        )
    } else if hex.len() == 4 {
        all_channels(
            short_channel(hex[0]),
            short_channel(hex[1]),
            short_channel(hex[2]),
            short_channel(hex[3]),
        )
    } else if hex.len() == 6 {
        all_channels(
            long_channel(hex[0], hex[1]),
            long_channel(hex[2], hex[3]),
            long_channel(hex[4], hex[5]),
            Some(255u8),
        )
    } else if hex.len() == 8 {
        all_channels(
            long_channel(hex[0], hex[1]),
            long_channel(hex[2], hex[3]),
            long_channel(hex[4], hex[5]),
            long_channel(hex[6], hex[7]),
        )
    } else {
        None
    }
}

/// The color that `#` and three, four, six or eight hexadecimal digits write
/// out.
pub open spec fn hex_color(value: Seq<char>) -> Option<Seq<u8>> {
    if value.len() > 0 && value[0] == '#' {
        hex_digits_color(encode_utf8(value.drop_first()))
    } else {
        None
    }
}

/// Whether the digits can be taken two by two: no pair that is looked at begins
/// or ends inside a character.
pub open spec fn pairs_split_well(hex: Seq<u8>) -> bool {
    forall|k: int|
        0 <= k && 2 * k + 2 <= hex.len() && (forall|j: int|
            0 <= j < k ==> #[trigger] long_channel(hex[2 * j], hex[2 * j + 1]) is Some)
            ==> #[trigger] pair_splits_well(hex, k)
}

pub open spec fn pair_splits_well(hex: Seq<u8>, k: int) -> bool {
    is_char_boundary(hex, 2 * k) && is_char_boundary(hex, 2 * k + 2)
}

/// Whether `value` is no hexadecimal color of six or eight bytes, or one whose
/// digits can be taken two by two.
pub open spec fn hex_splits_well(value: Seq<char>) -> bool {
    value.len() > 0 && value[0] == '#' ==> {
        let hex = encode_utf8(value.drop_first());
        hex.len() == 6 || hex.len() == 8 ==> pairs_split_well(hex)
    }
}

pub open spec fn ascii_lower(c: char) -> char {
    if 'A' <= c <= 'Z' {
        (c as u32 + 32) as char
    } else {
        c
    }
}

/// The number from 0 to 255 that `s` writes out in decimal digits, with an
/// optional plus sign.
pub open spec fn byte_value(s: Seq<char>) -> Option<u8> {
    let digits = if s.len() > 0 && s[0] == '+' {
        s.drop_first()
    } else {
        s
    };
    if digits.len() > 0 && all_digits(digits) && numeral_value(digits) <= 255 {
        Some(numeral_value(digits) as u8)
    } else {
        None
    }
}

/// The level of a color channel: a percentage or a number from 0 to 255.
pub open spec fn rgb_channel(s: Seq<char>) -> Option<u8> {
    if s.len() > 0 && s.last() == '%' {
        percent_level(trimmed(s.drop_last()))
    } else {
        byte_value(s)
    }
}

/// The level of an alpha channel: a percentage or a fraction of one.
pub open spec fn alpha_channel(s: Seq<char>) -> Option<u8> {
    if s.len() > 0 && s.last() == '%' {
        rgb_channel(s)
    } else {
        fraction_level(s)
    }
}

/// The color that `rgb(r, g, b)` or `rgba(r, g, b, a)` writes out.
pub open spec fn rgb_color(value: Seq<char>) -> Option<Seq<u8>> {
    let open = position(value, '(');
    let rest = value.skip(open + 1);
    if open >= value.len() || rest.len() == 0 || rest.last() != ')' {
        None
    } else {
        let name = trimmed(value.take(open)).map_values(|c: char| ascii_lower(c));
        let parts = fields(rest.drop_last(), ',').map_values(|part: Seq<char>| trimmed(part));
        if name == "rgb"@ && parts.len() == 3 {
            all_channels(
                rgb_channel(parts[0]),
                rgb_channel(parts[1]),
                rgb_channel(parts[2]),
                Some(255u8),
            )
        } else if name == "rgba"@ && parts.len() == 4 {
            all_channels(
                rgb_channel(parts[0]),
                rgb_channel(parts[1]),
                rgb_channel(parts[2]),
                alpha_channel(parts[3]),
            )
        } else {
            None
        }
    }
}

/// The color that a text writes out, apart from surrounding whitespace.
pub open spec fn color_expression(value: Seq<char>) -> Option<Seq<u8>> {
    match hex_color(trimmed(value)) {
        Some(color) => Some(color),
        None => rgb_color(trimmed(value)),
    }
}

/// The upper case hexadecimal digit of a number below sixteen.
pub open spec fn hex_char(d: int) -> char {
    if d < 10 {
        (0x30 + d) as char
    } else {
        (0x41 + d - 10) as char
    }
}

pub open spec fn hex_pair(byte: u8) -> Seq<char> {
    seq![hex_char(byte as int / 16), hex_char(byte as int % 16)]
}

/// A color in hexadecimal notation. The alpha channel is left out when it is
/// opaque.
pub open spec fn color_text(rgba: Seq<u8>) -> Seq<char> {
    let opaque = seq!['#'] + hex_pair(rgba[0]) + hex_pair(rgba[1]) + hex_pair(rgba[2]);
    if rgba[3] == 255 {
        opaque
    } else {
        opaque + hex_pair(rgba[3])
    }
}

/// Whether two colors are there and the same.
pub(crate) fn same_color(a: Option<[u8; 4]>, b: Option<[u8; 4]>) -> (r: bool)
    ensures
        r == (channels(b) is Some && channels(a) == channels(b)),
{
    match (a, b) {
        (Some(c), Some(d)) => {
            let same = c[0] == d[0] && c[1] == d[1] && c[2] == d[2] && c[3] == d[3];
            assert(same ==> c@ =~= d@);
            same
        },
        _ => false,
    }
}

// ---------------------------------------------------------------------------
// Native colors
// ---------------------------------------------------------------------------

/// `u16::from_ne_bytes` puts two bytes together in the byte order of the
/// machine, which is one of the two.
#[verifier::external_body]
fn native_u16(first: u8, second: u8) -> (r: u16)
    ensures
        r == first + 256 * second || r == 256 * first + second,
{
    u16::from_ne_bytes([first, second])
}

/// The byte order of a machine that puts the bytes one and zero together to `probe`.
fn native_byte_order(probe: u16) -> (r: ByteOrder)
    requires
        probe == 1 || probe == 256,
    ensures
        channel_at(r, seq![1u8, 0u8], 0) == probe,
{
    if probe == 1 {
        ByteOrder::Little
    } else {
        ByteOrder::Big
    }
}

fn read_channel(order: &ByteOrder, bytes: &[u8], i: usize) -> (r: u8)
    requires
        i + 1 < bytes.len(),
    ensures
        r == narrow(channel_at(*order, bytes@, i as int)),
{
    let a = bytes[i] as u32;
    let b = bytes[i + 1] as u32;
    let channel: u32 = match order {
        ByteOrder::Little => a + 256 * b,
        ByteOrder::Big => 256 * a + b,
    };
    ((channel + 128) / 257) as u8
}

/// Decodes a native color in the given byte order.
pub fn decode_native_color_in(order: ByteOrder, bytes: &[u8]) -> (r: Option<[u8; 4]>)
    ensures
        channels(r) == native_color(order, bytes@),
{
    if bytes.len() < 8 {
        return None;
    }
    let rgba = [
        read_channel(&order, bytes, 0),
        read_channel(&order, bytes, 2),
        read_channel(&order, bytes, 4),
        read_channel(&order, bytes, 6),
    ];
    assert(rgba@ =~= native_color(order, bytes@)->0);
    Some(rgba)
}

/// Decodes a native color in the byte order of the machine.
pub fn decode_native_color(bytes: &[u8]) -> (r: Option<[u8; 4]>)
    ensures
        exists|order: ByteOrder| channels(r) == #[trigger] native_color(order, bytes@),
{
    let order = native_byte_order(native_u16(1, 0));
    let ghost used = order;
    let r = decode_native_color_in(order, bytes);
    assert(channels(r) == native_color(used, bytes@));
    r
}

/// Encodes a color as a native color.
pub fn encode_native_color(rgba: [u8; 4]) -> (r: Vec<u8>)
    ensures
        r@ == native_bytes(rgba@),
{
    let mut out: Vec<u8> = Vec::new();
    let mut i: usize = 0;
    while i < 4
        invariant
            i <= 4,
            out@ == native_bytes(rgba@).take(2 * i),
        decreases 4 - i,
    {
        out.push(rgba[i]);
        out.push(rgba[i]);
        i = i + 1;
        assert(out@ =~= native_bytes(rgba@).take(2 * i));
    }
    assert(native_bytes(rgba@).take(8) =~= native_bytes(rgba@));
    out
}

/// A native color decodes to the color it was encoded from, in either byte
/// order and whatever comes after it.
pub proof fn native_color_round_trip(order: ByteOrder, rgba: Seq<u8>, rest: Seq<u8>)
    requires
        rgba.len() == 4,
    ensures
        native_color(order, native_bytes(rgba) + rest) == Some(rgba),
{
    let bytes = native_bytes(rgba) + rest;
    assert(native_color(order, bytes)->0 =~= rgba);
}

// ---------------------------------------------------------------------------
// Hexadecimal colors
// ---------------------------------------------------------------------------

/// The value of a hexadecimal digit.
pub fn hex_digit(byte: u8) -> (r: Option<u8>)
    ensures
        r == hex_value(byte),
{
    if 0x30 <= byte && byte <= 0x39 {
        Some(byte - 0x30)
    } else if 0x61 <= byte && byte <= 0x66 {
        Some(byte - 0x61 + 10)
    } else if 0x41 <= byte && byte <= 0x46 {
        Some(byte - 0x41 + 10)
    } else {
        None
    }
}

fn expand(byte: u8) -> (r: Option<u8>)
    ensures
        r == short_channel(byte),
{
    match hex_digit(byte) {
        Some(d) => {
            assert((d << 4) | d == 17 * d) by (bit_vector)
                requires
                    d < 16,
            ;
            Some((d << 4) | d)
        },
        None => None,
    }
}

fn pair_channel(high: u8, low: u8) -> (r: Option<u8>)
    ensures
        r == long_channel(high, low),
{
    match hex_digit(low) {
        None => None,
        Some(l) => match hex_digit(high) {
            Some(h) => Some(16 * h + l),
            None => if high == 0x2b {
                Some(l)
            } else {
                None
            },
        },
    }
}

fn gather(red: Option<u8>, green: Option<u8>, blue: Option<u8>, alpha: Option<u8>) -> (r: Option<
    [u8; 4],
>)
    ensures
        channels(r) == all_channels(red, green, blue, alpha),
{
    match (red, green, blue, alpha) {
        (Some(red), Some(green), Some(blue), Some(alpha)) => {
            let rgba = [red, green, blue, alpha];
            assert(rgba@ =~= seq![red, green, blue, alpha]);
            Some(rgba)
        },
        _ => None,
    }
}

/// Reads a color in hexadecimal notation.
pub fn parse_hex_color(value: &str) -> (r: Option<[u8; 4]>)
    requires
        hex_splits_well(value@),
    ensures
        channels(r) == hex_color(value@),
{
    let count = value.unicode_len();
    if count == 0 || value.get_char(0) != '#' {
        return None;
    }
    let hex = value.substring_char(1, count).as_bytes();
    assert(value@.subrange(1, count as int) =~= value@.drop_first());
    let n = hex.len();
    if n == 3 {
        gather(expand(hex[0]), expand(hex[1]), expand(hex[2]), Some(255))
    } else if n == 4 {
        gather(expand(hex[0]), expand(hex[1]), expand(hex[2]), expand(hex[3]))
    } else if n == 6 {
        gather(
            pair_channel(hex[0], hex[1]),
            pair_channel(hex[2], hex[3]),
            pair_channel(hex[4], hex[5]),
            Some(255),
        )
    } else if n == 8 {
        gather(
            pair_channel(hex[0], hex[1]),
            pair_channel(hex[2], hex[3]),
            pair_channel(hex[4], hex[5]),
            pair_channel(hex[6], hex[7]),
        )
    } else {
        None
    }
}

fn push_hex(out: &mut String, byte: u8)
    ensures
        final(out)@ == old(out)@ + hex_pair(byte),
{
    out.push(upper_digit(byte / 16));
    out.push(upper_digit(byte % 16));
    assert(out@ =~= old(out)@ + hex_pair(byte));
}

fn upper_digit(d: u8) -> (r: char)
    requires
        d < 16,
    ensures
        r == hex_char(d as int),
{
    if d < 10 {
        (0x30 + d) as char
    } else {
        (0x41 + (d - 10)) as char
    }
}

/// Writes a color in hexadecimal notation.
pub fn format_color(rgba: [u8; 4]) -> (r: String)
    ensures
        r@ == color_text(rgba@),
{
    let mut out = String::new();
    out.push('#');
    assert(out@ =~= seq!['#']);
    push_hex(&mut out, rgba[0]);
    push_hex(&mut out, rgba[1]);
    push_hex(&mut out, rgba[2]);
    if rgba[3] != 255 {
        push_hex(&mut out, rgba[3]);
    }
    out
}

// ---------------------------------------------------------------------------
// Color functions
// ---------------------------------------------------------------------------

fn lower_case(s: &str) -> (r: String)
    ensures
        r@ == s@.map_values(|c: char| ascii_lower(c)),
{
    let mut out = String::new();
    for c in it: s.chars()
        invariant
            it.seq() == s@,
            out@ == s@.take(it.index()).map_values(|c: char| ascii_lower(c)),
    {
        let lower = if 'A' <= c && c <= 'Z' { (c as u8 + 32) as char } else { c };
        out.push(lower);
        assert(s@.take(it.index() + 1).map_values(|c: char| ascii_lower(c)) =~= s@.take(
            it.index(),
        ).map_values(|c: char| ascii_lower(c)).push(ascii_lower(c)));
    }
    assert(s@.take(s@.len() as int) =~= s@);
    out
}

fn parse_byte(s: &str) -> (r: Option<u8>)
    ensures
        r == byte_value(s@),
{
    let chars = chars_of(s);
    let from: usize = if chars.len() > 0 && chars[0] == '+' { 1 } else { 0 };
    let ghost digits = if s@.len() > 0 && s@[0] == '+' {
        s@.drop_first()
    } else {
        s@
    };
    assert(digits =~= chars@.skip(from as int));
    if from == chars.len() {
        return None;
    }
    let mut value: u32 = 0;
    let mut i: usize = from;
    proof {
        assert(digits.take(0) =~= seq![]);
    }
    while i < chars.len()
        invariant
            from <= i <= chars.len(),
            digits == chars@.skip(from as int),
            digits == (if s@.len() > 0 && s@[0] == '+' {
                s@.drop_first()
            } else {
                s@
            }),
            all_digits(digits.take(i - from)),
            value == numeral_value(digits.take(i - from)) || (value == 256 && numeral_value(
                digits.take(i - from),
            ) >= 256),
            value <= 256,
        decreases chars.len() - i,
    {
        let c = chars[i];
        assert(digits[i - from] == c);
        if !('0' <= c && c <= '9') {
            assert(!is_digit(digits[i - from]));
            return None;
        }
        proof {
            let next = digits.take(i - from + 1);
            assert(next.drop_last() =~= digits.take(i - from));
            assert forall|k: int| 0 <= k < next.len() implies is_digit(#[trigger] next[k]) by {
                if k < i - from {
                    assert(is_digit(digits.take(i - from)[k]));
                }
            }
        }
        value = value * 10 + (c as u32 - 48);
        if value > 256 {
            value = 256;
        }
        i = i + 1;
    }
    assert(digits.take(digits.len() as int) =~= digits);
    if value <= 255 {
        Some(value as u8)
    } else {
        None
    }
}

fn ends_with_percent(s: &str, count: usize) -> (r: bool)
    requires
        count == s@.len(),
    ensures
        r == (s@.len() > 0 && s@.last() == '%'),
{
    count > 0 && s.get_char(count - 1) == '%'
}

/// Reads a color channel.
pub fn parse_rgb_channel(value: &str) -> (r: Option<u8>)
    ensures
        r == rgb_channel(value@),
{
    let count = value.unicode_len();
    if ends_with_percent(value, count) {
        assert(value@.subrange(0, count - 1) =~= value@.drop_last());
        level_of_percent(trim(value.substring_char(0, count - 1)))
    } else {
        parse_byte(value)
    }
}

/// Reads an alpha channel.
pub fn parse_alpha_channel(value: &str) -> (r: Option<u8>)
    ensures
        r == alpha_channel(value@),
{
    let count = value.unicode_len();
    if ends_with_percent(value, count) {
        parse_rgb_channel(value)
    } else {
        level_of_fraction(value)
    }
}

/// Reads a color that is written as `rgb(r, g, b)` or `rgba(r, g, b, a)`.
pub fn parse_rgb_color(value: &str) -> (r: Option<[u8; 4]>)
    ensures
        channels(r) == rgb_color(value@),
{
    let chars = chars_of(value);
    let n = chars.len();
    let open = find_from(&chars, 0, '(');
    proof {
        assert(chars@.skip(0) =~= value@);
        lemma_position(value@, '(');
    }
    if open == n || open + 1 == n || chars[n - 1] != ')' {
        return None;
    }
    let ghost rest = value@.skip(open + 1);
    let head = string_of(&chars, 0, open);
    let arguments = string_of(&chars, open + 1, n - 1);
    proof {
        assert(head@ =~= value@.take(open as int));
        assert(arguments@ =~= rest.drop_last());
        assert(rest.last() == value@.last());
    }
    let name = lower_case(trim(head.as_str()));
    let parts = split(arguments.as_str(), ',');
    let ghost trims = fields(rest.drop_last(), ',').map_values(|part: Seq<char>| trimmed(part));
    proof {
        assert(parts.len() == trims.len());
        assert forall|i: int| 0 <= i < parts.len() implies trims[i] == trimmed(
            #[trigger] parts@[i]@,
        ) by {
            assert(views(parts@)[i] == parts@[i]@);
        }
    }
    if same_text(name.as_str(), "rgb") && parts.len() == 3 {
        return gather(
            parse_rgb_channel(trim(parts[0].as_str())),
            parse_rgb_channel(trim(parts[1].as_str())),
            parse_rgb_channel(trim(parts[2].as_str())),
            Some(255),
        );
    }
    if same_text(name.as_str(), "rgba") && parts.len() == 4 {
        return gather(
            parse_rgb_channel(trim(parts[0].as_str())),
            parse_rgb_channel(trim(parts[1].as_str())),
            parse_rgb_channel(trim(parts[2].as_str())),
            parse_alpha_channel(trim(parts[3].as_str())),
        );
    }
    proof {
        reveal_strlit("rgb");
        reveal_strlit("rgba");
    }
    None
}

/// Reads a color: the whole text, apart from surrounding whitespace, is a
/// color in hexadecimal notation or a color function.
pub fn parse_color_expression(value: &str) -> (r: Option<[u8; 4]>)
    requires
        hex_splits_well(trimmed(value@)),
    ensures
        channels(r) == color_expression(value@),
{
    let trimmed_value = trim(value);
    match parse_hex_color(trimmed_value) {
        Some(rgba) => Some(rgba),
        None => parse_rgb_color(trimmed_value),
    }
}

fn pairs_can_split(text: &str) -> (r: bool)
    requires
        encode_utf8(text@).len() == 6 || encode_utf8(text@).len() == 8,
    ensures
        r == pairs_split_well(encode_utf8(text@)),
{
    let hex = text.as_bytes();
    let mut k: usize = 0;
    while 2 * k < hex.len()
        invariant
            hex@ == encode_utf8(text@),
            hex.len() == 6 || hex.len() == 8,
            2 * k <= hex.len(),
            forall|j: int| 0 <= j < k ==> #[trigger] pair_splits_well(hex@, j),
            forall|j: int|
                0 <= j < k ==> #[trigger] long_channel(hex@[2 * j], hex@[2 * j + 1]) is Some,
        ensures
            pairs_split_well(hex@),
        decreases hex.len() - 2 * k,
    {
        if !text.is_char_boundary(2 * k) || !text.is_char_boundary(2 * k + 2) {
            assert(!pair_splits_well(hex@, k as int));
            return false;
        }
        assert(pair_splits_well(hex@, k as int));
        if pair_channel(hex[2 * k], hex[2 * k + 1]).is_none() {
            assert(long_channel(hex@[2 * k], hex@[2 * k + 1]) is None);
            break;
        }
        k = k + 1;
    }
    true
}

/// Whether a text can be handed to `parse_color_expression`: its hexadecimal
/// digits, if it has six or eight bytes of them, do not split a character.
pub fn can_parse_color(value: &str) -> (r: bool)
    ensures
        r == hex_splits_well(trimmed(value@)),
{
    let expression = trim(value);
    let count = expression.unicode_len();
    if count == 0 || expression.get_char(0) != '#' {
        return true;
    }
    let text = expression.substring_char(1, count);
    assert(text@ =~= expression@.drop_first());
    let n = text.as_bytes().len();
    if n != 6 && n != 8 {
        return true;
    }
    pairs_can_split(text)
}

proof fn lemma_hex_pair(byte: u8)
    ensures
        hex_pair(byte).len() == 2,
        hex_pair(byte)[0] <= '\u{7f}',
        hex_pair(byte)[1] <= '\u{7f}',
        !is_white_space(hex_pair(byte)[1]),
        long_channel(hex_pair(byte)[0] as u8, hex_pair(byte)[1] as u8) == Some(byte),
{
}

/// What `format_color` writes, `parse_color_expression` reads back, for every
/// color.
pub proof fn color_text_round_trip(rgba: Seq<u8>)
    requires
        rgba.len() == 4,
    ensures
        hex_splits_well(trimmed(color_text(rgba))),
        color_expression(color_text(rgba)) == Some(rgba),
{
    let text = color_text(rgba);
    lemma_hex_pair(rgba[0]);
    lemma_hex_pair(rgba[1]);
    lemma_hex_pair(rgba[2]);
    lemma_hex_pair(rgba[3]);
    lemma_trimmed_range(text, 0, text.len() as int);
    assert(text.subrange(0, text.len() as int) =~= text);
    let digits = text.drop_first();
    assert(is_ascii_chars(digits)) by {
        assert forall|i: int| 0 <= i < digits.len() implies '\0' <= #[trigger] digits[i]
            <= '\u{7f}' by {
            assert(digits[i] == text[i + 1]);
        }
    }
    is_ascii_chars_encode_utf8(digits);
    let hex = encode_utf8(digits);
    assert forall|i: int| 0 <= i < digits.len() implies #[trigger] hex[i] == text[i + 1] as u8 by {
        assert(digits[i] == text[i + 1]);
    }
    assert(hex_color(text)->0 =~= rgba);
    assert forall|k: int| 0 <= k && 2 * k + 2 <= hex.len() implies #[trigger] pair_splits_well(
        hex,
        k,
    ) by {
        lemma_ascii_boundary(digits, 2 * k);
        lemma_ascii_boundary(digits, 2 * k + 2);
    }
}

proof fn lemma_ascii_boundary(chars: Seq<char>, i: int)
    requires
        is_ascii_chars(chars),
        0 <= i <= chars.len(),
    ensures
        is_char_boundary(encode_utf8(chars), i),
{
    let bytes = encode_utf8(chars);
    vstd::utf8::encode_utf8_valid_utf8(chars);
    is_ascii_chars_encode_utf8(chars);
    vstd::utf8::is_char_boundary_start_end_of_seq(bytes);
    if 0 < i < chars.len() {
        vstd::utf8::is_char_boundary_iff_not_is_continuation_byte(bytes, i);
        assert(chars[i] as u8 == bytes[i]);
    }
}

/// Whitespace around a color does not matter.
pub proof fn surrounding_whitespace_is_ignored(value: Seq<char>)
    ensures
        color_expression(trimmed(value)) == color_expression(value),
        hex_splits_well(trimmed(trimmed(value))) == hex_splits_well(trimmed(value)),
{
    let _ = lemma_trimmed(value);
}

/// Each channel of a native color becomes the 8-bit channel nearest to it, and the two byte
/// orders differ in the order of the bytes alone.
pub proof fn native_channels_are_nearest(bytes: Seq<u8>, i: int)
    requires
        bytes.len() >= 8,
        0 <= i < 4,
    ensures
        native_color(ByteOrder::Little, bytes) matches Some(rgba) && rgba.len() == 4 && 257 * 2
            * rgba[i] <= 2 * (bytes[2 * i] + 256 * bytes[2 * i + 1]) + 257 && 2 * (bytes[2 * i]
            + 256 * bytes[2 * i + 1]) <= 257 * 2 * rgba[i] + 257,
        native_color(ByteOrder::Big, bytes) matches Some(rgba) && rgba.len() == 4 && 257 * 2
            * rgba[i] <= 2 * (256 * bytes[2 * i] + bytes[2 * i + 1]) + 257 && 2 * (256 * bytes[2
            * i] + bytes[2 * i + 1]) <= 257 * 2 * rgba[i] + 257,
{
    let little = native_color(ByteOrder::Little, bytes)->0;
    let big = native_color(ByteOrder::Big, bytes)->0;
    assert(i == 0 || i == 1 || i == 2 || i == 3);
    assert(little[i] == narrow(channel_at(ByteOrder::Little, bytes, 2 * i)));
    assert(big[i] == narrow(channel_at(ByteOrder::Big, bytes, 2 * i)));
    lemma_narrow_is_nearest(channel_at(ByteOrder::Little, bytes, 2 * i));
    lemma_narrow_is_nearest(channel_at(ByteOrder::Big, bytes, 2 * i));
}

proof fn lemma_narrow_is_nearest(channel: nat)
    requires
        channel <= 65535,
    ensures
        514 * narrow(channel) <= 2 * channel + 257,
        2 * channel <= 514 * narrow(channel) + 257,
{
}

/// Whether a character is a hexadecimal digit.
pub open spec fn is_hex_char(c: char) -> bool {
    '0' <= c <= '9' || 'a' <= c <= 'f' || 'A' <= c <= 'F'
}

/// The value of a hexadecimal digit.
pub open spec fn hex_char_value(c: char) -> int {
    if '0' <= c <= '9' {
        c as int - '0' as int
    } else if 'a' <= c <= 'f' {
        c as int - 'a' as int + 10
    } else {
        c as int - 'A' as int + 10
    }
}

proof fn lemma_hex_bytes(digits: Seq<char>)
    requires
        forall|i: int| 0 <= i < digits.len() ==> is_hex_char(#[trigger] digits[i]),
    ensures
        encode_utf8(digits).len() == digits.len(),
        forall|i: int| 0 <= i < digits.len() ==> hex_value(#[trigger] encode_utf8(digits)[i]) == Some(
            hex_char_value(digits[i]) as u8,
        ),
{
    assert(is_ascii_chars(digits)) by {
        assert forall|i: int| 0 <= i < digits.len() implies '\0' <= #[trigger] digits[i]
            <= '\u{7f}' by {
            assert(is_hex_char(digits[i]));
        }
    }
    is_ascii_chars_encode_utf8(digits);
    assert forall|i: int| 0 <= i < digits.len() implies hex_value(
        #[trigger] encode_utf8(digits)[i],
    ) == Some(hex_char_value(digits[i]) as u8) by {
        assert(is_hex_char(digits[i]));
    }
}

proof fn lemma_hex_text(digits: Seq<char>)
    requires
        forall|i: int| 0 <= i < digits.len() ==> is_hex_char(#[trigger] digits[i]),
    ensures
        trimmed(seq!['#'] + digits) == seq!['#'] + digits,
        hex_color(seq!['#'] + digits) == hex_digits_color(encode_utf8(digits)),
        digits.len() > 0 ==> position(seq!['#'] + digits, '(') == digits.len() + 1,
{
    let text = seq!['#'] + digits;
    assert(text.drop_first() =~= digits);
    let n = text.len() as int;
    assert forall|k: int| 0 <= k < n implies text[k] != '(' && !is_white_space(text[k]) by {
        if k > 0 {
            assert(is_hex_char(digits[k - 1]));
            assert(text[k] == digits[k - 1]);
        }
    }
    lemma_trimmed_range(text, 0, n);
    assert(text.subrange(0, n) =~= text);
    lemma_position_unique(text, '(', n);
}

/// Each digit of the short notation counts twice, two digits make a number of sixteens and
/// ones, and a color without an alpha channel is opaque.
pub proof fn hexadecimal_channels(digits: Seq<char>)
    requires
        digits.len() == 3 || digits.len() == 4 || digits.len() == 6 || digits.len() == 8,
        forall|i: int| 0 <= i < digits.len() ==> is_hex_char(#[trigger] digits[i]),
    ensures
        color_expression(seq!['#'] + digits) matches Some(rgba) && rgba.len() == 4 && if digits.len()
            <= 4 {
            &&& forall|i: int|
                0 <= i < digits.len() ==> #[trigger] rgba[i] == 16 * hex_char_value(digits[i])
                    + hex_char_value(digits[i])
            &&& digits.len() == 3 ==> rgba[3] == 255
        } else {
            &&& forall|i: int|
                0 <= 2 * i < digits.len() ==> #[trigger] rgba[i] == 16 * hex_char_value(
                    digits[2 * i],
                ) + hex_char_value(digits[2 * i + 1])
            &&& digits.len() == 6 ==> rgba[3] == 255
        },
{
    lemma_hex_bytes(digits);
    lemma_hex_text(digits);
    let hex = encode_utf8(digits);
    let n = digits.len() as int;
    assert forall|i: int| 0 <= i < n implies 0 <= hex_char_value(#[trigger] digits[i]) <= 15 by {
        assert(is_hex_char(digits[i]));
    }
    assert(hex_value(hex[0]) == Some(hex_char_value(digits[0]) as u8));
    assert(hex_value(hex[1]) == Some(hex_char_value(digits[1]) as u8));
    assert(hex_value(hex[2]) == Some(hex_char_value(digits[2]) as u8));
    if n >= 4 {
        assert(hex_value(hex[3]) == Some(hex_char_value(digits[3]) as u8));
    }
    if n >= 6 {
        assert(hex_value(hex[4]) == Some(hex_char_value(digits[4]) as u8));
        assert(hex_value(hex[5]) == Some(hex_char_value(digits[5]) as u8));
    }
    if n >= 8 {
        assert(hex_value(hex[6]) == Some(hex_char_value(digits[6]) as u8));
        assert(hex_value(hex[7]) == Some(hex_char_value(digits[7]) as u8));
    }
    let rgba = hex_digits_color(hex)->0;
    if n <= 4 {
        assert(rgba[0] == short_channel(hex[0])->0);
    } else {
        assert(rgba[0] == long_channel(hex[0], hex[1])->0);
    }
}

/// A color in hexadecimal notation has three, four, six or eight digits.
pub proof fn other_digits_are_no_color(digits: Seq<char>)
    requires
        digits.len() != 3 && digits.len() != 4 && digits.len() != 6 && digits.len() != 8,
        forall|i: int| 0 <= i < digits.len() ==> is_hex_char(#[trigger] digits[i]),
    ensures
        color_expression(seq!['#'] + digits) is None,
{
    lemma_hex_bytes(digits);
    lemma_hex_text(digits);
    let text = seq!['#'] + digits;
    if digits.len() == 0 {
        lemma_position_unique(text, '(', 1);
    }
}

proof fn lemma_fields_step(a: Seq<char>, rest: Seq<char>)
    requires
        !a.contains(','),
    ensures
        fields(a + seq![','] + rest, ',') == seq![a] + fields(rest, ','),
        fields(a, ',') == seq![a],
{
    let s = a + seq![','] + rest;
    let n = a.len() as int;
    assert forall|k: int| 0 <= k < n implies s[k] != ',' by {
        assert(s[k] == a[k]);
        assert(a.contains(a[k]));
    }
    lemma_position_unique(s, ',', n);
    assert(s.take(n) =~= a);
    assert(s.skip(n + 1) =~= rest);
    assert forall|k: int| 0 <= k < n implies a[k] != ',' by {
        assert(a.contains(a[k]));
    }
    lemma_position_unique(a, ',', n);
}

/// A color function is read by its arguments, apart from whitespace around each: three
/// color channels, and an alpha channel for the one that has it.
pub proof fn color_functions_are_read_by_argument(
    a: Seq<char>,
    b: Seq<char>,
    c: Seq<char>,
    d: Seq<char>,
)
    requires
        !a.contains(','),
        !b.contains(','),
        !c.contains(','),
        !d.contains(','),
    ensures
        color_expression(
            seq!['r', 'g', 'b', '('] + (a + seq![','] + (b + seq![','] + c)) + seq![')'],
        ) == (match (rgb_channel(trimmed(a)), rgb_channel(trimmed(b)), rgb_channel(trimmed(c))) {
            (Some(r), Some(g), Some(b)) => Some(seq![r, g, b, 255]),
            _ => None,
        }),
        color_expression(
            seq!['r', 'g', 'b', 'a', '('] + (a + seq![','] + (b + seq![','] + (c + seq![','] + d)))
                + seq![')'],
        ) == (match (
            rgb_channel(trimmed(a)),
            rgb_channel(trimmed(b)),
            rgb_channel(trimmed(c)),
            alpha_channel(trimmed(d)),
        ) {
            (Some(r), Some(g), Some(b), Some(alpha)) => Some(seq![r, g, b, alpha]),
            _ => None,
        }),
{
    let three = a + seq![','] + (b + seq![','] + c);
    let four = a + seq![','] + (b + seq![','] + (c + seq![','] + d));
    lemma_fields_step(c, d);
    lemma_fields_step(d, d);
    lemma_fields_step(b, c);
    lemma_fields_step(b, c + seq![','] + d);
    lemma_fields_step(a, b + seq![','] + c);
    lemma_fields_step(a, b + seq![','] + (c + seq![','] + d));
    assert(fields(three, ',') =~= seq![a, b, c]);
    assert(fields(four, ',') =~= seq![a, b, c, d]);
    lemma_function_text(seq!['r', 'g', 'b'], three);
    lemma_function_text(seq!['r', 'g', 'b', 'a'], four);
    assert(seq!['r', 'g', 'b'] + seq!['('] =~= seq!['r', 'g', 'b', '(']);
    assert(seq!['r', 'g', 'b', 'a'] + seq!['('] =~= seq!['r', 'g', 'b', 'a', '(']);
    reveal_strlit("rgb");
    reveal_strlit("rgba");
    assert("rgb"@ =~= seq!['r', 'g', 'b']);
    assert("rgba"@ =~= seq!['r', 'g', 'b', 'a']);
    assert("rgb"@.len() != "rgba"@.len());
    let x = seq![a, b, c].map_values(|part: Seq<char>| trimmed(part));
    let y = seq![a, b, c, d].map_values(|part: Seq<char>| trimmed(part));
    assert(x[0] == trimmed(a) && x[1] == trimmed(b) && x[2] == trimmed(c));
    assert(y[0] == trimmed(a) && y[1] == trimmed(b) && y[2] == trimmed(c) && y[3] == trimmed(d));
}

proof fn lemma_function_text(name: Seq<char>, arguments: Seq<char>)
    requires
        name.len() > 0,
        forall|i: int| 0 <= i < name.len() ==> 'a' <= #[trigger] name[i] <= 'z',
    ensures
        ({
            let text = name + seq!['('] + arguments + seq![')'];
            &&& trimmed(text) == text
            &&& hex_color(text) is None
            &&& position(text, '(') == name.len()
            &&& text.take(name.len() as int) == name
            &&& trimmed(name).map_values(|c: char| ascii_lower(c)) == name
            &&& text.skip(name.len() as int + 1).drop_last() == arguments
            &&& text.skip(name.len() as int + 1).len() > 0
            &&& text.skip(name.len() as int + 1).last() == ')'
        }),
{
    let text = name + seq!['('] + arguments + seq![')'];
    let n = name.len() as int;
    let m = text.len() as int;
    assert('a' <= name[0] <= 'z' && 'a' <= name[n - 1] <= 'z');
    assert(text[0] == name[0] && text[m - 1] == ')');
    lemma_trimmed_range(text, 0, m);
    assert(text.subrange(0, m) =~= text);
    lemma_trimmed_range(name, 0, n);
    assert(name.subrange(0, n) =~= name);
    assert forall|k: int| 0 <= k < n implies text[k] != '(' by {
        assert(text[k] == name[k]);
        assert('a' <= name[k] <= 'z');
    }
    lemma_position_unique(text, '(', n);
    assert(text.take(n) =~= name);
    assert(name.map_values(|c: char| ascii_lower(c)) =~= name) by {
        assert forall|k: int| 0 <= k < n implies ascii_lower(name[k]) == name[k] by {
            assert('a' <= name[k] <= 'z');
        }
    }
    assert(text.skip(n + 1).drop_last() =~= arguments);
}

/// A color channel that is a number is that number, if it is at most 255; leading zeros and
/// a plus sign do not matter. An alpha channel in percent is read like any other.
pub proof fn channels_are_numbers(n: nat, s: Seq<char>)
    ensures
        rgb_channel(decimal(n)) == (if n <= 255 {
            Some(n as u8)
        } else {
            None
        }),
        rgb_channel(seq!['+'] + decimal(n)) == rgb_channel(decimal(n)),
        rgb_channel(seq!['0'] + decimal(n)) == rgb_channel(decimal(n)),
        alpha_channel(s.push('%')) == rgb_channel(s.push('%')),
        s.len() > 0 && s.last() != '%' && !all_digits(s) && !(s[0] == '+' && all_digits(
            s.drop_first(),
        )) ==> rgb_channel(s) is None,
{
    decimal_reads_back(n);
    let digits = decimal(n);
    assert(is_digit(digits[0]) && is_digit(digits[digits.len() - 1]));
    let signed = seq!['+'] + digits;
    assert(signed.drop_first() =~= digits);
    assert(signed.last() == digits.last());
    let padded = seq!['0'] + digits;
    assert(padded.last() == digits.last());
    lemma_leading_zero(digits);
    assert(s.push('%').last() == '%');
}

proof fn lemma_leading_zero(digits: Seq<char>)
    requires
        all_digits(digits),
    ensures
        all_digits(seq!['0'] + digits),
        numeral_value(seq!['0'] + digits) == numeral_value(digits),
    decreases digits.len(),
{
    let text = seq!['0'] + digits;
    assert forall|i: int| 0 <= i < text.len() implies is_digit(#[trigger] text[i]) by {
        if i > 0 {
            assert(text[i] == digits[i - 1]);
        }
    }
    if digits.len() > 0 {
        let fewer = digits.drop_last();
        assert forall|i: int| 0 <= i < fewer.len() implies is_digit(#[trigger] fewer[i]) by {
            assert(fewer[i] == digits[i]);
        }
        lemma_leading_zero(fewer);
        assert(text.drop_last() =~= seq!['0'] + fewer);
        assert(text.last() == digits.last());
    } else {
        assert(text.drop_last() =~= seq![]);
        assert(numeral_value(text.drop_last()) == 0);
    }
}

/// The usual notation of a color is a number sign and two upper-case hexadecimal digits for
/// each channel; the alpha channel is written only if the color is not opaque.
pub proof fn the_usual_notation(rgba: Seq<u8>, i: int)
    requires
        rgba.len() == 4,
        0 <= i < 4,
    ensures
        ({
            let text = color_text(rgba);
            &&& text.len() == if rgba[3] == 255 {
                7nat
            } else {
                9nat
            }
            &&& text[0] == '#'
            &&& 2 * i + 2 < text.len() ==> {
                let high = text[2 * i + 1];
                let low = text[2 * i + 2];
                &&& ('0' <= high <= '9' || 'A' <= high <= 'F')
                &&& ('0' <= low <= '9' || 'A' <= low <= 'F')
                &&& rgba[i] == 16 * hex_char_value(high) + hex_char_value(low)
            }
        }),
{
    let text = color_text(rgba);
    if 2 * i + 2 < text.len() {
        assert(i == 0 || i == 1 || i == 2 || i == 3);
        let byte = rgba[i];
        assert(text[2 * i + 1] == hex_char(byte as int / 16));
        assert(text[2 * i + 2] == hex_char(byte as int % 16));
        lemma_hex_char(byte as int / 16);
        lemma_hex_char(byte as int % 16);
    }
}

proof fn lemma_hex_char(d: int)
    requires
        0 <= d < 16,
    ensures
        '0' <= hex_char(d) <= '9' || 'A' <= hex_char(d) <= 'F',
        hex_char_value(hex_char(d)) == d,
{
}

/// A color function takes just its arguments, and no other function gives a color.
pub proof fn other_functions_are_no_color(
    name: Seq<char>,
    a: Seq<char>,
    b: Seq<char>,
    c: Seq<char>,
    d: Seq<char>,
)
    requires
        !a.contains(','),
        !b.contains(','),
        !c.contains(','),
        !d.contains(','),
        name.len() > 0,
        forall|i: int| 0 <= i < name.len() ==> 'a' <= #[trigger] name[i] <= 'z',
    ensures
        color_expression(
            seq!['r', 'g', 'b', '('] + (a + seq![','] + (b + seq![','] + (c + seq![','] + d)))
                + seq![')'],
        ) is None,
        color_expression(
            seq!['r', 'g', 'b', 'a', '('] + (a + seq![','] + (b + seq![','] + c)) + seq![')'],
        ) is None,
        color_expression(
            seq!['r', 'g', 'b', '('] + (a + seq![','] + b) + seq![')'],
        ) is None,
        name != seq!['r', 'g', 'b'] && name != seq!['r', 'g', 'b', 'a'] ==> color_expression(
            name + seq!['('] + a + seq![')'],
        ) is None,
        color_expression(name) is None,
{
    let two = a + seq![','] + b;
    let three = a + seq![','] + (b + seq![','] + c);
    let four = a + seq![','] + (b + seq![','] + (c + seq![','] + d));
    assert(fields(two, ',').len() == 2) by {
        lemma_fields_step(b, b);
        lemma_fields_step(a, b);
    }
    assert(fields(three, ',').len() == 3) by {
        lemma_fields_step(c, c);
        lemma_fields_step(b, c);
        lemma_fields_step(a, b + seq![','] + c);
    }
    assert(fields(four, ',').len() == 4) by {
        lemma_fields_step(d, d);
        lemma_fields_step(c, d);
        lemma_fields_step(b, c + seq![','] + d);
        lemma_fields_step(a, b + seq![','] + (c + seq![','] + d));
    }
    lemma_no_function_color(seq!['r', 'g', 'b'], two);
    lemma_no_function_color(seq!['r', 'g', 'b', 'a'], three);
    lemma_no_function_color(seq!['r', 'g', 'b'], four);
    assert(seq!['r', 'g', 'b'] + seq!['('] =~= seq!['r', 'g', 'b', '(']);
    assert(seq!['r', 'g', 'b', 'a'] + seq!['('] =~= seq!['r', 'g', 'b', 'a', '(']);
    if name != seq!['r', 'g', 'b'] && name != seq!['r', 'g', 'b', 'a'] {
        lemma_no_function_color(name, a);
    }
    lemma_no_name_color(name);
}

proof fn lemma_no_function_color(name: Seq<char>, arguments: Seq<char>)
    requires
        name.len() > 0,
        forall|i: int| 0 <= i < name.len() ==> 'a' <= #[trigger] name[i] <= 'z',
        name != seq!['r', 'g', 'b'] || fields(arguments, ',').len() != 3,
        name != seq!['r', 'g', 'b', 'a'] || fields(arguments, ',').len() != 4,
    ensures
        color_expression(name + seq!['('] + arguments + seq![')']) is None,
{
    lemma_function_text(name, arguments);
    reveal_strlit("rgb");
    reveal_strlit("rgba");
    assert("rgb"@ =~= seq!['r', 'g', 'b']);
    assert("rgba"@ =~= seq!['r', 'g', 'b', 'a']);
}

proof fn lemma_no_name_color(name: Seq<char>)
    requires
        name.len() > 0,
        forall|i: int| 0 <= i < name.len() ==> 'a' <= #[trigger] name[i] <= 'z',
    ensures
        color_expression(name) is None,
{
    let n = name.len() as int;
    assert('a' <= name[0] <= 'z' && 'a' <= name[n - 1] <= 'z');
    lemma_trimmed_range(name, 0, n);
    assert(name.subrange(0, n) =~= name);
    assert forall|k: int| 0 <= k < n implies name[k] != '(' by {
        assert('a' <= name[k] <= 'z');
    }
    lemma_position_unique(name, '(', n);
}

/// A channel that ends in a percent sign is a percentage, whitespace before the sign apart;
/// an alpha channel without one is a fraction.
pub proof fn percent_signs_mark_percentages(s: Seq<char>)
    ensures
        rgb_channel(s.push('%')) == percent_level(trimmed(s)),
        alpha_channel(s.push('%')) == percent_level(trimmed(s)),
        s.len() == 0 || s.last() != '%' ==> alpha_channel(s) == fraction_level(s),
{
    assert(s.push('%').drop_last() =~= s);
}

/// Upper-case letters stand for their lower-case letters, and nothing else changes.
pub proof fn letters_have_two_cases(c: char)
    ensures
        'A' <= c <= 'Z' ==> ascii_lower(c) as u32 == c as u32 + 32,
        !('A' <= c <= 'Z') ==> ascii_lower(c) == c,
{
}

/// A byte that is no hexadecimal digit makes no channel, but for a plus sign before a digit
/// in the long notation, which counts like a zero.
pub proof fn channels_need_digits(high: u8, low: u8)
    ensures
        hex_value(high) is Some <==> 0x30 <= high <= 0x39 || 0x41 <= high <= 0x46 || 0x61 <= high
            <= 0x66,
        short_channel(high) is Some <==> hex_value(high) is Some,
        long_channel(high, low) is Some <==> (hex_value(high) is Some || high == 0x2b)
            && hex_value(low) is Some,
        long_channel(0x2b, low) == long_channel(0x30, low),
{
}

/// A color in hexadecimal notation needs every one of its channels.
pub proof fn every_channel_is_needed(hex: Seq<u8>, i: int)
    requires
        0 <= i < hex.len(),
        hex_value(hex[i]) is None,
        hex[i] != 0x2b,
    ensures
        hex_digits_color(hex) is None,
{
}

} // verus!
