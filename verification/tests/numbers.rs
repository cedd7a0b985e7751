//! Colors, sizes and layouts against the floating-point arithmetic of the machine.

use clipboard_history::color::{
    can_parse_color, decode_native_color_in, encode_native_color, format_color, hex_digit,
    parse_alpha_channel, parse_color_expression, parse_hex_color, parse_rgb_channel,
    parse_rgb_color, ByteOrder,
};
use clipboard_history::layout::{svg_layout, ScaledSize};
use clipboard_history::picture::{can_scale, RasterShape};
use clipboard_history::rows::scroll_offset;
use clipboard_history::size::format_bytes;

fn percent(text: &str) -> Option<u8> {
    let percent: f32 = text.trim().parse().ok()?;
    if percent.is_finite() && (0.0..=100.0).contains(&percent) {
        Some((percent * 2.55).round() as u8)
    } else {
        None
    }
}

fn fraction(text: &str) -> Option<u8> {
    let alpha: f32 = text.parse().ok()?;
    if alpha.is_finite() && (0.0..=1.0).contains(&alpha) {
        Some((alpha * 255.0).round() as u8)
    } else {
        None
    }
}

#[test]
fn percentages_are_those_of_single_precision() {
    for thousandths in 0..=100_100u32 {
        let text = format!("{}.{:03}", thousandths / 1000, thousandths % 1000);
        assert_eq!(
            parse_rgb_channel(&format!("{text}%")),
            percent(&text),
            "{text}"
        );
    }
}

#[test]
fn fractions_are_those_of_single_precision() {
    for steps in 0..=100_100u32 {
        let text = format!("{}.{:05}", steps / 100_000, steps % 100_000);
        assert_eq!(parse_alpha_channel(&text), fraction(&text), "{text}");
    }
}

#[test]
fn numerals_of_every_kind_are_read() {
    let numerals = [
        "1", "+1", "-1", "-0", "-0.0", "0", "00", "1.", ".5", ".", "", "+", "-", "1e0", "1e-1",
        "1E-1", "1e+0", "1e", "1e+", "e1", "5e-1", "0.5e0", "50e-2", "1e-50", "-1e-50", "1e50",
        "-1e-40", "inf", "-inf", "infinity", "nan", "NaN", "INF", "1_0", "0x1", " 1", "1 ", "1.0.0",
        "0.49803922", "0.0019607843137254902", "0.00196078431372549", "0.501960784313725490196",
        "0.99803921568627450980392156862745098039", "1.00000005", "1.00000006", "1.0000001",
        "1e-2147483648", "1e99999999999999999999", "0e99999999999999999999", "1e-99999999999999999999",
        "0.000000000000000000000000000000000000000000000000001",
        "1000000000000000000000000000000000000000e-39",
    ];
    for numeral in numerals {
        assert_eq!(parse_alpha_channel(numeral), fraction(numeral), "{numeral:?}");
        let with_sign = format!("{numeral}%");
        assert_eq!(parse_rgb_channel(&with_sign), percent(numeral), "{numeral:?}");
        assert_eq!(parse_alpha_channel(&with_sign), percent(numeral), "{numeral:?}");
    }
    for numeral in ["100", "99.99999", "100.0", "100.000001", "100.00001", "20", " 40 ", "1e2"] {
        let with_sign = format!("{numeral}%");
        assert_eq!(parse_rgb_channel(&with_sign), percent(numeral), "{numeral:?}");
    }
}

#[test]
fn channels_are_bytes() {
    for value in 0..=300u32 {
        assert_eq!(
            parse_rgb_channel(&value.to_string()),
            value.to_string().parse::<u8>().ok()
        );
    }
    for text in ["", "+", "+7", "-7", "-0", "007", "0000000255", "256", "1.0", " 1", "٣"] {
        assert_eq!(parse_rgb_channel(text), text.parse::<u8>().ok(), "{text:?}");
    }
}

#[test]
fn hexadecimal_colors_have_three_four_six_or_eight_digits() {
    assert_eq!(parse_hex_color("#123"), Some([0x11, 0x22, 0x33, 0xff]));
    assert_eq!(parse_hex_color("#1234"), Some([0x11, 0x22, 0x33, 0x44]));
    assert_eq!(parse_hex_color("#a1B2c3"), Some([0xa1, 0xb2, 0xc3, 0xff]));
    assert_eq!(parse_hex_color("#a1B2c3D4"), Some([0xa1, 0xb2, 0xc3, 0xd4]));
    for text in ["", "#", "#1", "#12345", "#1234567", "#123456789", "123", "#12g", "#12345g"] {
        assert_eq!(parse_hex_color(text), None, "{text:?}");
    }
    // Pairs are numbers, and a number may have a sign.
    assert_eq!(parse_hex_color("#+1+2+3"), Some([1, 2, 3, 255]));
    assert_eq!(parse_hex_color("#+1+2++"), None);
    assert_eq!(parse_hex_color("#-1-2-3"), None);
    assert_eq!(hex_digit(b'f'), Some(15));
    assert_eq!(hex_digit(b'F'), Some(15));
    assert_eq!(hex_digit(b'0'), Some(0));
    assert_eq!(hex_digit(b'g'), None);
}

#[test]
fn digits_must_not_be_cut_in_two() {
    assert!(can_parse_color("#123456"));
    assert!(can_parse_color("plain"));
    assert!(can_parse_color("#äb"));
    // The second pair would end within a letter, unless the first one ends it all.
    assert!(!can_parse_color(" #12€4 "));
    assert!(can_parse_color("#zz€4"));
    assert_eq!(parse_color_expression("#zz€4"), None);
}

#[test]
fn color_functions_have_a_name_and_arguments() {
    assert_eq!(parse_rgb_color("rgb(1,2,3)"), Some([1, 2, 3, 255]));
    assert_eq!(parse_rgb_color(" RGB ( 1 , 2 , 3 )"), Some([1, 2, 3, 255]));
    assert_eq!(parse_rgb_color("rgba(1,2,3,100%)"), Some([1, 2, 3, 255]));
    assert_eq!(parse_rgb_color("RgBa(10%,2,3,0)"), Some([26, 2, 3, 0]));
    for text in [
        "rgb(1,2)", "rgb(1,2,3,4)", "rgba(1,2,3)", "rgb 1,2,3", "rgb(1,2,3", "rgb(1,2,3) ",
        "hsl(1,2,3)", "rgb(1,,3)", "(1,2,3)", "rgb((1,2,3)", "rgba(1,2,3,1.5)",
    ] {
        assert_eq!(parse_rgb_color(text), None, "{text:?}");
    }
}

#[test]
fn written_colors_are_read_back() {
    for shade in 0..=255u8 {
        for rgba in [[shade, 0, 255 - shade, 255], [7, shade, 9, shade]] {
            assert_eq!(parse_color_expression(&format_color(rgba)), Some(rgba));
        }
    }
    assert_eq!(format_color([0, 1, 0xab, 255]), "#0001AB");
    assert_eq!(format_color([0, 1, 0xab, 0]), "#0001AB00");
}

#[test]
fn native_colors_are_narrowed_to_the_nearest_byte() {
    let bytes = [0x80, 0x00, 0x81, 0x00, 0xff, 0xff, 0x00, 0x80, 0xaa];
    assert_eq!(
        decode_native_color_in(ByteOrder::Little, &bytes),
        Some([0, 1, 255, 128])
    );
    assert_eq!(
        decode_native_color_in(ByteOrder::Big, &bytes),
        Some([128, 128, 255, 0])
    );
    assert_eq!(decode_native_color_in(ByteOrder::Big, &bytes[..7]), None);
    for shade in 0..=255u8 {
        let encoded = encode_native_color([shade, shade, 1, 2]);
        assert_eq!(encoded.len(), 8);
        assert_eq!(
            decode_native_color_in(ByteOrder::Little, &encoded),
            Some([shade, shade, 1, 2])
        );
        assert_eq!(
            decode_native_color_in(ByteOrder::Big, &encoded),
            Some([shade, shade, 1, 2])
        );
    }
}

fn bytes_in_doubles(bytes: u64) -> String {
    let kib = 1024.0;
    let mib = kib * 1024.0;
    let bytes = bytes as f64;
    if bytes >= mib {
        format!("{:.1} MiB", bytes / mib)
    } else if bytes >= kib {
        format!("{:.1} KiB", bytes / kib)
    } else {
        format!("{} B", bytes as u64)
    }
}

#[test]
fn sizes_are_those_of_double_precision() {
    for bytes in 0..200_000u64 {
        assert_eq!(format_bytes(bytes), bytes_in_doubles(bytes), "{bytes}");
    }
    for power in 17..64u32 {
        let base = 1u64 << power;
        for offset in 0..400u64 {
            for bytes in [
                base.wrapping_add(offset),
                base.wrapping_sub(offset),
                base.wrapping_add(offset.wrapping_mul(52_429)),
                base.wrapping_mul(3).wrapping_add(offset),
            ] {
                assert_eq!(format_bytes(bytes), bytes_in_doubles(bytes), "{bytes}");
            }
        }
    }
    assert_eq!(format_bytes(u64::MAX), bytes_in_doubles(u64::MAX));
    assert_eq!(format_bytes(1023), "1023 B");
    assert_eq!(format_bytes(1024), "1.0 KiB");
    assert_eq!(format_bytes(1_048_575), "1024.0 KiB");
    assert_eq!(format_bytes(1_048_576), "1.0 MiB");
}

fn fitted(width: f32, height: f32, max_width: f32, max_height: f32) -> ScaledSize {
    let scale = (max_width / width).min(max_height / height).min(1.0);
    ScaledSize {
        width: (width * scale).round().max(1.0) as u32,
        height: (height * scale).round().max(1.0) as u32,
        scale: scale.to_bits(),
    }
}

fn check_layout(width: f32, height: f32) {
    let layout = svg_layout(width.to_bits(), height.to_bits());
    assert_eq!(layout.width, width.round().max(1.0) as u32, "{width}");
    assert_eq!(layout.height, height.round().max(1.0) as u32, "{height}");
    assert_eq!(
        layout.preview,
        fitted(width, height, 960.0, 540.0),
        "{width} {height}"
    );
    assert_eq!(
        layout.thumbnail,
        fitted(width, height, 16.0, 16.0),
        "{width} {height}"
    );
}

#[test]
fn layouts_are_those_of_single_precision() {
    let lengths = [
        f32::MIN_POSITIVE, f32::from_bits(1), f32::from_bits(0x7f_ffff), 1e-30, 1e-10, 0.25, 0.49999997, 0.5,
        0.50000006, 1.0, 1.5, 2.5, 15.5, 16.0, 16.5, 23.999998, 24.0, 100.3, 539.5, 540.0,
        540.00006, 959.5, 960.0, 960.00006, 1000.0, 1920.0, 4096.0, 65_535.5, 8_388_607.5,
        8_388_608.0, 16_777_216.0, 4_294_967_000.0, 4_294_967_296.0, 1e10, 1e20, 3e38, f32::MAX,
    ];
    for width in lengths {
        for height in lengths {
            check_layout(width, height);
        }
    }
    let mut state = 12_345u32;
    for _ in 0..60_000 {
        state = state.wrapping_mul(1_664_525).wrapping_add(1_013_904_223);
        let width = f32::from_bits(0x3e00_0000 + state % 0x0c00_0000);
        state = state.wrapping_mul(1_664_525).wrapping_add(1_013_904_223);
        let height = f32::from_bits(0x3e00_0000 + state % 0x0c00_0000);
        check_layout(width, height);
        state = state.wrapping_mul(1_664_525).wrapping_add(1_013_904_223);
        check_layout(f32::from_bits(1 + state % 0x7f7f_fffe), height);
    }
}

#[test]
fn drawings_are_neither_enlarged_nor_too_large() {
    let layout = svg_layout(1920f32.to_bits(), 1080f32.to_bits());
    assert_eq!((layout.width, layout.height), (1920, 1080));
    assert_eq!((layout.preview.width, layout.preview.height), (960, 540));
    assert_eq!(layout.preview.scale, 0.5f32.to_bits());
    assert_eq!((layout.thumbnail.width, layout.thumbnail.height), (16, 9));
    let small = svg_layout(10f32.to_bits(), 4f32.to_bits());
    assert_eq!((small.preview.width, small.preview.height), (10, 4));
    assert_eq!(small.preview.scale, 1f32.to_bits());
    assert_eq!((small.thumbnail.width, small.thumbnail.height), (10, 4));
}

#[test]
fn scroll_offsets_are_those_of_single_precision() {
    let check = |position: usize, last: usize| {
        assert_eq!(
            scroll_offset(position, last),
            (position as f32 / last as f32).to_bits(),
            "{position} {last}"
        );
    };
    for last in 1..=300 {
        for position in 0..=last {
            check(position, last);
        }
    }
    let mut state = 1usize;
    for _ in 0..20_000 {
        state = state
            .wrapping_mul(6_364_136_223_846_793_005)
            .wrapping_add(1_442_695_040_888_963_407);
        let last = (state >> (state % 60)).max(1);
        check(state % last, last);
        check(state, last);
        check(last, last);
        check(1, last);
    }
    check(usize::MAX, 1);
    check(usize::MAX, usize::MAX);
    check(1, usize::MAX);
    check(16_777_217, 16_777_219);
    assert_eq!(scroll_offset(0, 7), 0);
    assert_eq!(scroll_offset(7, 7), 1f32.to_bits());
}

/// The most pixels that scaling an image puts together to one.
fn largest_cell(width: u32, height: u32, max_width: u32, max_height: u32) -> u64 {
    let ratio = (f64::from(max_width) / f64::from(width))
        .min(f64::from(max_height) / f64::from(height));
    let side = |length: u32| {
        let scaled = ((f64::from(length) * ratio).round() as u32).max(1);
        let step = length as f32 / scaled as f32;
        let mut most = 0;
        for i in 0..scaled {
            let start = i as f32 * step;
            let from = (start.ceil() as u32).min(length - 1);
            let to = ((start + step).ceil() as u32).clamp(from, length);
            most = most.max(to - from);
        }
        u64::from(most)
    };
    side(width) * side(height)
}

#[test]
fn images_that_can_be_scaled_have_sums() {
    let mut seed: u64 = 1;
    let mut next = |bits: u32| {
        seed = seed.wrapping_mul(6364136223846793005).wrapping_add(1442695040888963407);
        ((seed >> 33) as u32 >> (31 - bits)).max(1)
    };
    let mut refused = 0;
    for round in 0..4_000u32 {
        let (width, height) = (next(round % 31 + 1), next(round / 31 % 31 + 1));
        for (pixel_bytes, channels, largest) in [(1, 1, 255), (8, 4, 65_535)] {
            for (most_columns, most_rows) in [(960, 540), (16, 16)] {
                let shape = RasterShape { width, height, pixel_bytes, channels };
                let (columns, rows) = (width.min(most_columns), height.min(most_rows));
                let cell = largest_cell(width, height, columns, rows);
                let fits = |cell: u64| {
                    let cell = u128::from(cell);
                    cell * largest + cell / 2 <= u128::from(u32::MAX)
                };
                if can_scale(shape, columns, rows) {
                    assert!(fits(cell), "{width} {height} {columns} {rows}");
                } else {
                    // The bound is close.
                    refused += 1;
                    let loose = cell + cell / 64 + 2 * u64::from(width.max(height));
                    assert!(!fits(loose), "{width} {height} {columns} {rows}");
                }
            }
        }
    }
    assert!(refused > 0);
    let empty = RasterShape { width: 0, height: 70_000, pixel_bytes: 2, channels: 1 };
    assert!(can_scale(empty, 0, 16));
}

#[test]
fn letter_case_does_not_matter_in_colors() {
    let texts = [
        "#3AD", "#33aAdD80", "RGB(51, 170, 221)", "rGbA(1E1%, 2e+1%, 30%, 5E-1)", "#GGG", "RGB(1,2)",
        "#+A+B+C", "RGBA(1,2,3,INF)",
    ];
    for text in texts {
        let color = parse_color_expression(text);
        assert_eq!(parse_color_expression(&text.to_lowercase()), color, "{text}");
        assert_eq!(parse_color_expression(&text.to_uppercase()), color, "{text}");
    }
    assert_eq!(
        parse_color_expression("RGBA(20%, 4E1%, 60%, 5E-1)"),
        Some([51, 102, 153, 128])
    );
}

#[test]
fn native_colors_end_after_eight_bytes() {
    let mut bytes = encode_native_color([1, 2, 3, 4]);
    bytes.extend([9, 8, 7]);
    for order in [ByteOrder::Little, ByteOrder::Big] {
        assert_eq!(decode_native_color_in(order, &bytes), Some([1, 2, 3, 4]));
    }
    assert_eq!(decode_native_color_in(ByteOrder::Little, &bytes[..7]), None);
}
