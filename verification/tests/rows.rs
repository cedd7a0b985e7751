//! Rows, previews and tooltips.

use clipboard_history::history::HistoryItem;
use clipboard_history::layout::svg_layout;
use clipboard_history::picture::{decode_svg, SvgDrawing};
use clipboard_history::rows::{
    format_capture_time, format_local_timestamp, history_list, history_preview, history_status,
    history_tooltip, row_icon, HistoryList, HistoryRow, LocalTime, RowIcon,
};
use clipboard_history::update::Timestamp;
use clipboard_history::window::WindowMessage;

const CAPTURED: Timestamp = Timestamp {
    seconds: 1_000,
    nanoseconds: 500_000_000,
};

const LOCAL: LocalTime = LocalTime {
    years_since_1900: 124,
    months_since_january: 1,
    day: 29,
    hour: 3,
    minute: 4,
    second: 59,
};

fn at(seconds: i64, nanoseconds: u32) -> Timestamp {
    Timestamp {
        seconds,
        nanoseconds,
    }
}

fn item(text: &str) -> HistoryItem {
    HistoryItem {
        text: text.to_string(),
        mime_type: "text/plain".to_string(),
        available_mime_types: vec!["text/plain".to_string(), "text/html".to_string()],
        color_rgba: None,
        image: None,
        image_handle: None,
        image_preview_handle: None,
        captured_at: CAPTURED,
        tooltip_popup_id: 1,
        tooltip_autosize_id: 2,
        preview_popup_id: 3,
        preview_autosize_id: 4,
    }
}

#[test]
fn previews_are_one_line() {
    assert_eq!(history_preview(""), "");
    assert_eq!(history_preview(" \n\t "), "");
    assert_eq!(history_preview("  a\n\n b\t\u{a0}c  "), "a b c");
    assert_eq!(history_preview("word"), "word");
}

#[test]
fn previews_are_cut_after_a_hundred_characters() {
    let hundred = "é".repeat(100);
    assert_eq!(history_preview(&hundred), hundred);
    assert_eq!(history_preview(&format!("{hundred}x")), format!("{hundred}…"));
    // Whitespace that follows counts as a character.
    assert_eq!(history_preview(&format!("{hundred} ")), format!("{hundred}…"));
    let spaced = format!("{} tail", "a".repeat(99));
    assert_eq!(history_preview(&spaced), format!("{}…", "a".repeat(99)));
    let words = "ab ".repeat(60);
    let preview = history_preview(&words);
    assert_eq!(preview, format!("{}a…", "ab ".repeat(33)));
}

#[test]
fn times_are_shown_as_ages_for_an_hour() {
    let show = |seconds: u64| format_capture_time(CAPTURED, seconds, Some(LOCAL));
    assert_eq!(show(0), "0s ago");
    assert_eq!(show(59), "59s ago");
    assert_eq!(show(60), "1m ago");
    assert_eq!(show(3_599), "59m ago");
    assert_eq!(show(3_600), "2024-02-29 03:04:59");
    assert_eq!(show(u64::MAX), "2024-02-29 03:04:59");
}

#[test]
fn unknown_times_are_said_to_be_unknown() {
    assert_eq!(format_local_timestamp(CAPTURED, None), "unknown");
    assert_eq!(format_local_timestamp(at(-1, 999_999_999), Some(LOCAL)), "unknown");
    assert_eq!(
        format_local_timestamp(at(0, 0), Some(LOCAL)),
        "2024-02-29 03:04:59"
    );
}

#[test]
fn dates_are_padded_like_numbers() {
    let years = [-1901, -1900, -1899, 0, 8099, 8100, 2_147_000_000, -2_000_000_000];
    for years_since_1900 in years {
        for number in [-123, -12, -1, 0, 9, 10, 99, 100, 2_147_483_646] {
            let local = LocalTime {
                years_since_1900,
                months_since_january: number,
                day: number,
                hour: number,
                minute: number,
                second: number,
            };
            let expected = format!(
                "{:04}-{:02}-{:02} {:02}:{:02}:{:02}",
                years_since_1900 + 1900,
                number + 1,
                number,
                number,
                number,
                number
            );
            assert_eq!(format_local_timestamp(at(0, 0), Some(local)), expected);
        }
    }
}

#[test]
fn tooltips_tell_what_is_known() {
    let mut entry = item("é\nb");
    let tooltip = history_tooltip(&entry, at(1_001, 499_999_999), Some(LOCAL));
    assert_eq!(
        tooltip.text,
        "3 characters · 4 UTF-8 bytes · 2 lines\nMIME: text/plain\nAvailable types: text/plain, text/html\nCaptured: 0s ago"
    );
    assert_eq!(tooltip.image, None);
    assert_eq!(tooltip.delay(), 350);
    entry.color_rgba = Some([1, 2, 3, 4]);
    entry.available_mime_types.clear();
    let tooltip = history_tooltip(&entry, at(1_001, 500_000_000), Some(LOCAL));
    assert_eq!(
        tooltip.text,
        "3 characters · 4 UTF-8 bytes · 2 lines\nMIME: text/plain\nAvailable types: \nCaptured: 1s ago\nColor: #01020304"
    );
    // An empty text has a line, and the future has a date.
    let tooltip = history_tooltip(&item(""), at(1_000, 499_999_999), Some(LOCAL));
    assert_eq!(
        tooltip.text,
        "0 characters · 0 UTF-8 bytes · 1 lines\nMIME: text/plain\nAvailable types: text/plain, text/html\nCaptured: 2024-02-29 03:04:59"
    );
}

#[test]
fn tooltips_of_images_show_their_label() {
    let mut entry = item("label");
    let layout = svg_layout(20f32.to_bits(), 10f32.to_bits());
    let drawing = SvgDrawing::new(layout, vec![0; 800], vec![0; 512]);
    entry.image = decode_svg(vec![0; 1536], drawing);
    assert!(entry.image.is_some());
    entry.color_rgba = Some([1, 2, 3, 4]);
    let tooltip = history_tooltip(&entry, at(1_060, 500_000_000), None);
    assert_eq!(
        tooltip.text,
        "20 × 10 · 1.5 KiB\nMIME: text/plain\nAvailable types: text/plain, text/html\nCaptured: 1m ago"
    );
}

#[test]
fn rows_show_a_thumbnail_or_a_color() {
    let mut entry = item("x");
    assert!(matches!(row_icon(&entry), RowIcon::Blank));
    entry.color_rgba = Some([1, 2, 3, 4]);
    assert!(matches!(row_icon(&entry), RowIcon::Swatch([1, 2, 3, 4])));
    entry.image_handle = Some(9);
    assert!(matches!(
        row_icon(&entry),
        RowIcon::Thumbnail {
            handle: 9,
            tooltip: None
        }
    ));
    entry.image_preview_handle = Some(8);
    match row_icon(&entry) {
        RowIcon::Thumbnail {
            handle,
            tooltip: Some(tooltip),
        } => {
            assert_eq!(handle, 9);
            assert_eq!(tooltip.text, "");
            assert_eq!(tooltip.image, Some(8));
            assert_eq!(tooltip.delay(), 1_200);
        }
        _ => panic!("no thumbnail"),
    }
}

fn rows_of(list: HistoryList) -> Vec<HistoryRow> {
    match list {
        HistoryList::Rows(rows) => rows,
        HistoryList::Empty(_) => panic!("the list is empty"),
    }
}

#[test]
fn the_list_has_a_row_for_each_item() {
    let history = vec![item("a  b"), item("c")];
    let rows = rows_of(history_list(&history, Some(1), at(8_000, 0), &vec![Some(LOCAL)]));
    assert_eq!(rows.len(), 2);
    assert_eq!(rows[0].marker, " ");
    assert_eq!(rows[1].marker, "›");
    assert_eq!(rows[0].preview, "a b");
    assert!(rows[0].tooltip.text.ends_with("Captured: 2024-02-29 03:04:59"));
    // The local time of the second item is not known.
    assert!(rows[1].tooltip.text.ends_with("Captured: unknown"));
    for (index, row) in rows.iter().enumerate() {
        assert!(matches!(row.activate, WindowMessage::ActivateItem(i) if i == index));
        assert!(matches!(row.delete, WindowMessage::DeleteItem(i) if i == index));
    }
    assert_eq!(history_status(&history, 255), "2/255 items");
}

#[test]
fn an_empty_history_shows_a_notice() {
    match history_list(&Vec::new(), Some(0), at(0, 0), &Vec::new()) {
        HistoryList::Empty(notice) => assert_eq!(notice, "No text copied yet."),
        HistoryList::Rows(_) => panic!("there are no items"),
    }
}

#[test]
fn previews_are_their_own_previews() {
    let texts = [
        " a \n b ".to_string(),
        "x".repeat(100),
        "x".repeat(101),
        format!("{} tail", "a".repeat(99)),
        "ab ".repeat(60),
        "…".repeat(200),
    ];
    for text in texts {
        let preview = history_preview(&text);
        assert_eq!(history_preview(&preview), preview);
    }
}

#[test]
fn whitespace_is_what_unicode_says() {
    for code in 0..=0x10_ffffu32 {
        if let Some(character) = char::from_u32(code) {
            let preview = history_preview(&character.to_string());
            assert_eq!(preview.is_empty(), character.is_whitespace(), "{code:x}");
        }
    }
}

#[test]
fn lines_are_counted_like_those_of_a_text_file() {
    let pieces = ["", "a", "\n", "\r\n", "\r", "b\n", "\n\n", "c\r\n", "\u{2028}"];
    for first in pieces {
        for second in pieces {
            for third in pieces {
                let text = format!("{first}{second}{third}");
                let tooltip = history_tooltip(&item(&text), CAPTURED, None);
                let expected = format!(
                    "{} characters · {} UTF-8 bytes · {} lines\n",
                    text.chars().count(),
                    text.len(),
                    text.lines().count().max(1)
                );
                assert!(tooltip.text.starts_with(&expected), "{text:?}");
            }
        }
    }
}
