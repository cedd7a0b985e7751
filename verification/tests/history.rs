//! The history: recording, activating, and what comes back from the clipboard.

use clipboard_history::color::parse_color_expression;
use clipboard_history::copying::{CopyState, WriteCounter};
use clipboard_history::history::{
    activate_clipboard_content, activate_history_item, record_history, FreshIds, HistoryItem,
};
use clipboard_history::offers::preferred_mime;
use clipboard_history::picture::{decode_image, ClipboardImage};
use clipboard_history::update::{capture, Captured, ClipboardUpdate, Timestamp};
use image::ImageEncoder;

const NOW: Timestamp = Timestamp {
    seconds: 100,
    nanoseconds: 0,
};

fn fresh(start: u64) -> FreshIds {
    FreshIds {
        tooltip_popup_id: start,
        tooltip_autosize_id: start + 1,
        preview_popup_id: start + 2,
        preview_autosize_id: start + 3,
        image_handle: start + 4,
        image_preview_handle: start + 5,
    }
}

fn item(text: &str) -> HistoryItem {
    HistoryItem {
        text: text.into(),
        mime_type: "text/plain".into(),
        available_mime_types: vec!["text/plain".into()],
        color_rgba: parse_color_expression(text),
        image: None,
        image_handle: None,
        image_preview_handle: None,
        captured_at: NOW,
        tooltip_popup_id: 1,
        tooltip_autosize_id: 2,
        preview_popup_id: 3,
        preview_autosize_id: 4,
    }
}

fn update(text: &str) -> ClipboardUpdate {
    ClipboardUpdate {
        text: text.into(),
        mime_type: "text/html".into(),
        available_mime_types: vec!["text/html".into(), "text/plain".into()],
        color_rgba: parse_color_expression(text),
        image: None,
        files: None,
        captured_at: Timestamp {
            seconds: 200,
            nanoseconds: 1,
        },
    }
}

fn image(shade: u8) -> ClipboardImage {
    let mut encoded = Vec::new();
    image::codecs::png::PngEncoder::new(&mut encoded)
        .write_image(&[shade; 2 * 2 * 4], 2, 2, image::ExtendedColorType::Rgba8)
        .expect("encode test PNG");
    decode_image("image/png", encoded, None).expect("decode test PNG")
}

fn image_update(shade: u8) -> ClipboardUpdate {
    ClipboardUpdate {
        text: "2 × 2".into(),
        mime_type: "image/png".into(),
        available_mime_types: vec!["image/png".into()],
        color_rgba: None,
        image: Some(image(shade)),
        files: None,
        captured_at: NOW,
    }
}

fn texts(history: &[HistoryItem]) -> Vec<&str> {
    history.iter().map(|item| item.text.as_str()).collect()
}

#[test]
fn activating_an_item_moves_it_to_the_top_and_selects_it() {
    let mut history = vec![item("newest"), item("middle"), item("oldest")];
    let mut selected = Some(2);

    let copied = activate_history_item(&mut history, &mut selected, 1);

    assert_eq!(
        copied.as_ref().map(|item| item.text.as_str()),
        Some("middle")
    );
    assert_eq!(selected, Some(0));
    assert_eq!(
        history
            .iter()
            .map(|item| item.text.as_str())
            .collect::<Vec<_>>(),
        ["middle", "newest", "oldest"]
    );
}

#[test]
fn invalid_activation_does_not_change_history_or_selection() {
    let mut history = vec![item("only")];
    let mut selected = Some(0);

    assert!(activate_history_item(&mut history, &mut selected, 4).is_none());
    assert_eq!(selected, Some(0));
    assert_eq!(history[0].text, "only");
}

#[test]
fn a_new_update_goes_to_the_top_with_new_numbers() {
    let mut history = vec![item("a"), item("b")];
    record_history(&mut history, update("#fff"), 10, fresh(50));
    assert_eq!(texts(&history), ["#fff", "a", "b"]);
    let top = &history[0];
    assert_eq!(top.mime_type, "text/html");
    assert_eq!(top.available_mime_types, ["text/html", "text/plain"]);
    assert_eq!(top.color_rgba, Some([255, 255, 255, 255]));
    assert_eq!(top.captured_at.seconds, 200);
    assert_eq!(
        (top.tooltip_popup_id, top.tooltip_autosize_id),
        (50, 51)
    );
    assert_eq!(
        (top.preview_popup_id, top.preview_autosize_id),
        (52, 53)
    );
    assert_eq!((top.image_handle, top.image_preview_handle), (None, None));
}

#[test]
fn a_known_text_is_refreshed_and_keeps_its_numbers() {
    let mut history = vec![item("a"), item("b"), item("c")];
    record_history(&mut history, update("b"), 10, fresh(50));
    assert_eq!(texts(&history), ["b", "a", "c"]);
    let top = &history[0];
    assert_eq!(top.mime_type, "text/html");
    assert_eq!(top.captured_at.seconds, 200);
    assert_eq!(
        (top.tooltip_popup_id, top.tooltip_autosize_id),
        (1, 2)
    );
    assert_eq!((top.preview_popup_id, top.preview_autosize_id), (3, 4));
}

#[test]
fn blank_updates_are_not_recorded() {
    let mut history = vec![item("a"), item("b")];
    record_history(&mut history, update(" \n\t\u{3000}"), 1, fresh(50));
    assert_eq!(texts(&history), ["a", "b"]);
    record_history(&mut history, update(""), 1, fresh(50));
    assert_eq!(texts(&history), ["a", "b"]);
}

#[test]
fn the_history_is_cut_at_its_limit() {
    let mut history = vec![item("a"), item("b"), item("c")];
    record_history(&mut history, update("d"), 3, fresh(50));
    assert_eq!(texts(&history), ["d", "a", "b"]);
    record_history(&mut history, update("e"), 0, fresh(60));
    assert!(history.is_empty());
}

#[test]
fn images_are_compared_by_their_data() {
    let mut history = Vec::new();
    record_history(&mut history, image_update(1), 10, fresh(10));
    record_history(&mut history, image_update(2), 10, fresh(20));
    // The label is the same, the data is not.
    assert_eq!(history.len(), 2);
    assert_eq!(history[0].image_handle, Some(24));
    assert_eq!(history[0].image_preview_handle, Some(25));
    record_history(&mut history, image_update(1), 10, fresh(30));
    assert_eq!(history.len(), 2);
    assert_eq!(history[0].image_handle, Some(14));
    assert_eq!(history[0].image_preview_handle, Some(15));
    assert_eq!(history[0].tooltip_popup_id, 10);
    // Text is never the same as an image.
    record_history(&mut history, update("2 × 2"), 10, fresh(40));
    assert_eq!(history.len(), 3);
}

/// Activates an item and captures what the clipboard then holds.
fn activate_and_capture(history: &mut Vec<HistoryItem>, index: usize) -> ClipboardUpdate {
    let mut writes = WriteCounter::new();
    let mut selected = None;
    let activated =
        activate_history_item(history, &mut selected, index).expect("a valid index");
    let request = activate_clipboard_content(&mut writes, activated);
    assert!(writes.is_current(request.generation));
    let types = request.mime_types();
    let mime = preferred_mime(&types).expect("a type").to_string();
    let bytes = CopyState::new(request).payload(&mime);
    match capture(&mime, types, bytes, None, &Vec::new(), NOW) {
        Captured::Update(update) => update,
        _ => panic!("nothing was captured"),
    }
}

#[test]
fn activated_text_is_refreshed_without_a_duplicate() {
    let mut history = vec![item("a"), item("plain text"), item("c")];
    let update = activate_and_capture(&mut history, 1);
    assert_eq!(update.text, "plain text");
    assert_eq!(update.mime_type, "text/plain;charset=utf-8");
    record_history(&mut history, update, 10, fresh(50));
    assert_eq!(texts(&history), ["plain text", "a", "c"]);
}

#[test]
fn an_activated_color_comes_back_in_the_usual_notation() {
    let mut history = vec![item("a"), item("#33AADD")];
    let update = activate_and_capture(&mut history, 1);
    assert_eq!(update.mime_type, "application/x-color");
    assert_eq!(update.color_rgba, Some([0x33, 0xaa, 0xdd, 0xff]));
    assert_eq!(update.text, "#33AADD");
    record_history(&mut history, update, 10, fresh(50));
    assert_eq!(texts(&history), ["#33AADD", "a"]);
}

#[test]
fn colors_are_compared_by_their_text() {
    let mut history = vec![item("rgb(51, 170, 221)")];
    let mut color = update("#33AADD");
    color.mime_type = "application/x-color".into();
    color.available_mime_types = vec!["application/x-color".into()];
    record_history(&mut history, color.clone(), 10, fresh(50));
    assert_eq!(texts(&history), ["#33AADD", "rgb(51, 170, 221)"]);
    color.available_mime_types = vec![
        "text/plain;charset=utf-8".into(),
        "text/plain".into(),
        "application/x-color".into(),
    ];
    let mut history = vec![item("rgb(51, 170, 221)")];
    record_history(&mut history, color, 10, fresh(50));
    assert_eq!(texts(&history), ["#33AADD", "rgb(51, 170, 221)"]);
}

#[test]
fn recording_twice_is_recording_once_for_text_colors_and_images() {
    let mut color = update("#33AADD");
    color.mime_type = "application/x-color".into();
    for (number, update) in [update("b"), color, image_update(1)].into_iter().enumerate() {
        let mut history = vec![item("a"), item("b"), item("#3ad")];
        record_history(&mut history, update.clone(), 10, fresh(50));
        let once = history.clone();
        record_history(&mut history, update, 10, fresh(60));
        assert_eq!(texts(&history), texts(&once), "{number}");
        for (left, right) in history.iter().zip(&once) {
            assert_eq!(left.tooltip_popup_id, right.tooltip_popup_id);
            assert_eq!(left.image_handle, right.image_handle);
            assert_eq!(left.captured_at, right.captured_at);
        }
    }
}

#[test]
fn an_activated_image_is_refreshed_without_a_duplicate() {
    let mut history = Vec::new();
    record_history(&mut history, image_update(1), 10, fresh(10));
    record_history(&mut history, update("text"), 10, fresh(20));
    let update = activate_and_capture(&mut history, 1);
    assert_eq!(update.mime_type, "image/png");
    record_history(&mut history, update, 10, fresh(30));
    assert_eq!(history.len(), 2);
    assert_eq!(history[0].image_handle, Some(14));
    assert_eq!(history[1].text, "text");
}
