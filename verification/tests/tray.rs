//! The tray icon: its picture, its menu and its flashes.

use clipboard_history::pixels::draw_line;
use clipboard_history::tray::{
    flash_icon_pixmap, MenuAction, MenuEntry, TrayCommand, TrayEvent, TrayIcon,
};

/// A plain line, pixel by pixel.
fn reference_line(
    pixels: &mut [u8],
    size: i32,
    (mut x, mut y): (i32, i32),
    (end_x, end_y): (i32, i32),
    width: i32,
    color: [u8; 4],
) {
    let dx = (end_x - x).abs();
    let sx = if x < end_x { 1 } else { -1 };
    let dy = -(end_y - y).abs();
    let sy = if y < end_y { 1 } else { -1 };
    let mut error = dx + dy;
    loop {
        for offset_y in -(width / 2)..=(width / 2) {
            for offset_x in -(width / 2)..=(width / 2) {
                let (pixel_x, pixel_y) = (x + offset_x, y + offset_y);
                if (0..size).contains(&pixel_x) && (0..size).contains(&pixel_y) {
                    let index = ((pixel_y * size + pixel_x) * 4) as usize;
                    pixels[index..index + 4].copy_from_slice(&color);
                }
            }
        }
        if x == end_x && y == end_y {
            break;
        }
        let doubled = 2 * error;
        if doubled >= dy {
            error += dy;
            x += sx;
        }
        if doubled <= dx {
            error += dx;
            y += sy;
        }
    }
}

fn reference_icon(size: i32) -> Vec<u8> {
    let mut data = vec![0; (size * size * 4) as usize];
    let scale = size as f32 / 24.0;
    let normal = [255, 232, 232, 232];
    let turquoise = [255, 0, 199, 183];
    let width = (1.5 * scale).round().max(1.0) as i32;
    let point = |x: f32, y: f32| ((x * scale).round() as i32, (y * scale).round() as i32);
    let strokes = [
        ((3.0, 4.5), (17.25, 4.5), normal),
        ((3.0, 9.0), (12.75, 9.0), normal),
        ((3.0, 13.5), (12.75, 13.5), normal),
        ((17.25, 9.0), (17.25, 21.0), turquoise),
        ((17.25, 21.0), (13.5, 17.25), turquoise),
        ((17.25, 21.0), (21.0, 17.25), turquoise),
    ];
    for (start, end, color) in strokes {
        reference_line(
            &mut data,
            size,
            point(start.0, start.1),
            point(end.0, end.1),
            width,
            color,
        );
    }
    data
}

#[test]
fn the_icon_is_drawn_stroke_by_stroke() {
    for size in -3..=130 {
        let icon = flash_icon_pixmap(size);
        assert_eq!((icon.width, icon.height), (size, size));
        assert_eq!(icon.data, reference_icon(size), "{size}");
    }
    assert!(flash_icon_pixmap(0).data.is_empty());
}

#[test]
fn lines_take_the_same_points_in_every_direction() {
    let size = 20;
    for end_x in -3..=22 {
        for end_y in -3..=22 {
            for width in [-1, 0, 1, 2, 3, 5] {
                let start = (9, 11);
                let mut expected = vec![7; (size * size * 4) as usize];
                reference_line(&mut expected, size, start, (end_x, end_y), width, [1, 2, 3, 4]);
                let mut drawn = vec![7; (size * size * 4) as usize];
                draw_line(&mut drawn, size, start, (end_x, end_y), width, [1, 2, 3, 4]);
                assert_eq!(drawn, expected, "{end_x} {end_y} {width}");
            }
        }
    }
}

#[test]
fn a_flash_ends_with_its_own_number_only() {
    let mut tray = TrayIcon::new(true, false);
    assert!(tray.icon_pixmap().is_empty());
    let first = tray.begin_flash();
    let second = tray.begin_flash();
    assert_ne!(first, second);
    tray.end_flash(first);
    assert_eq!(tray.icon_pixmap().len(), 2);
    assert_eq!(tray.icon_name(None), "");
    tray.end_flash(second);
    assert!(tray.icon_pixmap().is_empty());
}

#[test]
fn the_flash_has_two_sizes() {
    let mut tray = TrayIcon::new(false, false);
    tray.begin_flash();
    let icons = tray.icon_pixmap();
    assert_eq!(icons[0].data, reference_icon(24));
    assert_eq!(icons[1].data, reference_icon(48));
    assert_eq!((icons[1].width, icons[1].height), (48, 48));
}

#[test]
fn the_icon_is_found_by_path_or_by_name() {
    let tray = TrayIcon::new(false, false);
    assert_eq!(tray.id(), "com.github.jax.ClipboardHistory");
    assert_eq!(tray.title(), "Clipboard History");
    assert_eq!(
        tray.icon_name(Some(b"/home/user/.local/share".to_vec())),
        "/home/user/.local/share/icons/hicolor/scalable/apps/com.github.jax.ClipboardHistory-symbolic.svg"
    );
    assert_eq!(
        tray.icon_name(Some(b"/data/\xff/".to_vec())),
        "/data/\u{fffd}/icons/hicolor/scalable/apps/com.github.jax.ClipboardHistory-symbolic.svg"
    );
    assert_eq!(
        tray.icon_name(None),
        "com.github.jax.ClipboardHistory-symbolic"
    );
}

fn labels(menu: &[MenuEntry]) -> Vec<String> {
    menu.iter()
        .map(|entry| match entry {
            MenuEntry::Standard { label, .. } => label.clone(),
            MenuEntry::SubMenu { label, .. } => label.clone(),
            MenuEntry::Check(entry) => entry.label.clone(),
        })
        .collect()
}

fn checked(menu: &[MenuEntry]) -> Vec<String> {
    match &menu[3] {
        MenuEntry::SubMenu { entries, .. } => entries
            .iter()
            .filter(|entry| entry.checked)
            .map(|entry| entry.label.clone())
            .collect(),
        _ => panic!("no submenu"),
    }
}

#[test]
fn the_menu_shows_the_state() {
    let mut tray = TrayIcon::new(true, false);
    let menu = tray.menu();
    assert_eq!(
        labels(&menu),
        ["Shutdown", "Clear history", "Configure shortcut", "Max items: 255", "Autostart"]
    );
    assert_eq!(checked(&menu), ["255"]);
    match &menu[4] {
        MenuEntry::Check(entry) => {
            assert!(entry.enabled);
            assert!(!entry.checked);
        }
        _ => panic!("no check mark"),
    }
    assert_eq!(
        tray.select(MenuAction::SetHistoryLimit(1000)),
        TrayCommand::Send(TrayEvent::SetHistoryLimit(1000))
    );
    let menu = tray.menu();
    assert_eq!(labels(&menu)[3], "Max items: 1000");
    assert_eq!(checked(&menu), ["1000"]);
}

#[test]
fn menu_entries_do_what_they_say() {
    let mut tray = TrayIcon::new(true, false);
    assert_eq!(tray.select(MenuAction::Shutdown), TrayCommand::Exit);
    assert_eq!(
        tray.select(MenuAction::ClearHistory),
        TrayCommand::Send(TrayEvent::ClearHistory)
    );
    assert_eq!(
        tray.select(MenuAction::ConfigureShortcut),
        TrayCommand::Send(TrayEvent::ConfigureShortcut)
    );
    assert_eq!(
        tray.select(MenuAction::ToggleAutostart),
        TrayCommand::SetAutostart(true)
    );
    tray.autostart_changed(true);
    assert_eq!(
        tray.select(MenuAction::ToggleAutostart),
        TrayCommand::SetAutostart(false)
    );
}
