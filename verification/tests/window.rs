//! The window: messages in, effects out.

use clipboard_history::color::parse_color_expression;
use clipboard_history::copying::{CopyState, WriteCounter};
use clipboard_history::history::FreshIds;
use clipboard_history::offers::preferred_mime;
use clipboard_history::tray::TrayEvent;
use clipboard_history::update::{capture, Captured, ClipboardUpdate, Timestamp};
use clipboard_history::window::{
    message_for, ClipboardWindow, NavigationKey, WindowEffects, WindowEvent, WindowMessage,
    WindowTask,
};

const FRESH: FreshIds = FreshIds {
    tooltip_popup_id: 1,
    tooltip_autosize_id: 2,
    preview_popup_id: 3,
    preview_autosize_id: 4,
    image_handle: 5,
    image_preview_handle: 6,
};

struct Session {
    window: ClipboardWindow,
    writes: WriteCounter,
    next_window: u64,
}

impl Session {
    fn new(texts: &[&str]) -> Session {
        let mut session = Session {
            window: ClipboardWindow::init(),
            writes: WriteCounter::new(),
            next_window: 70,
        };
        for text in texts.iter().rev() {
            session.copy(text);
        }
        session
    }

    fn send(&mut self, message: WindowMessage) -> WindowEffects {
        let number = self.next_window;
        self.next_window += 1;
        self.window.update(&mut self.writes, message, FRESH, number)
    }

    fn task(&mut self, message: WindowMessage) -> WindowTask {
        let effects = self.send(message);
        assert!(!effects.flash);
        assert!(effects.copy.is_none());
        effects.task
    }

    fn copy(&mut self, text: &str) -> WindowEffects {
        self.send(WindowMessage::ClipboardUpdated(ClipboardUpdate {
            text: text.to_string(),
            mime_type: "text/plain".to_string(),
            available_mime_types: vec!["text/plain".to_string()],
            color_rgba: None,
            image: None,
            files: None,
            captured_at: Timestamp {
                seconds: 0,
                nanoseconds: 0,
            },
        }))
    }

    fn open(&mut self) -> u64 {
        match self.task(WindowMessage::Focus) {
            WindowTask::Open(id) => id,
            _ => panic!("no window was opened"),
        }
    }

    fn texts(&self) -> Vec<&str> {
        self.window
            .history()
            .iter()
            .map(|item| item.text.as_str())
            .collect()
    }
}

#[test]
fn a_new_window_state_is_empty() {
    let window = ClipboardWindow::init();
    assert!(window.history().is_empty());
    assert_eq!(window.max_history_items(), 255);
    assert_eq!(window.content_window(), None);
    assert_eq!(window.selected_item(), None);
}

#[test]
fn updates_flash_and_select_the_first_item() {
    let mut session = Session::new(&["b", "c"]);
    let effects = session.copy("a");
    assert!(effects.flash);
    assert!(effects.copy.is_none());
    assert_eq!(effects.task, WindowTask::Nothing);
    assert_eq!(session.texts(), ["a", "b", "c"]);
    assert_eq!(session.window.selected_item(), Some(0));
    let effects = session.copy("  ");
    assert!(!effects.flash);
    assert_eq!(session.texts(), ["a", "b", "c"]);
}

#[test]
fn activating_copies_and_closes() {
    let mut session = Session::new(&["a", "b"]);
    let id = session.open();
    let effects = session.send(WindowMessage::ActivateItem(1));
    assert_eq!(effects.task, WindowTask::Destroy(id));
    let copy = effects.copy.expect("a request");
    assert_eq!(copy.text.as_deref(), Some("b"));
    assert!(session.writes.is_current(copy.generation));
    assert_eq!(session.texts(), ["b", "a"]);
    assert_eq!(session.window.selected_item(), Some(0));
    assert_eq!(session.window.content_window(), None);
    // Without a window there is nothing to close.
    let effects = session.send(WindowMessage::ActivateItem(1));
    assert_eq!(effects.task, WindowTask::Nothing);
    assert!(effects.copy.is_some());
    assert_eq!(
        session.task(WindowMessage::ActivateItem(2)),
        WindowTask::Nothing
    );
}

#[test]
fn deleting_keeps_the_selection_on_its_item() {
    let mut session = Session::new(&["a", "b", "c", "d"]);
    let id = session.open();
    session.send(WindowMessage::KeyboardInput(id, NavigationKey::Down));
    session.send(WindowMessage::KeyboardInput(id, NavigationKey::Down));
    assert_eq!(session.window.selected_item(), Some(2));
    session.task(WindowMessage::DeleteItem(0));
    assert_eq!(session.texts(), ["b", "c", "d"]);
    assert_eq!(session.window.selected_item(), Some(1));
    session.task(WindowMessage::DeleteItem(2));
    assert_eq!(session.window.selected_item(), Some(1));
    session.task(WindowMessage::DeleteItem(1));
    assert_eq!(session.texts(), ["b"]);
    assert_eq!(session.window.selected_item(), Some(0));
    session.task(WindowMessage::DeleteItem(5));
    assert_eq!(session.texts(), ["b"]);
    session.task(WindowMessage::DeleteItem(0));
    assert_eq!(session.window.selected_item(), None);
}

#[test]
fn clearing_leaves_nothing() {
    let mut session = Session::new(&["a", "b"]);
    assert_eq!(session.task(WindowMessage::ClearHistory), WindowTask::Nothing);
    assert!(session.texts().is_empty());
    assert_eq!(session.window.selected_item(), None);
}

#[test]
fn a_lower_limit_cuts_the_history() {
    let mut session = Session::new(&["a", "b", "c"]);
    let id = session.open();
    session.send(WindowMessage::KeyboardInput(id, NavigationKey::Up));
    assert_eq!(session.window.selected_item(), Some(2));
    session.task(WindowMessage::SetHistoryLimit(2));
    assert_eq!(session.texts(), ["a", "b"]);
    assert_eq!(session.window.max_history_items(), 2);
    assert_eq!(session.window.selected_item(), None);
    session.copy("z");
    assert_eq!(session.texts(), ["z", "a"]);
}

#[test]
fn arrow_keys_go_around() {
    let mut session = Session::new(&["a", "b", "c"]);
    let id = session.open();
    let press = |session: &mut Session, key: NavigationKey| {
        session.task(WindowMessage::KeyboardInput(id, key))
    };
    assert_eq!(
        press(&mut session, NavigationKey::Up),
        WindowTask::Scroll {
            position: 2,
            last: 2
        }
    );
    assert_eq!(
        press(&mut session, NavigationKey::Down),
        WindowTask::Scroll {
            position: 0,
            last: 2
        }
    );
    assert_eq!(
        press(&mut session, NavigationKey::Down),
        WindowTask::Scroll {
            position: 1,
            last: 2
        }
    );
    assert_eq!(
        press(&mut session, NavigationKey::Up),
        WindowTask::Scroll {
            position: 0,
            last: 2
        }
    );
    // Keys of other windows do not count.
    assert_eq!(
        session.task(WindowMessage::KeyboardInput(id + 1, NavigationKey::Down)),
        WindowTask::Nothing
    );
    assert_eq!(session.window.selected_item(), Some(0));
}

#[test]
fn one_item_is_scrolled_to_without_a_division_by_zero() {
    let mut session = Session::new(&["a"]);
    let id = session.open();
    assert_eq!(
        session.task(WindowMessage::KeyboardInput(id, NavigationKey::Down)),
        WindowTask::Scroll {
            position: 0,
            last: 1
        }
    );
    session.task(WindowMessage::ClearHistory);
    assert_eq!(
        session.task(WindowMessage::KeyboardInput(id, NavigationKey::Enter)),
        WindowTask::Nothing
    );
}

#[test]
fn enter_activates_the_selected_item() {
    let mut session = Session::new(&["a", "b", "c"]);
    let id = session.open();
    session.send(WindowMessage::KeyboardInput(id, NavigationKey::Up));
    let effects = session.send(WindowMessage::KeyboardInput(id, NavigationKey::Enter));
    assert_eq!(effects.copy.expect("a request").text.as_deref(), Some("c"));
    assert_eq!(effects.task, WindowTask::Destroy(id));
    assert_eq!(session.texts(), ["c", "a", "b"]);
}

#[test]
fn the_window_is_opened_focused_and_reopened() {
    let mut session = Session::new(&["a"]);
    let id = session.open();
    assert_eq!(session.window.content_window(), Some(id));
    assert_eq!(session.task(WindowMessage::Focus), WindowTask::GainFocus(id));
    assert_eq!(
        session.task(WindowMessage::WindowClosed(id)),
        WindowTask::Destroy(id)
    );
    // It is still closing: it opens again once it is closed.
    assert_eq!(session.task(WindowMessage::Focus), WindowTask::Nothing);
    assert_eq!(
        session.task(WindowMessage::WindowEvent(id + 9, WindowEvent::Closed)),
        WindowTask::Nothing
    );
    assert_eq!(
        session.task(WindowMessage::WindowEvent(id, WindowEvent::Closed)),
        WindowTask::Refocus
    );
    let again = session.open();
    assert_ne!(again, id);
    // Closed by the compositor: nothing is to be done.
    assert_eq!(
        session.task(WindowMessage::WindowEvent(again, WindowEvent::Closed)),
        WindowTask::Nothing
    );
    assert_eq!(session.window.content_window(), None);
    session.open();
}

#[test]
fn the_window_closes_when_it_loses_the_focus_it_had() {
    let mut session = Session::new(&["a"]);
    let id = session.open();
    let event = |session: &mut Session, event: WindowEvent| {
        session.task(WindowMessage::WindowEvent(id, event))
    };
    assert_eq!(event(&mut session, WindowEvent::Unfocused), WindowTask::Nothing);
    assert_eq!(event(&mut session, WindowEvent::Other), WindowTask::Nothing);
    assert_eq!(event(&mut session, WindowEvent::Focused), WindowTask::Nothing);
    assert_eq!(
        event(&mut session, WindowEvent::Unfocused),
        WindowTask::Destroy(id)
    );
    assert_eq!(event(&mut session, WindowEvent::Unfocused), WindowTask::Nothing);
}

#[test]
fn only_the_shown_window_is_closed_on_request() {
    let mut session = Session::new(&[]);
    let id = session.open();
    assert!(matches!(
        session.window.on_close_requested(id),
        Some(WindowMessage::WindowClosed(closed)) if closed == id
    ));
    assert!(session.window.on_close_requested(id + 1).is_none());
    assert_eq!(
        session.task(WindowMessage::WindowClosed(id + 1)),
        WindowTask::Nothing
    );
}

#[test]
fn tray_events_become_messages() {
    assert!(matches!(
        message_for(TrayEvent::Activate),
        WindowMessage::Focus
    ));
    assert!(matches!(
        message_for(TrayEvent::ClearHistory),
        WindowMessage::ClearHistory
    ));
    assert!(matches!(
        message_for(TrayEvent::SetHistoryLimit(50)),
        WindowMessage::SetHistoryLimit(50)
    ));
    let mut session = Session::new(&[]);
    assert_eq!(
        session.task(message_for(TrayEvent::ConfigureShortcut)),
        WindowTask::ConfigureShortcut
    );
}

const LATER: Timestamp = Timestamp {
    seconds: 900,
    nanoseconds: 0,
};

fn color_update(text: &str, types: &[&str]) -> ClipboardUpdate {
    ClipboardUpdate {
        text: text.to_string(),
        mime_type: types[types.len() - 1].to_string(),
        available_mime_types: types.iter().map(|mime| mime.to_string()).collect(),
        color_rgba: parse_color_expression(text),
        image: None,
        files: None,
        captured_at: LATER,
    }
}

impl Session {
    /// Activates an item, and gives what the clipboard then holds.
    fn activate(&mut self, index: usize) -> ClipboardUpdate {
        let effects = self.send(WindowMessage::ActivateItem(index));
        let request = effects.copy.expect("a request");
        let types = request.mime_types();
        let mime = preferred_mime(&types).expect("a type").to_string();
        let bytes = CopyState::new(request).payload(&mime);
        match capture(&mime, types, bytes, None, &Vec::new(), LATER) {
            Captured::Update(update) => update,
            _ => panic!("nothing was captured"),
        }
    }

    fn take(&mut self, update: ClipboardUpdate) {
        self.send(WindowMessage::ClipboardUpdated(update));
    }
}

const OFFER: [&str; 3] = [
    "text/plain;charset=utf-8",
    "text/plain",
    "application/x-color",
];

#[test]
fn an_activated_color_is_refreshed_without_a_duplicate() {
    for notation in ["#33AADD", "#3ad", "#33aaddff", "rgb(51, 170, 221)"] {
        let mut session = Session::new(&["a"]);
        session.take(color_update(notation, &["text/plain"]));
        session.copy("b");
        let update = session.activate(1);
        assert_eq!(update.text, "#33AADD");
        assert_eq!(update.available_mime_types, OFFER);
        session.take(update.clone());
        // The item keeps the way in which it is written.
        assert_eq!(session.texts(), [notation, "b", "a"]);
        let item = &session.window.history()[0];
        assert_eq!(item.mime_type, "application/x-color");
        assert_eq!(item.available_mime_types, OFFER);
        assert_eq!(item.captured_at, LATER);
        // Only the next update is what comes back.
        session.take(update);
        if notation == "#33AADD" {
            assert_eq!(session.texts(), ["#33AADD", "b", "a"]);
        } else {
            assert_eq!(session.texts(), ["#33AADD", notation, "b", "a"]);
        }
    }
}

#[test]
fn other_colors_are_recorded_as_they_come() {
    let rgb = "rgb(51, 170, 221)";
    let start = || {
        let mut session = Session::new(&[]);
        session.take(color_update(rgb, &["text/plain"]));
        session
    };
    // Nothing was activated.
    let mut session = start();
    session.take(color_update("#33AADD", &OFFER));
    assert_eq!(session.texts(), ["#33AADD", rgb]);
    let mut session = start();
    session.take(color_update("#33AADD", &["application/x-color"]));
    assert_eq!(session.texts(), ["#33AADD", rgb]);
    // It was activated, but this comes from elsewhere.
    let mut session = start();
    session.activate(0);
    session.take(color_update("#33AADD", &["application/x-color"]));
    assert_eq!(session.texts(), ["#33AADD", rgb]);
    let mut session = start();
    session.activate(0);
    session.take(color_update("#33AADE", &OFFER));
    assert_eq!(session.texts(), ["#33AADE", rgb]);
    // It was activated, but something else came first, or it is gone.
    let mut session = start();
    let update = session.activate(0);
    session.copy("c");
    session.take(update);
    assert_eq!(session.texts(), ["#33AADD", "c", rgb]);
    let mut session = start();
    let update = session.activate(0);
    session.task(WindowMessage::DeleteItem(0));
    session.take(update);
    assert_eq!(session.texts(), ["#33AADD"]);
}
