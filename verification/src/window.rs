//! The window that shows the history, as a state machine: messages in, tasks for the
//! user interface out.

use vstd::prelude::*;
use vstd::string::*;
use crate::color::{same_color, ByteOrder};
use crate::copying::{
    copied_color_comes_back, copied_image_comes_back, copied_text_comes_back, next_generation,
    offered_types, CopyRequest, RequestModel, WriteCounter,
};
use crate::files::FileMetadata;
use crate::history::{
    activate_clipboard_content, activate_history_item, activated, activation_request,
    captured_again, has_no_blanks, has_no_duplicates, item_for, items, lemma_recorded_again,
    moved_to_top, record_history, recorded, recording_keeps_the_history_sound, same_item,
    truncated, FreshIds, HistoryItem, ItemModel, DEFAULT_HISTORY_LIMIT,
};
use crate::picture::{decoded_image, is_image_type, SvgDrawing};
use crate::text::{blank, is_blank, is_white_space, lemma_decimal, same_text, views};
use crate::tray::TrayEvent;
use crate::update::{
    is_color_mime, svg_in_text, ClipboardUpdate, ContentModel, Timestamp, UpdateModel,
};

verus! {

broadcast use vstd::string::group_string_axioms;

// ---------------------------------------------------------------------------
// Types
// ---------------------------------------------------------------------------

/// The state of the application. Windows stand in it by number.
pub struct ClipboardWindow {
    history: Vec<HistoryItem>,
    max_history_items: usize,
    content_window: Option<u64>,
    closing_window: Option<u64>,
    reopen_after_close: bool,
    content_window_focused: bool,
    selected_item: Option<usize>,
    activated_text: Option<String>,
}

/// A key that moves through the history.
#[derive(Clone, Copy, Debug, PartialEq, Eq, Structural)]
pub enum NavigationKey {
    Up,
    Down,
    Enter,
}

/// What happens to a window.
#[derive(Clone, Copy, Debug, PartialEq, Eq, Structural)]
pub enum WindowEvent {
    Closed,
    Focused,
    Unfocused,
    Other,
}

/// What the application reacts to.
#[derive(Clone, Debug)]
pub enum WindowMessage {
    ClipboardUpdated(ClipboardUpdate),
    ActivateItem(usize),
    DeleteItem(usize),
    ClearHistory,
    ConfigureShortcut,
    Focus,
    WindowClosed(u64),
    WindowEvent(u64, WindowEvent),
    SetHistoryLimit(usize),
    KeyboardInput(u64, NavigationKey),
}

/// What the user interface is to do.
#[derive(Clone, Copy, Debug, PartialEq, Eq, Structural)]
pub enum WindowTask {
    Nothing,
    /// Bring a window to the front.
    GainFocus(u64),
    /// Open a window of the given number.
    Open(u64),
    /// Destroy a window.
    Destroy(u64),
    /// Send `WindowMessage::Focus`.
    Refocus,
    /// Scroll to the item that stands at `position` of `last`.
    Scroll { position: usize, last: usize },
    /// Open the keyboard settings, with the command for the shortcut on the clipboard.
    ConfigureShortcut,
}

/// What follows from a message, in order: flash the tray icon, put content on the
/// clipboard, and the task.
pub struct WindowEffects {
    pub flash: bool,
    pub copy: Option<CopyRequest>,
    pub task: WindowTask,
}

// ---------------------------------------------------------------------------
// Model
// ---------------------------------------------------------------------------

/// The model of a `ClipboardWindow`.
pub ghost struct WindowModel {
    pub history: Seq<ItemModel>,
    pub max_history_items: usize,
    pub content_window: Option<u64>,
    pub closing_window: Option<u64>,
    pub reopen_after_close: bool,
    pub content_window_focused: bool,
    pub selected_item: Option<usize>,
    /// The text of the item that was activated, until the next update.
    pub activated_text: Option<Seq<char>>,
}

/// The model of `WindowEffects`.
pub ghost struct EffectsModel {
    pub flash: bool,
    pub copy: Option<RequestModel>,
    pub task: WindowTask,
}

impl View for ClipboardWindow {
    type V = WindowModel;

    closed spec fn view(&self) -> WindowModel {
        WindowModel {
            history: items(self.history@),
            max_history_items: self.max_history_items,
            content_window: self.content_window,
            closing_window: self.closing_window,
            reopen_after_close: self.reopen_after_close,
            content_window_focused: self.content_window_focused,
            selected_item: self.selected_item,
            activated_text: match self.activated_text {
                Some(text) => Some(text@),
                None => None,
            },
        }
    }
}

impl View for WindowEffects {
    type V = EffectsModel;

    open spec fn view(&self) -> EffectsModel {
        EffectsModel {
            flash: self.flash,
            copy: match self.copy {
                Some(request) => Some(request@),
                None => None,
            },
            task: self.task,
        }
    }
}

/// The state at the start.
pub open spec fn initial_window() -> WindowModel {
    WindowModel {
        history: seq![],
        max_history_items: DEFAULT_HISTORY_LIMIT,
        content_window: None,
        closing_window: None,
        reopen_after_close: false,
        content_window_focused: false,
        selected_item: None,
        activated_text: None,
    }
}

/// What holds of every state: the selection is an item, the history is within its
/// limit, no window is shown while another is closing, only a window that is shown has
/// the focus, and one is reopened only after one that is closing.
pub open spec fn is_consistent(state: WindowModel) -> bool {
    &&& state.selected_item matches Some(i) ==> i < state.history.len()
    &&& state.history.len() <= state.max_history_items
    &&& !(state.content_window is Some && state.closing_window is Some)
    &&& state.content_window_focused ==> state.content_window is Some
    &&& state.reopen_after_close ==> state.closing_window is Some
}

pub open spec fn first_of(history: Seq<ItemModel>) -> Option<usize> {
    if history.len() == 0 {
        None
    } else {
        Some(0usize)
    }
}

/// The state after the window was told to close.
pub open spec fn closing(state: WindowModel) -> WindowModel {
    if state.content_window is Some {
        WindowModel {
            content_window: None,
            closing_window: state.content_window,
            content_window_focused: false,
            ..state
        }
    } else {
        state
    }
}

pub open spec fn closing_task(state: WindowModel) -> WindowTask {
    match state.content_window {
        Some(id) => WindowTask::Destroy(id),
        None => WindowTask::Nothing,
    }
}

pub open spec fn no_effects() -> EffectsModel {
    EffectsModel { flash: false, copy: None, task: WindowTask::Nothing }
}

pub open spec fn task_effects(task: WindowTask) -> EffectsModel {
    EffectsModel { flash: false, copy: None, task }
}

/// Whether an update is a color that comes from an item, going by the color and by the
/// media types under which both are offered. The update has the color in the usual
/// notation, the item may write it in another one.
pub open spec fn is_color_from(update: UpdateModel, item: ItemModel) -> bool {
    &&& is_color_mime(update.mime_type)
    &&& update.available == offered_types(activation_request(activated(item), 0))
    &&& update.content.image is None
    &&& item.image is None
    &&& update.content.color is Some
    &&& update.content.color == item.color
}

/// Whether an update is a color that comes from the item that was just activated.
pub open spec fn is_activated_color(state: WindowModel, update: UpdateModel) -> bool {
    &&& state.history.len() > 0
    &&& state.activated_text == Some(state.history[0].text)
    &&& is_color_from(update, state.history[0])
}

/// An update as it is recorded. The color of the item that was just activated has the text
/// of that item, so that it does not become an item of its own.
pub open spec fn as_recorded(state: WindowModel, update: UpdateModel) -> UpdateModel {
    if is_activated_color(state, update) {
        UpdateModel {
            content: ContentModel { text: state.history[0].text, ..update.content },
            ..update
        }
    } else {
        update
    }
}

pub open spec fn after_update(
    state: WindowModel,
    update: UpdateModel,
    fresh: FreshIds,
) -> WindowModel {
    let history = recorded(
        state.history,
        as_recorded(state, update),
        state.max_history_items as int,
        fresh,
    );
    WindowModel { history, selected_item: first_of(history), activated_text: None, ..state }
}

/// The state after an item went on the clipboard.
pub open spec fn after_activation(state: WindowModel, index: int) -> WindowModel {
    if index < state.history.len() {
        closing(
            WindowModel {
                history: moved_to_top(state.history, index),
                selected_item: Some(0usize),
                activated_text: Some(state.history[index].text),
                ..state
            },
        )
    } else {
        state
    }
}

pub open spec fn activation_effects(
    state: WindowModel,
    index: int,
    generation: u64,
) -> EffectsModel {
    if index < state.history.len() {
        EffectsModel {
            flash: false,
            copy: Some(activation_request(activated(state.history[index]), generation)),
            task: closing_task(state),
        }
    } else {
        no_effects()
    }
}

/// The selection after the item at `index` went: it stays on its item, or on what took
/// its place.
pub open spec fn selection_after_deletion(
    selected: Option<usize>,
    index: int,
    remaining: int,
) -> Option<usize> {
    match selected {
        Some(i) => if remaining == 0 {
            None
        } else if i > index {
            Some((i - 1) as usize)
        } else if i < remaining {
            Some(i)
        } else {
            Some((remaining - 1) as usize)
        },
        None => None,
    }
}

pub open spec fn after_deletion(state: WindowModel, index: int) -> WindowModel {
    if index < state.history.len() {
        WindowModel {
            history: state.history.remove(index),
            selected_item: selection_after_deletion(
                state.selected_item,
                index,
                state.history.len() - 1,
            ),
            ..state
        }
    } else {
        state
    }
}

pub open spec fn after_focus(state: WindowModel, new_window: u64) -> WindowModel {
    if state.content_window is Some {
        state
    } else if state.closing_window is Some {
        WindowModel { reopen_after_close: true, ..state }
    } else {
        WindowModel {
            content_window: Some(new_window),
            content_window_focused: false,
            selected_item: first_of(state.history),
            ..state
        }
    }
}

pub open spec fn focus_task(state: WindowModel, new_window: u64) -> WindowTask {
    match state.content_window {
        Some(id) => WindowTask::GainFocus(id),
        None => if state.closing_window is Some {
            WindowTask::Nothing
        } else {
            WindowTask::Open(new_window)
        },
    }
}

pub open spec fn after_event(state: WindowModel, id: u64, event: WindowEvent) -> WindowModel {
    let shown = state.content_window == Some(id);
    match event {
        WindowEvent::Closed => {
            let closed = state.closing_window == Some(id);
            WindowModel {
                content_window: if shown {
                    None
                } else {
                    state.content_window
                },
                content_window_focused: state.content_window_focused && !shown,
                closing_window: if closed {
                    None
                } else {
                    state.closing_window
                },
                reopen_after_close: state.reopen_after_close && !closed,
                ..state
            }
        },
        WindowEvent::Focused => if shown {
            WindowModel { content_window_focused: true, ..state }
        } else {
            state
        },
        WindowEvent::Unfocused => if shown && state.content_window_focused {
            closing(state)
        } else {
            state
        },
        WindowEvent::Other => state,
    }
}

pub open spec fn event_task(state: WindowModel, id: u64, event: WindowEvent) -> WindowTask {
    match event {
        WindowEvent::Closed => if state.closing_window == Some(id) && state.reopen_after_close {
            WindowTask::Refocus
        } else {
            WindowTask::Nothing
        },
        WindowEvent::Unfocused => if state.content_window == Some(id)
            && state.content_window_focused {
            closing_task(state)
        } else {
            WindowTask::Nothing
        },
        _ => WindowTask::Nothing,
    }
}

pub open spec fn after_limit(state: WindowModel, limit: usize) -> WindowModel {
    let history = truncated(state.history, limit as int);
    WindowModel {
        history,
        max_history_items: limit,
        selected_item: match state.selected_item {
            Some(i) => if i < history.len() {
                Some(i)
            } else {
                None
            },
            None => None,
        },
        ..state
    }
}

/// The item that a key applies to.
pub open spec fn current_item(state: WindowModel) -> int {
    match state.selected_item {
        Some(i) => if i < state.history.len() {
            i as int
        } else {
            state.history.len() - 1
        },
        None => 0,
    }
}

/// The item that an arrow key goes to. The ends of the history meet.
pub open spec fn neighbour(current: int, count: int, key: NavigationKey) -> int {
    match key {
        NavigationKey::Up => if current == 0 {
            count - 1
        } else {
            current - 1
        },
        _ => if current + 1 == count {
            0
        } else {
            current + 1
        },
    }
}

pub open spec fn after_key(state: WindowModel, id: u64, key: NavigationKey) -> WindowModel {
    let count = state.history.len() as int;
    if state.content_window != Some(id) {
        state
    } else if count == 0 {
        WindowModel { selected_item: None, ..state }
    } else if key == NavigationKey::Enter {
        after_activation(state, current_item(state))
    } else {
        WindowModel {
            selected_item: Some(neighbour(current_item(state), count, key) as usize),
            ..state
        }
    }
}

pub open spec fn key_effects(
    state: WindowModel,
    id: u64,
    key: NavigationKey,
    generation: u64,
) -> EffectsModel {
    let count = state.history.len() as int;
    if state.content_window != Some(id) || count == 0 {
        no_effects()
    } else if key == NavigationKey::Enter {
        activation_effects(state, current_item(state), generation)
    } else {
        task_effects(
            WindowTask::Scroll {
                position: neighbour(current_item(state), count, key) as usize,
                last: if count < 2 {
                    1
                } else {
                    (count - 1) as usize
                },
            },
        )
    }
}

/// The state after a message. `fresh` are numbers for a new item and `new_window` one
/// for a new window.
pub open spec fn window_after(
    state: WindowModel,
    message: WindowMessage,
    fresh: FreshIds,
    new_window: u64,
) -> WindowModel {
    match message {
        WindowMessage::ClipboardUpdated(update) => after_update(state, update@, fresh),
        WindowMessage::ActivateItem(index) => after_activation(state, index as int),
        WindowMessage::DeleteItem(index) => after_deletion(state, index as int),
        WindowMessage::ClearHistory => WindowModel {
            history: seq![],
            selected_item: None,
            ..state
        },
        WindowMessage::ConfigureShortcut => state,
        WindowMessage::Focus => after_focus(state, new_window),
        WindowMessage::WindowClosed(id) => if state.content_window == Some(id) {
            closing(state)
        } else {
            state
        },
        WindowMessage::WindowEvent(id, event) => after_event(state, id, event),
        WindowMessage::SetHistoryLimit(limit) => after_limit(state, limit),
        WindowMessage::KeyboardInput(id, key) => after_key(state, id, key),
    }
}

/// What follows from a message. `generation` is the number of the next request to set
/// the clipboard.
pub open spec fn effects_of(
    state: WindowModel,
    message: WindowMessage,
    new_window: u64,
    generation: u64,
) -> EffectsModel {
    match message {
        WindowMessage::ClipboardUpdated(update) => EffectsModel {
            flash: !is_blank(update@.content.text),
            copy: None,
            task: WindowTask::Nothing,
        },
        WindowMessage::ActivateItem(index) => activation_effects(state, index as int, generation),
        WindowMessage::ConfigureShortcut => task_effects(WindowTask::ConfigureShortcut),
        WindowMessage::Focus => task_effects(focus_task(state, new_window)),
        WindowMessage::WindowClosed(id) => if state.content_window == Some(id) {
            task_effects(closing_task(state))
        } else {
            no_effects()
        },
        WindowMessage::WindowEvent(id, event) => task_effects(event_task(state, id, event)),
        WindowMessage::KeyboardInput(id, key) => key_effects(state, id, key, generation),
        _ => no_effects(),
    }
}

// ---------------------------------------------------------------------------
// Transitions
// ---------------------------------------------------------------------------

fn nothing() -> (r: WindowEffects)
    ensures
        r@ == no_effects(),
{
    WindowEffects { flash: false, copy: None, task: WindowTask::Nothing }
}

fn only(task: WindowTask) -> (r: WindowEffects)
    ensures
        r@ == task_effects(task),
{
    WindowEffects { flash: false, copy: None, task }
}

fn is_window(window: Option<u64>, id: u64) -> (r: bool)
    ensures
        r == (window == Some(id)),
{
    match window {
        Some(number) => number == id,
        None => false,
    }
}

/// The media types under which a text is offered that is a color.
spec fn color_offer() -> Seq<Seq<char>> {
    seq!["text/plain;charset=utf-8"@, "text/plain"@, "application/x-color"@]
}

fn is_color_offer(types: &Vec<String>) -> (r: bool)
    ensures
        r == (views(types@) == color_offer()),
{
    let all = types.len() == 3 && same_text(types[0].as_str(), "text/plain;charset=utf-8")
        && same_text(types[1].as_str(), "text/plain") && same_text(
        types[2].as_str(),
        "application/x-color",
    );
    proof {
        let offered = views(types@);
        if all {
            assert(offered =~= color_offer());
        } else if offered == color_offer() {
            assert(offered.len() == 3);
            assert(offered[0] == types[0]@ && offered[1] == types[1]@ && offered[2] == types[2]@);
        }
    }
    all
}

impl ClipboardWindow {
    /// The state at the start.
    pub fn init() -> (r: ClipboardWindow)
        ensures
            r@ == initial_window(),
    {
        let r = ClipboardWindow {
            history: Vec::new(),
            max_history_items: DEFAULT_HISTORY_LIMIT,
            content_window: None,
            closing_window: None,
            reopen_after_close: false,
            content_window_focused: false,
            selected_item: None,
            activated_text: None,
        };
        assert(items(r.history@) =~= seq![]);
        r
    }

    /// The items, the most recent first.
    pub fn history(&self) -> (r: &Vec<HistoryItem>)
        ensures
            items(r@) == self@.history,
    {
        &self.history
    }

    /// How many items the history may hold.
    pub fn max_history_items(&self) -> (r: usize)
        ensures
            r == self@.max_history_items,
    {
        self.max_history_items
    }

    /// The window that shows the history.
    pub fn content_window(&self) -> (r: Option<u64>)
        ensures
            r == self@.content_window,
    {
        self.content_window
    }

    /// The index of the selected item.
    pub fn selected_item(&self) -> (r: Option<usize>)
        ensures
            r == self@.selected_item,
    {
        self.selected_item
    }

    fn close_content_window(&mut self) -> (r: WindowTask)
        ensures
            final(self)@ == closing(old(self)@),
            r == closing_task(old(self)@),
    {
        match self.content_window {
            Some(id) => {
                self.content_window = None;
                self.closing_window = Some(id);
                self.content_window_focused = false;
                WindowTask::Destroy(id)
            },
            None => WindowTask::Nothing,
        }
    }

    /// The message for a request of the user to close a window.
    pub fn on_close_requested(&self, id: u64) -> (r: Option<WindowMessage>)
        ensures
            r == (if self@.content_window == Some(id) {
                Some(WindowMessage::WindowClosed(id))
            } else {
                None
            }),
    {
        if is_window(self.content_window, id) {
            Some(WindowMessage::WindowClosed(id))
        } else {
            None
        }
    }

    fn activate(&mut self, writes: &mut WriteCounter, index: usize) -> (r: WindowEffects)
        ensures
            final(self)@ == after_activation(old(self)@, index as int),
            r@ == activation_effects(old(self)@, index as int, next_generation(old(writes)@)),
            final(writes)@ == (if r.copy is Some {
                next_generation(old(writes)@)
            } else {
                old(writes)@
            }),
    {
        let ghost before = self@;
        let ghost old_items = self.history@;
        match activate_history_item(&mut self.history, &mut self.selected_item, index) {
            Some(item) => {
                assert(items(self.history@) =~= moved_to_top(before.history, index as int));
                self.activated_text = Some(item.text.clone());
                let copy = activate_clipboard_content(writes, item);
                let task = self.close_content_window();
                WindowEffects { flash: false, copy: Some(copy), task }
            },
            None => {
                assert(items(self.history@) =~= before.history);
                nothing()
            },
        }
    }

    /// Whether an update is a color that comes from the item that was just activated.
    fn comes_from_activated(&self, update: &ClipboardUpdate) -> (r: bool)
        ensures
            r == is_activated_color(self@, update@),
    {
        if self.history.is_empty() {
            return false;
        }
        let item = &self.history[0];
        assert(self@.history[0] == item@);
        match &self.activated_text {
            Some(text) => {
                let color = update.image.is_none() && item.image.is_none() && same_color(
                    item.color_rgba,
                    update.color_rgba,
                );
                assert(color ==> offered_types(activation_request(activated(item@), 0))
                    =~= color_offer());
                color && same_text(text.as_str(), item.text.as_str()) && same_text(
                    update.mime_type.as_str(),
                    "application/x-color",
                ) && is_color_offer(&update.available_mime_types)
            },
            None => false,
        }
    }

    fn record(&mut self, update: ClipboardUpdate, fresh: FreshIds)
        ensures
            final(self)@ == after_update(old(self)@, update@, fresh),
    {
        let mut recorded_update = update;
        if self.comes_from_activated(&recorded_update) {
            recorded_update.text = self.history[0].text.clone();
        }
        assert(recorded_update@ == as_recorded(self@, update@));
        self.activated_text = None;
        record_history(&mut self.history, recorded_update, self.max_history_items, fresh);
        self.select_first();
    }

    fn delete(&mut self, index: usize)
        ensures
            final(self)@ == after_deletion(old(self)@, index as int),
    {
        let ghost before = self@;
        if index < self.history.len() {
            let _ = self.history.remove(index);
            assert(items(self.history@) =~= before.history.remove(index as int));
            let remaining = self.history.len();
            self.selected_item = match self.selected_item {
                Some(selected) => if remaining == 0 {
                    None
                } else if selected > index {
                    Some(selected - 1)
                } else if selected < remaining {
                    Some(selected)
                } else {
                    Some(remaining - 1)
                },
                None => None,
            };
        }
    }

    fn focus(&mut self, new_window: u64) -> (r: WindowTask)
        ensures
            final(self)@ == after_focus(old(self)@, new_window),
            r == focus_task(old(self)@, new_window),
    {
        if let Some(id) = self.content_window {
            return WindowTask::GainFocus(id);
        }
        if self.closing_window.is_some() {
            self.reopen_after_close = true;
            return WindowTask::Nothing;
        }
        self.select_first();
        self.content_window = Some(new_window);
        self.content_window_focused = false;
        WindowTask::Open(new_window)
    }

    fn select_first(&mut self)
        ensures
            final(self)@ == (WindowModel {
                selected_item: first_of(old(self)@.history),
                ..old(self)@
            }),
    {
        self.selected_item = if self.history.is_empty() {
            None
        } else {
            Some(0)
        };
    }

    fn window_event(&mut self, id: u64, event: WindowEvent) -> (r: WindowTask)
        ensures
            final(self)@ == after_event(old(self)@, id, event),
            r == event_task(old(self)@, id, event),
    {
        match event {
            WindowEvent::Closed => {
                if is_window(self.content_window, id) {
                    self.content_window = None;
                    self.content_window_focused = false;
                }
                if is_window(self.closing_window, id) {
                    self.closing_window = None;
                    if self.reopen_after_close {
                        self.reopen_after_close = false;
                        return WindowTask::Refocus;
                    }
                }
                WindowTask::Nothing
            },
            WindowEvent::Focused => {
                if is_window(self.content_window, id) {
                    self.content_window_focused = true;
                }
                WindowTask::Nothing
            },
            WindowEvent::Unfocused => {
                if is_window(self.content_window, id) && self.content_window_focused {
                    self.close_content_window()
                } else {
                    WindowTask::Nothing
                }
            },
            WindowEvent::Other => WindowTask::Nothing,
        }
    }

    fn set_limit(&mut self, limit: usize)
        ensures
            final(self)@ == after_limit(old(self)@, limit),
    {
        let ghost before = self@;
        self.max_history_items = limit;
        self.history.truncate(limit);
        assert(items(self.history@) =~= truncated(before.history, limit as int));
        if let Some(index) = self.selected_item {
            if index >= self.history.len() {
                self.selected_item = None;
            }
        }
    }

    fn keyboard_input(&mut self, writes: &mut WriteCounter, id: u64, key: NavigationKey) -> (r:
        WindowEffects)
        ensures
            final(self)@ == after_key(old(self)@, id, key),
            r@ == key_effects(old(self)@, id, key, next_generation(old(writes)@)),
            final(writes)@ == (if r.copy is Some {
                next_generation(old(writes)@)
            } else {
                old(writes)@
            }),
    {
        if !is_window(self.content_window, id) {
            return nothing();
        }
        let count = self.history.len();
        if count == 0 {
            self.selected_item = None;
            return nothing();
        }
        let current: usize = match self.selected_item {
            Some(index) => if index < count {
                index
            } else {
                count - 1
            },
            None => 0,
        };
        if key == NavigationKey::Enter {
            return self.activate(writes, current);
        }
        let position: usize = if key == NavigationKey::Up {
            if current == 0 {
                count - 1
            } else {
                current - 1
            }
        } else {
            if current + 1 == count {
                0
            } else {
                current + 1
            }
        };
        self.selected_item = Some(position);
        let last: usize = if count < 2 {
            1
        } else {
            count - 1
        };
        only(WindowTask::Scroll { position, last })
    }

    /// Reacts to a message. `fresh` are numbers for a new item and `new_window` one for a
    /// new window.
    pub fn update(
        &mut self,
        writes: &mut WriteCounter,
        message: WindowMessage,
        fresh: FreshIds,
        new_window: u64,
    ) -> (r: WindowEffects)
        ensures
            final(self)@ == window_after(old(self)@, message, fresh, new_window),
            r@ == effects_of(old(self)@, message, new_window, next_generation(old(writes)@)),
            final(writes)@ == (if r.copy is Some {
                next_generation(old(writes)@)
            } else {
                old(writes)@
            }),
    {
        match message {
            WindowMessage::ClipboardUpdated(update) => {
                let flash = !blank(update.text.as_str());
                self.record(update, fresh);
                WindowEffects { flash, copy: None, task: WindowTask::Nothing }
            },
            WindowMessage::ActivateItem(index) => self.activate(writes, index),
            WindowMessage::DeleteItem(index) => {
                self.delete(index);
                nothing()
            },
            WindowMessage::ClearHistory => {
                self.history.clear();
                assert(items(self.history@) =~= seq![]);
                self.selected_item = None;
                nothing()
            },
            WindowMessage::ConfigureShortcut => only(WindowTask::ConfigureShortcut),
            WindowMessage::Focus => {
                let task = self.focus(new_window);
                only(task)
            },
            WindowMessage::WindowClosed(id) => {
                if is_window(self.content_window, id) {
                    let task = self.close_content_window();
                    only(task)
                } else {
                    nothing()
                }
            },
            WindowMessage::WindowEvent(id, event) => {
                let task = self.window_event(id, event);
                only(task)
            },
            WindowMessage::SetHistoryLimit(limit) => {
                self.set_limit(limit);
                nothing()
            },
            WindowMessage::KeyboardInput(id, key) => self.keyboard_input(writes, id, key),
        }
    }
}

/// The message for an event of the tray icon.
pub open spec fn tray_message(event: TrayEvent) -> WindowMessage {
    match event {
        TrayEvent::Activate => WindowMessage::Focus,
        TrayEvent::ClearHistory => WindowMessage::ClearHistory,
        TrayEvent::ConfigureShortcut => WindowMessage::ConfigureShortcut,
        TrayEvent::SetHistoryLimit(limit) => WindowMessage::SetHistoryLimit(limit),
    }
}

/// The message for an event of the tray icon.
pub fn message_for(event: TrayEvent) -> (r: WindowMessage)
    ensures
        r == tray_message(event),
{
    match event {
        TrayEvent::Activate => WindowMessage::Focus,
        TrayEvent::ClearHistory => WindowMessage::ClearHistory,
        TrayEvent::ConfigureShortcut => WindowMessage::ConfigureShortcut,
        TrayEvent::SetHistoryLimit(limit) => WindowMessage::SetHistoryLimit(limit),
    }
}

// ---------------------------------------------------------------------------
// Laws
// ---------------------------------------------------------------------------

/// The state at the start is consistent, and every message keeps it so.
pub proof fn messages_keep_the_window_consistent(
    state: WindowModel,
    message: WindowMessage,
    fresh: FreshIds,
    new_window: u64,
)
    ensures
        is_consistent(initial_window()),
        is_consistent(state) ==> is_consistent(window_after(state, message, fresh, new_window)),
{
    if is_consistent(state) {
        if let WindowMessage::ClipboardUpdated(update) = message {
            let limit = state.max_history_items as int;
            let kept = as_recorded(state, update@);
            assert(recorded(state.history, kept, limit, fresh).len() <= limit);
        }
    }
}

/// Every message keeps the history free of duplicates and of blank items.
pub proof fn messages_keep_the_history_sound(
    state: WindowModel,
    message: WindowMessage,
    fresh: FreshIds,
    new_window: u64,
)
    requires
        is_consistent(state),
        has_no_duplicates(state.history),
        has_no_blanks(state.history),
    ensures
        has_no_duplicates(window_after(state, message, fresh, new_window).history),
        has_no_blanks(window_after(state, message, fresh, new_window).history),
{
    let before = state.history;
    let after = window_after(state, message, fresh, new_window).history;
    match message {
        WindowMessage::ClipboardUpdated(update) => {
            recording_keeps_the_history_sound(
                before,
                as_recorded(state, update@),
                state.max_history_items as int,
                fresh,
            );
        },
        WindowMessage::ActivateItem(index) => {
            if index < before.len() {
                lemma_moved(before, index as int);
            }
        },
        WindowMessage::DeleteItem(index) => {
            if index < before.len() {
                lemma_removed(before, index as int);
            }
        },
        WindowMessage::SetHistoryLimit(limit) => {
            assert forall|i: int, j: int| 0 <= i < j < after.len() implies
                !#[trigger] same_item(after[i], after[j]) by {
                assert(!same_item(before[i], before[j]));
            }
        },
        WindowMessage::KeyboardInput(id, key) => {
            let current = current_item(state);
            if before.len() > 0 {
                lemma_moved(before, current);
            }
        },
        _ => {},
    }
}

proof fn lemma_removed(history: Seq<ItemModel>, index: int)
    requires
        0 <= index < history.len(),
        has_no_duplicates(history),
        has_no_blanks(history),
    ensures
        has_no_duplicates(history.remove(index)),
        has_no_blanks(history.remove(index)),
{
    let rest = history.remove(index);
    assert forall|i: int, j: int| 0 <= i < j < rest.len() implies
        !#[trigger] same_item(rest[i], rest[j]) by {
        let a = if i < index {
            i
        } else {
            i + 1
        };
        let b = if j < index {
            j
        } else {
            j + 1
        };
        assert(rest[i] == history[a] && rest[j] == history[b]);
        assert(!same_item(history[a], history[b]));
    }
}

proof fn lemma_moved(history: Seq<ItemModel>, index: int)
    requires
        0 <= index < history.len(),
        has_no_duplicates(history),
        has_no_blanks(history),
    ensures
        has_no_duplicates(moved_to_top(history, index)),
        has_no_blanks(moved_to_top(history, index)),
{
    lemma_removed(history, index);
    let rest = history.remove(index);
    let moved = moved_to_top(history, index);
    assert forall|i: int, j: int| 0 <= i < j < moved.len() implies
        !#[trigger] same_item(moved[i], moved[j]) by {
        assert(moved[j] == rest[j - 1]);
        if i == 0 {
            let b = if j - 1 < index {
                j - 1
            } else {
                j
            };
            assert(rest[j - 1] == history[b]);
            if b < index {
                assert(!same_item(history[b], history[index]));
            } else {
                assert(!same_item(history[index], history[b]));
            }
        } else {
            assert(moved[i] == rest[i - 1]);
            assert(!same_item(rest[i - 1], rest[j - 1]));
        }
    }
    assert forall|i: int| 0 <= i < moved.len() implies !is_blank((#[trigger] moved[i]).text) by {
        if i > 0 {
            assert(moved[i] == rest[i - 1]);
        }
    }
}

/// When an item is activated, what the clipboard then holds is captured again. If the
/// item is a color in whatever notation, or text that stands for no image, that update
/// refreshes the item without duplicating it, and the item keeps its text.
pub proof fn activated_text_is_not_duplicated(
    state: WindowModel,
    index: int,
    generation: u64,
    order: ByteOrder,
    drawing: Option<SvgDrawing>,
    metadata: Seq<Option<FileMetadata>>,
    captured_at: Timestamp,
    fresh: FreshIds,
)
    requires
        0 <= index < state.history.len(),
        state.history[index].image is None,
        !is_blank(state.history[index].text),
        state.history[index].color matches Some(rgba) ==> rgba.len() == 4,
        state.history[index].color is None ==> svg_in_text(
            state.history[index].text,
            drawing,
        ) is None,
    ensures
        ({
            let item = state.history[index];
            let activated = after_activation(state, index);
            captured_again(item, generation, order, drawing, metadata, captured_at) matches Some(
                update,
            ) && {
                let kept = as_recorded(activated, update);
                &&& kept.content.text == item.text
                &&& kept.mime_type == update.mime_type
                &&& kept.captured_at == captured_at
                &&& after_update(activated, update, fresh).history == truncated(
                    seq![item_for(kept, Some(item), fresh)] + state.history.remove(index),
                    state.max_history_items as int,
                )
            }
        }),
{
    let item = state.history[index];
    let after = after_activation(state, index);
    assert(after.history[0] == item);
    match item.color {
        Some(rgba) => {
            copied_color_comes_back(item.text, rgba, generation, order, drawing, metadata);
        },
        None => {
            copied_text_comes_back(item.text, generation, order, drawing, metadata);
        },
    }
    let update = captured_again(item, generation, order, drawing, metadata, captured_at)->0;
    let kept = as_recorded(after, update);
    assert(kept.content.text == item.text);
    lemma_recorded_again(state.history, index, kept, state.max_history_items as int, fresh);
}

/// An activated image is refreshed without duplicating it, if it can still be shown.
pub proof fn activated_image_is_not_duplicated(
    state: WindowModel,
    index: int,
    generation: u64,
    order: ByteOrder,
    drawing: Option<SvgDrawing>,
    metadata: Seq<Option<FileMetadata>>,
    captured_at: Timestamp,
    fresh: FreshIds,
)
    requires
        0 <= index < state.history.len(),
        state.history[index].image matches Some(image) && is_image_type(image.mime_type)
            && decoded_image(image.mime_type, image.bytes, drawing) is Some,
    ensures
        ({
            let item = state.history[index];
            captured_again(item, generation, order, drawing, metadata, captured_at) matches Some(
                update,
            ) && after_update(after_activation(state, index), update, fresh).history == truncated(
                seq![item_for(update, Some(item), fresh)] + state.history.remove(index),
                state.max_history_items as int,
            )
        }),
{
    let item = state.history[index];
    let image = item.image->0;
    copied_image_comes_back(image, generation, order, drawing, metadata);
    let update = captured_again(item, generation, order, drawing, metadata, captured_at)->0;
    let again = update.content.image->0;
    assert(again.bytes == image.bytes);
    lemma_decimal(again.width as nat);
    assert(!is_white_space(update.content.text[0]));
    lemma_recorded_again(state.history, index, update, state.max_history_items as int, fresh);
}

/// Up and down undo each other.
pub proof fn arrow_keys_undo_each_other(state: WindowModel, id: u64)
    requires
        is_consistent(state),
        state.content_window == Some(id),
        state.selected_item is Some,
    ensures
        after_key(after_key(state, id, NavigationKey::Down), id, NavigationKey::Up) == state,
        after_key(after_key(state, id, NavigationKey::Up), id, NavigationKey::Down) == state,
{
    assert(state.history.len() <= usize::MAX);
}

/// Where the list is scrolled to lies between its start and its end.
pub proof fn scroll_positions_lie_in_the_list(
    state: WindowModel,
    message: WindowMessage,
    new_window: u64,
    generation: u64,
)
    requires
        is_consistent(state),
    ensures
        effects_of(state, message, new_window, generation).task matches WindowTask::Scroll {
            position,
            last,
        } ==> position <= last && last > 0,
{
    assert(state.history.len() <= usize::MAX);
}

/// Asking for the window while it closes opens it again once it is closed.
pub proof fn focus_while_closing_reopens(state: WindowModel, id: u64, new_window: u64)
    requires
        is_consistent(state),
        state.closing_window == Some(id),
    ensures
        ({
            let asked = after_focus(state, new_window);
            let closed = after_event(asked, id, WindowEvent::Closed);
            &&& focus_task(state, new_window) == WindowTask::Nothing
            &&& event_task(asked, id, WindowEvent::Closed) == WindowTask::Refocus
            &&& focus_task(closed, new_window) == WindowTask::Open(new_window)
            &&& after_focus(closed, new_window).content_window == Some(new_window)
        }),
{
}

/// A window that was just opened stays open until it had the focus, and closes when it
/// loses it.
pub proof fn window_closes_when_it_loses_the_focus(state: WindowModel, new_window: u64)
    requires
        state.content_window is None,
        state.closing_window is None,
    ensures
        ({
            let opened = after_focus(state, new_window);
            let focused = after_event(opened, new_window, WindowEvent::Focused);
            &&& event_task(opened, new_window, WindowEvent::Unfocused) == WindowTask::Nothing
            &&& after_event(opened, new_window, WindowEvent::Unfocused) == opened
            &&& event_task(focused, new_window, WindowEvent::Unfocused) == WindowTask::Destroy(
                new_window,
            )
            &&& after_event(focused, new_window, WindowEvent::Unfocused).content_window is None
        }),
{
}

/// Deleting an item takes that item out and leaves the others in their order. If it was the
/// selected one, the selection goes to the item that followed it, or to the new last one if
/// none did, and to none if none is left. An index without an item changes nothing.
pub proof fn deletion_takes_one_item(state: WindowModel, index: int)
    requires
        is_consistent(state),
        0 <= index,
    ensures
        ({
            let after = after_deletion(state, index);
            let len = state.history.len() as int;
            &&& index >= len ==> after == state
            &&& index < len ==> {
                &&& after.history.len() == len - 1
                &&& forall|k: int| 0 <= k < index ==> after.history[k] == state.history[k]
                &&& forall|k: int|
                    index <= k < len - 1 ==> after.history[k] == state.history[k + 1]
                &&& state.selected_item is None ==> after.selected_item is None
                &&& len == 1 ==> after.selected_item is None
                &&& state.selected_item == Some(index as usize) && index < len - 1
                    ==> after.selected_item == Some(index as usize)
                &&& state.selected_item == Some(index as usize) && index == len - 1 && len > 1
                    ==> after.selected_item == Some((len - 2) as usize)
                &&& after.content_window == state.content_window
                &&& after.max_history_items == state.max_history_items
            }
        }),
{
    assert(state.history.len() <= usize::MAX);
}

/// The selection stays on its item when another one is deleted.
pub proof fn deletion_keeps_the_selection(state: WindowModel, index: int)
    requires
        is_consistent(state),
        0 <= index < state.history.len(),
        state.selected_item matches Some(i) && i != index,
    ensures
        after_deletion(state, index).selected_item matches Some(i) && after_deletion(
            state,
            index,
        ).history[i as int] == state.history[state.selected_item->0 as int],
{
}

/// Down goes to the next item and up to the one before, round the ends of the history. The
/// first item counts as selected where none is. Nothing else changes, and the list is
/// scrolled to the selected item.
pub proof fn arrow_keys_go_round(
    state: WindowModel,
    id: u64,
    fresh: FreshIds,
    new_window: u64,
    generation: u64,
)
    requires
        is_consistent(state),
        state.content_window == Some(id),
        state.history.len() > 0,
    ensures
        ({
            let n = state.history.len() as int;
            let i = match state.selected_item {
                Some(i) => i as int,
                None => 0,
            };
            let down = WindowMessage::KeyboardInput(id, NavigationKey::Down);
            let up = WindowMessage::KeyboardInput(id, NavigationKey::Up);
            &&& window_after(state, down, fresh, new_window) == (WindowModel {
                selected_item: Some(((i + 1) % n) as usize),
                ..state
            })
            &&& window_after(state, up, fresh, new_window) == (WindowModel {
                selected_item: Some(((i + n - 1) % n) as usize),
                ..state
            })
            &&& effects_of(state, down, new_window, generation) == (EffectsModel {
                flash: false,
                copy: None,
                task: WindowTask::Scroll {
                    position: ((i + 1) % n) as usize,
                    last: if n > 1 {
                        (n - 1) as usize
                    } else {
                        1
                    },
                },
            })
            &&& effects_of(state, up, new_window, generation) == (EffectsModel {
                flash: false,
                copy: None,
                task: WindowTask::Scroll {
                    position: ((i + n - 1) % n) as usize,
                    last: if n > 1 {
                        (n - 1) as usize
                    } else {
                        1
                    },
                },
            })
        }),
{
    let n = state.history.len() as int;
    let i = current_item(state);
    assert(0 <= i < n);
    if i + 1 < n {
        vstd::arithmetic::div_mod::lemma_small_mod((i + 1) as nat, n as nat);
    } else {
        vstd::arithmetic::div_mod::lemma_mod_self_0(n);
    }
    if i == 0 {
        vstd::arithmetic::div_mod::lemma_small_mod((n - 1) as nat, n as nat);
    } else {
        vstd::arithmetic::div_mod::lemma_mod_add_multiples_vanish(i - 1, n);
        vstd::arithmetic::div_mod::lemma_small_mod((i - 1) as nat, n as nat);
    }
}

/// Enter does what a click on the selected item does, or on the first item where none is
/// selected.
pub proof fn enter_activates_the_selected_item(
    state: WindowModel,
    id: u64,
    fresh: FreshIds,
    new_window: u64,
    generation: u64,
)
    requires
        is_consistent(state),
        state.content_window == Some(id),
        state.history.len() > 0,
    ensures
        ({
            let enter = WindowMessage::KeyboardInput(id, NavigationKey::Enter);
            let click = WindowMessage::ActivateItem(
                match state.selected_item {
                    Some(i) => i,
                    None => 0,
                },
            );
            &&& window_after(state, enter, fresh, new_window) == window_after(
                state,
                click,
                fresh,
                new_window,
            )
            &&& effects_of(state, enter, new_window, generation) == effects_of(
                state,
                click,
                new_window,
                generation,
            )
        }),
{
}

/// Keys do nothing in a window that is not shown, nor without items.
pub proof fn keys_need_a_window_and_an_item(
    state: WindowModel,
    id: u64,
    key: NavigationKey,
    fresh: FreshIds,
    new_window: u64,
    generation: u64,
)
    requires
        is_consistent(state),
        state.content_window != Some(id) || state.history.len() == 0,
    ensures
        window_after(state, WindowMessage::KeyboardInput(id, key), fresh, new_window) == state,
        effects_of(state, WindowMessage::KeyboardInput(id, key), new_window, generation) == (
        EffectsModel { flash: false, copy: None, task: WindowTask::Nothing }),
{
}

/// Activating an item puts it on the clipboard and on top of the history, selects it, and
/// closes the window. The other items keep their order. An index without an item does
/// nothing.
pub proof fn activation_moves_the_item_to_the_top(
    state: WindowModel,
    index: usize,
    fresh: FreshIds,
    new_window: u64,
    generation: u64,
)
    ensures
        ({
            let message = WindowMessage::ActivateItem(index);
            let after = window_after(state, message, fresh, new_window);
            let effects = effects_of(state, message, new_window, generation);
            let item = state.history[index as int];
            &&& index >= state.history.len() ==> after == state && effects == (EffectsModel {
                flash: false,
                copy: None,
                task: WindowTask::Nothing,
            })
            &&& index < state.history.len() ==> {
                &&& after.history.len() == state.history.len()
                &&& after.history[0] == item
                &&& forall|k: int| 0 <= k < index ==> after.history[k + 1] == #[trigger] state.history[k]
                &&& forall|k: int|
                    index < k < state.history.len() ==> after.history[k] == #[trigger] state.history[k]
                &&& after.selected_item == Some(0usize)
                &&& after.max_history_items == state.max_history_items
                &&& after.reopen_after_close == state.reopen_after_close
                &&& after.content_window is None
                &&& state.content_window is Some ==> after.closing_window == state.content_window
                    && !after.content_window_focused
                &&& state.content_window is None ==> after.closing_window == state.closing_window
                &&& !effects.flash
                &&& effects.copy == Some(activation_request(activated(item), generation))
                &&& effects.task == match state.content_window {
                    Some(id) => WindowTask::Destroy(id),
                    None => WindowTask::Nothing,
                }
            }
        }),
{
    let after = window_after(state, WindowMessage::ActivateItem(index), fresh, new_window);
    if index < state.history.len() {
        assert forall|k: int| 0 <= k < index implies after.history[k + 1]
            == #[trigger] state.history[k] by {
            assert(state.history.remove(index as int)[k] == state.history[k]);
        }
        assert forall|k: int| index < k < state.history.len() implies after.history[k]
            == #[trigger] state.history[k] by {
            assert(state.history.remove(index as int)[k - 1] == state.history[k]);
        }
    }
}

/// An update selects the newest item and leaves the window as it is. The tray icon flashes
/// exactly if the text of the update is more than whitespace, and nothing goes on the
/// clipboard.
pub proof fn updates_leave_the_window_alone(
    state: WindowModel,
    update: ClipboardUpdate,
    fresh: FreshIds,
    new_window: u64,
    generation: u64,
)
    ensures
        ({
            let message = WindowMessage::ClipboardUpdated(update);
            let after = window_after(state, message, fresh, new_window);
            let effects = effects_of(state, message, new_window, generation);
            &&& after.selected_item == if after.history.len() > 0 {
                Some(0usize)
            } else {
                None
            }
            &&& after.max_history_items == state.max_history_items
            &&& after.content_window == state.content_window
            &&& after.closing_window == state.closing_window
            &&& after.reopen_after_close == state.reopen_after_close
            &&& after.content_window_focused == state.content_window_focused
            &&& effects.flash <==> exists|i: int|
                0 <= i < update@.content.text.len() && !is_white_space(
                    #[trigger] update@.content.text[i],
                )
            &&& effects.copy is None
            &&& effects.task == WindowTask::Nothing
        }),
{
}

/// An update is recorded as it came, unless it is the color of the item that was just
/// activated; that one is recorded with the text of the item.
pub proof fn updates_are_recorded_as_they_came(
    state: WindowModel,
    update: ClipboardUpdate,
    fresh: FreshIds,
    new_window: u64,
)
    ensures
        ({
            let after = window_after(
                state,
                WindowMessage::ClipboardUpdated(update),
                fresh,
                new_window,
            );
            let limit = state.max_history_items as int;
            &&& state.activated_text is None || update@.content.color is None || update@.mime_type
                != "application/x-color"@ || state.history.len() == 0 || state.history[0].color
                != update@.content.color || state.activated_text != Some(state.history[0].text)
                || update@.content.image is Some || state.history[0].image is Some
                || update@.available != seq![
                "text/plain;charset=utf-8"@,
                "text/plain"@,
                "application/x-color"@,
            ] ==> after.history == recorded(state.history, update@, limit, fresh)
            &&& exists|kept: UpdateModel| #[trigger]
                recorded(state.history, kept, limit, fresh) == after.history && kept.mime_type
                    == update@.mime_type && kept.available == update@.available && kept.captured_at
                    == update@.captured_at && kept.content.color == update@.content.color
                    && kept.content.image == update@.content.image && (kept.content.text
                    == update@.content.text || state.activated_text == Some(kept.content.text))
            &&& after.activated_text is None
        }),
{
    let kept = as_recorded(state, update@);
    if is_activated_color(state, update@) {
        let item = state.history[0];
        assert(offered_types(activation_request(activated(item), 0)) =~= seq![
            "text/plain;charset=utf-8"@,
            "text/plain"@,
            "application/x-color"@,
        ]);
    }
    assert(recorded(state.history, kept, state.max_history_items as int, fresh) == window_after(
        state,
        WindowMessage::ClipboardUpdated(update),
        fresh,
        new_window,
    ).history);
}

/// A lower limit takes the last items out and leaves the others. The selection stays if its
/// item does.
pub proof fn limits_cut_the_end(
    state: WindowModel,
    limit: usize,
    fresh: FreshIds,
    new_window: u64,
    generation: u64,
)
    requires
        is_consistent(state),
    ensures
        ({
            let message = WindowMessage::SetHistoryLimit(limit);
            let after = window_after(state, message, fresh, new_window);
            &&& after.max_history_items == limit
            &&& after.history.len() == if state.history.len() < limit {
                state.history.len()
            } else {
                limit as nat
            }
            &&& forall|k: int| 0 <= k < after.history.len() ==> after.history[k] == state.history[k]
            &&& after.selected_item == match state.selected_item {
                Some(i) => if i < limit {
                    Some(i)
                } else {
                    None
                },
                None => None,
            }
            &&& after.content_window == state.content_window
            &&& after.closing_window == state.closing_window
            &&& after.reopen_after_close == state.reopen_after_close
            &&& after.content_window_focused == state.content_window_focused
            &&& after.activated_text == state.activated_text
            &&& effects_of(state, message, new_window, generation) == (EffectsModel {
                flash: false,
                copy: None,
                task: WindowTask::Nothing,
            })
        }),
{
}

/// Clearing takes out every item and nothing else; deleting and clearing have no effect
/// outside, and configuring the shortcut changes no state.
pub proof fn clearing_takes_out_every_item(
    state: WindowModel,
    index: usize,
    fresh: FreshIds,
    new_window: u64,
    generation: u64,
)
    ensures
        window_after(state, WindowMessage::ClearHistory, fresh, new_window) == (WindowModel {
            history: seq![],
            selected_item: None,
            ..state
        }),
        effects_of(state, WindowMessage::ClearHistory, new_window, generation) == (EffectsModel {
            flash: false,
            copy: None,
            task: WindowTask::Nothing,
        }),
        effects_of(state, WindowMessage::DeleteItem(index), new_window, generation) == (
        EffectsModel { flash: false, copy: None, task: WindowTask::Nothing }),
        window_after(state, WindowMessage::DeleteItem(index), fresh, new_window) == after_deletion(
            state,
            index as int,
        ),
        window_after(state, WindowMessage::ConfigureShortcut, fresh, new_window) == state,
        effects_of(state, WindowMessage::ConfigureShortcut, new_window, generation) == (
        EffectsModel { flash: false, copy: None, task: WindowTask::ConfigureShortcut }),
{
}

/// There is one window at most: asking for it raises the one that is shown, and opens a new
/// one, at the first item, only if none is shown or closing.
pub proof fn one_window_is_shown(
    state: WindowModel,
    fresh: FreshIds,
    new_window: u64,
    generation: u64,
)
    ensures
        ({
            let after = window_after(state, WindowMessage::Focus, fresh, new_window);
            let effects = effects_of(state, WindowMessage::Focus, new_window, generation);
            &&& after.history == state.history
            &&& after.max_history_items == state.max_history_items
            &&& after.activated_text == state.activated_text
            &&& after.closing_window == state.closing_window
            &&& !effects.flash && effects.copy is None
            &&& state.content_window matches Some(id) ==> after == state && effects.task
                == WindowTask::GainFocus(id)
            &&& state.content_window is None && state.closing_window is Some ==> effects.task
                == WindowTask::Nothing && after.content_window is None && after.selected_item
                == state.selected_item
            &&& state.content_window is None && state.closing_window is None ==> {
                &&& effects.task == WindowTask::Open(new_window)
                &&& after.content_window == Some(new_window)
                &&& !after.content_window_focused
                &&& after.reopen_after_close == state.reopen_after_close
                &&& after.selected_item == if state.history.len() > 0 {
                    Some(0usize)
                } else {
                    None
                }
            }
        }),
{
}

/// Closing the window that is shown destroys it; the history and the selection stay. What
/// is told of another window changes nothing, and a window that is gone is forgotten.
pub proof fn windows_close_one_by_one(
    state: WindowModel,
    id: u64,
    event: WindowEvent,
    fresh: FreshIds,
    new_window: u64,
    generation: u64,
)
    requires
        is_consistent(state),
    ensures
        ({
            let close = WindowMessage::WindowClosed(id);
            let told = WindowMessage::WindowEvent(id, event);
            let closed = window_after(state, close, fresh, new_window);
            let after = window_after(state, told, fresh, new_window);
            let effects = effects_of(state, told, new_window, generation);
            &&& state.content_window == Some(id) ==> effects_of(
                state,
                close,
                new_window,
                generation,
            ) == (EffectsModel { flash: false, copy: None, task: WindowTask::Destroy(id) })
                && closed == (WindowModel {
                content_window: None,
                closing_window: Some(id),
                content_window_focused: false,
                ..state
            })
            &&& state.content_window != Some(id) ==> closed == state && effects_of(
                state,
                close,
                new_window,
                generation,
            ) == (EffectsModel { flash: false, copy: None, task: WindowTask::Nothing })
            &&& after.history == state.history
            &&& after.selected_item == state.selected_item
            &&& after.max_history_items == state.max_history_items
            &&& after.activated_text == state.activated_text
            &&& !effects.flash && effects.copy is None
            &&& state.content_window != Some(id) && state.closing_window != Some(id) ==> after
                == state && effects.task == WindowTask::Nothing
            &&& event == WindowEvent::Other ==> after == state && effects.task
                == WindowTask::Nothing
            &&& event == WindowEvent::Focused && state.content_window == Some(id) ==> after == (
            WindowModel { content_window_focused: true, ..state }) && effects.task
                == WindowTask::Nothing
            &&& event == WindowEvent::Closed ==> {
                &&& after.content_window != Some(id)
                &&& after.closing_window != Some(id)
                &&& state.content_window == Some(id) ==> after.closing_window
                    == state.closing_window && effects.task == WindowTask::Nothing
                &&& state.closing_window == Some(id) ==> after.content_window
                    == state.content_window && !after.reopen_after_close && (effects.task
                    == if state.reopen_after_close {
                    WindowTask::Refocus
                } else {
                    WindowTask::Nothing
                })
            }
        }),
{
}

/// What the tray icon asks for comes about.
pub proof fn tray_events_take_effect(
    state: WindowModel,
    limit: usize,
    fresh: FreshIds,
    new_window: u64,
    generation: u64,
)
    requires
        state.content_window is None,
        state.closing_window is None,
    ensures
        window_after(
            state,
            tray_message(TrayEvent::SetHistoryLimit(limit)),
            fresh,
            new_window,
        ).max_history_items == limit,
        window_after(
            state,
            tray_message(TrayEvent::SetHistoryLimit(limit)),
            fresh,
            new_window,
        ).history.len() <= limit,
        window_after(
            state,
            tray_message(TrayEvent::ClearHistory),
            fresh,
            new_window,
        ).history.len() == 0,
        window_after(
            state,
            tray_message(TrayEvent::Activate),
            fresh,
            new_window,
        ).content_window == Some(new_window),
        effects_of(
            state,
            tray_message(TrayEvent::ConfigureShortcut),
            new_window,
            generation,
        ).task == WindowTask::ConfigureShortcut,
{
}

/// At the start nothing is recorded, shown or selected, and there is room for items.
pub proof fn the_window_starts_empty()
    ensures
        initial_window().history.len() == 0,
        initial_window().max_history_items == 255,
        initial_window().content_window is None,
        initial_window().selected_item is None,
{
}

} // verus!
