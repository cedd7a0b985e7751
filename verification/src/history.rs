//! The history of the clipboard: recording updates and activating items.

use vstd::prelude::*;
use vstd::string::*;
use vstd::utf8::encode_utf8;
use crate::color::{channels, ByteOrder};
use crate::copying::{
    copy_image, copy_text_with_color, image_request, images_are_served_as_their_data,
    next_generation, offered_types, served, state_of, text_is_served_as_it_is, text_request, CopyRequest, RequestModel, WriteCounter,
};
use crate::files::FileMetadata;
use crate::offers::preferred;
use crate::picture::{image_view, ClipboardImage, ImageModel, SvgDrawing};
use crate::text::{blank, is_blank, is_white_space, same_text, views};
use crate::update::{captured_update, content_of, ClipboardUpdate, Timestamp, UpdateModel};

verus! {

broadcast use vstd::string::group_string_axioms;

/// How many items the history holds unless the user decides otherwise.
pub const DEFAULT_HISTORY_LIMIT: usize = 255;

// ---------------------------------------------------------------------------
// Types
// ---------------------------------------------------------------------------

/// An item of the history. Windows, widgets and images of the user interface stand
/// in it by number.
#[derive(Clone, Debug)]
pub struct HistoryItem {
    pub text: String,
    pub mime_type: String,
    pub available_mime_types: Vec<String>,
    pub color_rgba: Option<[u8; 4]>,
    pub image: Option<ClipboardImage>,
    pub image_handle: Option<u64>,
    pub image_preview_handle: Option<u64>,
    pub captured_at: Timestamp,
    pub tooltip_popup_id: u64,
    pub tooltip_autosize_id: u64,
    pub preview_popup_id: u64,
    pub preview_autosize_id: u64,
}

/// Numbers that are not in use yet, for a new item.
#[derive(Clone, Copy, Debug, PartialEq, Eq, Structural)]
pub struct FreshIds {
    pub tooltip_popup_id: u64,
    pub tooltip_autosize_id: u64,
    pub preview_popup_id: u64,
    pub preview_autosize_id: u64,
    pub image_handle: u64,
    pub image_preview_handle: u64,
}

/// What goes on the clipboard when an item is activated.
pub struct ActivatedClipboardItem {
    pub text: String,
    pub color_rgba: Option<[u8; 4]>,
    pub image: Option<ClipboardImage>,
}

// ---------------------------------------------------------------------------
// Model
// ---------------------------------------------------------------------------

/// The model of a `HistoryItem`.
pub ghost struct ItemModel {
    pub text: Seq<char>,
    pub mime_type: Seq<char>,
    pub available: Seq<Seq<char>>,
    pub color: Option<Seq<u8>>,
    pub image: Option<ImageModel>,
    pub image_handle: Option<u64>,
    pub image_preview_handle: Option<u64>,
    pub captured_at: Timestamp,
    pub tooltip_popup_id: u64,
    pub tooltip_autosize_id: u64,
    pub preview_popup_id: u64,
    pub preview_autosize_id: u64,
}

/// The model of an `ActivatedClipboardItem`.
pub ghost struct ActivatedModel {
    pub text: Seq<char>,
    pub color: Option<Seq<u8>>,
    pub image: Option<ImageModel>,
}

impl View for HistoryItem {
    type V = ItemModel;

    open spec fn view(&self) -> ItemModel {
        ItemModel {
            text: self.text@,
            mime_type: self.mime_type@,
            available: views(self.available_mime_types@),
            color: channels(self.color_rgba),
            image: image_view(self.image),
            image_handle: self.image_handle,
            image_preview_handle: self.image_preview_handle,
            captured_at: self.captured_at,
            tooltip_popup_id: self.tooltip_popup_id,
            tooltip_autosize_id: self.tooltip_autosize_id,
            preview_popup_id: self.preview_popup_id,
            preview_autosize_id: self.preview_autosize_id,
        }
    }
}

impl View for ActivatedClipboardItem {
    type V = ActivatedModel;

    open spec fn view(&self) -> ActivatedModel {
        ActivatedModel {
            text: self.text@,
            color: channels(self.color_rgba),
            image: image_view(self.image),
        }
    }
}

pub open spec fn items(history: Seq<HistoryItem>) -> Seq<ItemModel> {
    history.map_values(|item: HistoryItem| item@)
}

/// Whether two contents count as the same: images by their data, everything else by
/// its text.
pub open spec fn same_content(
    text: Seq<char>,
    image: Option<ImageModel>,
    other_text: Seq<char>,
    other_image: Option<ImageModel>,
) -> bool {
    match (image, other_image) {
        (Some(a), Some(b)) => a.bytes == b.bytes,
        (None, None) => text == other_text,
        _ => false,
    }
}

pub open spec fn same_item(item: ItemModel, other: ItemModel) -> bool {
    same_content(item.text, item.image, other.text, other.image)
}

/// Whether an item holds the content of an update.
pub open spec fn holds_update(item: ItemModel, update: UpdateModel) -> bool {
    same_content(item.text, item.image, update.content.text, update.content.image)
}

/// The index of the first item that holds the content of an update, or the length.
pub open spec fn index_of_update(history: Seq<ItemModel>, update: UpdateModel) -> int
    decreases history.len(),
{
    if history.len() == 0 {
        0
    } else if holds_update(history[0], update) {
        0
    } else {
        1 + index_of_update(history.drop_first(), update)
    }
}

/// The handle that is known, or else a new one if there is an image to show.
pub open spec fn handle_for(known: Option<u64>, image: Option<ImageModel>, fresh: u64) -> Option<
    u64,
> {
    if known is Some {
        known
    } else if image is Some {
        Some(fresh)
    } else {
        None
    }
}

/// The item for an update, which takes over the numbers of the item that held the
/// same content.
pub open spec fn item_for(
    update: UpdateModel,
    existing: Option<ItemModel>,
    fresh: FreshIds,
) -> ItemModel {
    let content = update.content;
    match existing {
        Some(item) => ItemModel {
            text: content.text,
            mime_type: update.mime_type,
            available: update.available,
            color: content.color,
            image: content.image,
            image_handle: handle_for(item.image_handle, content.image, fresh.image_handle),
            image_preview_handle: handle_for(
                item.image_preview_handle,
                content.image,
                fresh.image_preview_handle,
            ),
            captured_at: update.captured_at,
            tooltip_popup_id: item.tooltip_popup_id,
            tooltip_autosize_id: item.tooltip_autosize_id,
            preview_popup_id: item.preview_popup_id,
            preview_autosize_id: item.preview_autosize_id,
        },
        None => ItemModel {
            text: content.text,
            mime_type: update.mime_type,
            available: update.available,
            color: content.color,
            image: content.image,
            image_handle: handle_for(None, content.image, fresh.image_handle),
            image_preview_handle: handle_for(None, content.image, fresh.image_preview_handle),
            captured_at: update.captured_at,
            tooltip_popup_id: fresh.tooltip_popup_id,
            tooltip_autosize_id: fresh.tooltip_autosize_id,
            preview_popup_id: fresh.preview_popup_id,
            preview_autosize_id: fresh.preview_autosize_id,
        },
    }
}

pub open spec fn truncated(history: Seq<ItemModel>, limit: int) -> Seq<ItemModel> {
    if history.len() > limit {
        history.take(limit)
    } else {
        history
    }
}

/// The history once an update was recorded.
pub open spec fn recorded(
    history: Seq<ItemModel>,
    update: UpdateModel,
    limit: int,
    fresh: FreshIds,
) -> Seq<ItemModel> {
    let i = index_of_update(history, update);
    if is_blank(update.content.text) {
        history
    } else if i < history.len() {
        truncated(
            seq![item_for(update, Some(history[i]), fresh)] + history.remove(i),
            limit,
        )
    } else {
        truncated(seq![item_for(update, None, fresh)] + history, limit)
    }
}

/// The history once an item was moved to the top.
pub open spec fn moved_to_top<T>(history: Seq<T>, index: int) -> Seq<T> {
    seq![history[index]] + history.remove(index)
}

pub open spec fn activated(item: ItemModel) -> ActivatedModel {
    ActivatedModel { text: item.text, color: item.color, image: item.image }
}

/// The request that puts an activated item on the clipboard.
pub open spec fn activation_request(item: ActivatedModel, generation: u64) -> RequestModel {
    match item.image {
        Some(image) => image_request(image, generation),
        None => text_request(item.text, item.color, generation),
    }
}

/// Whether no two items hold the same content.
pub open spec fn has_no_duplicates(history: Seq<ItemModel>) -> bool {
    forall|i: int, j: int|
        0 <= i < j < history.len() ==> !#[trigger] same_item(history[i], history[j])
}

/// Whether no item is blank.
pub open spec fn has_no_blanks(history: Seq<ItemModel>) -> bool {
    forall|i: int| 0 <= i < history.len() ==> !is_blank((#[trigger] history[i]).text)
}

// ---------------------------------------------------------------------------
// Recording
// ---------------------------------------------------------------------------

/// Whether two byte sequences are the same.
pub(crate) fn same_bytes(a: &Vec<u8>, b: &Vec<u8>) -> (r: bool)
    ensures
        r == (a@ == b@),
{
    if a.len() != b.len() {
        return false;
    }
    let mut i: usize = 0;
    while i < a.len()
        invariant
            i <= a.len(),
            a.len() == b.len(),
            forall|k: int| 0 <= k < i ==> #[trigger] a@[k] == b@[k],
        decreases a.len() - i,
    {
        if a[i] != b[i] {
            assert(a@[i as int] != b@[i as int]);
            return false;
        }
        i = i + 1;
    }
    assert(a@ =~= b@);
    true
}

fn holds(item: &HistoryItem, update: &ClipboardUpdate) -> (r: bool)
    ensures
        r == holds_update(item@, update@),
{
    match (&item.image, &update.image) {
        (Some(existing), Some(incoming)) => same_bytes(&existing.bytes, &incoming.bytes),
        (None, None) => same_text(item.text.as_str(), update.text.as_str()),
        _ => false,
    }
}

fn find_update(history: &Vec<HistoryItem>, update: &ClipboardUpdate) -> (r: usize)
    ensures
        r == index_of_update(items(history@), update@),
        r <= history.len(),
{
    let ghost all = items(history@);
    let mut i: usize = 0;
    assert(all.skip(0) =~= all);
    while i < history.len()
        invariant
            i <= history.len(),
            all == items(history@),
            index_of_update(all, update@) == i + index_of_update(all.skip(i as int), update@),
        decreases history.len() - i,
    {
        assert(all.skip(i as int)[0] == history@[i as int]@);
        assert(all.skip(i as int).drop_first() =~= all.skip(i + 1));
        if holds(&history[i], update) {
            return i;
        }
        i = i + 1;
    }
    assert(all.skip(i as int).len() == 0);
    i
}

/// Records an update at the top of the history. An item that held the same content
/// goes, its numbers stay. Blank updates are not recorded.
pub fn record_history(
    history: &mut Vec<HistoryItem>,
    update: ClipboardUpdate,
    limit: usize,
    fresh: FreshIds,
)
    ensures
        items(final(history)@) == recorded(items(old(history)@), update@, limit as int, fresh),
{
    if blank(update.text.as_str()) {
        return;
    }
    let ghost before = items(history@);
    let ghost model = update@;
    let index = find_update(history, &update);
    let ghost existing = if index < before.len() {
        Some(before[index as int])
    } else {
        None
    };
    let mut ids = fresh;
    let mut image_handle: Option<u64> = None;
    let mut image_preview_handle: Option<u64> = None;
    if index < history.len() {
        let item = history.remove(index);
        ids.tooltip_popup_id = item.tooltip_popup_id;
        ids.tooltip_autosize_id = item.tooltip_autosize_id;
        ids.preview_popup_id = item.preview_popup_id;
        ids.preview_autosize_id = item.preview_autosize_id;
        image_handle = item.image_handle;
        image_preview_handle = item.image_preview_handle;
        assert(items(history@) =~= before.remove(index as int));
    }
    let ghost rest = items(history@);
    if update.image.is_some() {
        if image_handle.is_none() {
            image_handle = Some(fresh.image_handle);
        }
        if image_preview_handle.is_none() {
            image_preview_handle = Some(fresh.image_preview_handle);
        }
    }
    let item = HistoryItem {
        text: update.text,
        mime_type: update.mime_type,
        available_mime_types: update.available_mime_types,
        color_rgba: update.color_rgba,
        image: update.image,
        image_handle,
        image_preview_handle,
        captured_at: update.captured_at,
        tooltip_popup_id: ids.tooltip_popup_id,
        tooltip_autosize_id: ids.tooltip_autosize_id,
        preview_popup_id: ids.preview_popup_id,
        preview_autosize_id: ids.preview_autosize_id,
    };
    assert(item@ == item_for(model, existing, fresh));
    history.insert(0, item);
    assert(items(history@) =~= seq![item_for(model, existing, fresh)] + rest);
    let ghost all = items(history@);
    history.truncate(limit);
    assert(items(history@) =~= truncated(all, limit as int));
}

// ---------------------------------------------------------------------------
// Activating
// ---------------------------------------------------------------------------

/// Makes an item the first and the selected one, and gives what is to go on the
/// clipboard. Nothing changes where there is no such item.
pub fn activate_history_item(
    history: &mut Vec<HistoryItem>,
    selected_item: &mut Option<usize>,
    index: usize,
) -> (r: Option<ActivatedClipboardItem>)
    ensures
        index >= old(history).len() ==> {
            &&& r is None
            &&& final(history)@ == old(history)@
            &&& *final(selected_item) == *old(selected_item)
        },
        index < old(history).len() ==> {
            &&& r matches Some(item) && item@ == activated(old(history)@[index as int]@)
            &&& final(history)@ == moved_to_top(old(history)@, index as int)
            &&& *final(selected_item) == Some(0usize)
        },
{
    if index >= history.len() {
        return None;
    }
    let ghost before = history@;
    let item = history.remove(index);
    let image = match &item.image {
        Some(image) => Some(image.share()),
        None => None,
    };
    let activated_item = ActivatedClipboardItem {
        text: item.text.clone(),
        color_rgba: item.color_rgba,
        image,
    };
    history.insert(0, item);
    assert(history@ =~= moved_to_top(before, index as int));
    *selected_item = Some(0);
    Some(activated_item)
}

/// Requests that the clipboard hold an activated item.
pub fn activate_clipboard_content(writes: &mut WriteCounter, item: ActivatedClipboardItem) -> (r:
    CopyRequest)
    ensures
        final(writes)@ == next_generation(old(writes)@),
        r@ == activation_request(item@, final(writes)@),
{
    match item.image {
        Some(image) => copy_image(writes, image),
        None => copy_text_with_color(writes, item.text, item.color_rgba),
    }
}

// ---------------------------------------------------------------------------
// Laws
// ---------------------------------------------------------------------------

proof fn lemma_index_of_update(history: Seq<ItemModel>, update: UpdateModel)
    ensures
        0 <= index_of_update(history, update) <= history.len(),
        index_of_update(history, update) < history.len() ==> holds_update(
            history[index_of_update(history, update)],
            update,
        ),
        forall|k: int|
            0 <= k < index_of_update(history, update) ==> !holds_update(
                #[trigger] history[k],
                update,
            ),
    decreases history.len(),
{
    if history.len() > 0 && !holds_update(history[0], update) {
        let rest = history.drop_first();
        lemma_index_of_update(rest, update);
        assert forall|k: int| 0 <= k < index_of_update(history, update) implies !holds_update(
            #[trigger] history[k],
            update,
        ) by {
            if k > 0 {
                assert(history[k] == rest[k - 1]);
            }
        }
    }
}

/// Recording keeps a history free of duplicates that is free of them, and likewise of
/// blank items, and it keeps the history within its limit.
pub proof fn recording_keeps_the_history_sound(
    history: Seq<ItemModel>,
    update: UpdateModel,
    limit: int,
    fresh: FreshIds,
)
    requires
        limit >= 0,
    ensures
        has_no_duplicates(history) ==> has_no_duplicates(recorded(history, update, limit, fresh)),
        has_no_blanks(history) ==> has_no_blanks(recorded(history, update, limit, fresh)),
        history.len() <= limit ==> recorded(history, update, limit, fresh).len() <= limit,
        !is_blank(update.content.text) ==> recorded(history, update, limit, fresh).len() <= limit,
        is_blank(update.content.text) ==> recorded(history, update, limit, fresh) == history,
{
    lemma_index_of_update(history, update);
    if has_no_duplicates(history) {
        lemma_recording_adds_no_duplicate(history, update, limit, fresh);
    }
    if has_no_blanks(history) && !is_blank(update.content.text) {
        let i = index_of_update(history, update);
        let out = recorded(history, update, limit, fresh);
        assert forall|a: int| 0 <= a < out.len() implies !is_blank((#[trigger] out[a]).text) by {
            if a > 0 {
                let n = if i < history.len() && a - 1 >= i {
                    a
                } else {
                    a - 1
                };
                assert(out[a] == history[n]);
            }
        }
    }
}

/// Recording an update a second time changes nothing.
pub proof fn recording_twice_is_recording_once(
    history: Seq<ItemModel>,
    update: UpdateModel,
    limit: int,
    fresh: FreshIds,
    other_fresh: FreshIds,
)
    requires
        limit >= 0,
    ensures
        recorded(recorded(history, update, limit, fresh), update, limit, other_fresh) == recorded(
            history,
            update,
            limit,
            fresh,
        ),
{
    let once = recorded(history, update, limit, fresh);
    let twice = recorded(once, update, limit, other_fresh);
    if !is_blank(update.content.text) {
        recording_keeps_the_history_sound(history, update, limit, fresh);
        if limit > 0 {
            recorded_update_is_first(history, update, limit, fresh);
            assert(index_of_update(once, update) == 0);
            assert(item_for(update, Some(once[0]), other_fresh) == once[0]);
            assert(seq![once[0]] + once.remove(0) =~= once);
        } else {
            assert(once =~= seq![]);
            assert(twice =~= seq![]);
        }
    }
}

proof fn lemma_recording_adds_no_duplicate(
    history: Seq<ItemModel>,
    update: UpdateModel,
    limit: int,
    fresh: FreshIds,
)
    requires
        limit >= 0,
        has_no_duplicates(history),
    ensures
        has_no_duplicates(recorded(history, update, limit, fresh)),
{
    let i = index_of_update(history, update);
    lemma_index_of_update(history, update);
    if !is_blank(update.content.text) {
        let existing = if i < history.len() {
            Some(history[i])
        } else {
            None
        };
        let rest = if i < history.len() {
            history.remove(i)
        } else {
            history
        };
        let top = item_for(update, existing, fresh);
        let all = seq![top] + rest;
        assert forall|k: int| 0 <= k < rest.len() implies !same_item(top, #[trigger] rest[k]) by {
            if i < history.len() {
                let n = if k < i {
                    k
                } else {
                    k + 1
                };
                assert(rest[k] == history[n]);
                if n < i {
                    assert(!same_item(history[n], history[i]));
                } else {
                    assert(!same_item(history[i], history[n]));
                }
            } else {
                assert(!holds_update(history[k], update));
            }
        }
        assert forall|a: int, b: int| 0 <= a < b < all.len() implies !#[trigger] same_item(
            all[a],
            all[b],
        ) by {
            assert(all[b] == rest[b - 1]);
            if a > 0 {
                assert(all[a] == rest[a - 1]);
                if i < history.len() {
                    let m = if a - 1 < i {
                        a - 1
                    } else {
                        a
                    };
                    let n = if b - 1 < i {
                        b - 1
                    } else {
                        b
                    };
                    assert(rest[a - 1] == history[m] && rest[b - 1] == history[n]);
                    assert(!same_item(history[m], history[n]));
                } else {
                    assert(!same_item(history[a - 1], history[b - 1]));
                }
            }
        }
        let out = recorded(history, update, limit, fresh);
        assert(out == truncated(all, limit));
        assert forall|a: int, b: int| 0 <= a < b < out.len() implies !#[trigger] same_item(
            out[a],
            out[b],
        ) by {
            assert(!same_item(all[a], all[b]));
        }
    }
}

/// A recorded update is the first item, and the other items stay in their order, up
/// to the limit.
pub proof fn recorded_update_is_first(
    history: Seq<ItemModel>,
    update: UpdateModel,
    limit: int,
    fresh: FreshIds,
)
    requires
        limit > 0,
        !is_blank(update.content.text),
    ensures
        ({
            let i = index_of_update(history, update);
            let rest = if i < history.len() {
                history.remove(i)
            } else {
                history
            };
            let out = recorded(history, update, limit, fresh);
            &&& out.len() > 0
            &&& holds_update(out[0], update)
            &&& out.drop_first() == truncated(rest, limit - 1)
        }),
{
    lemma_index_of_update(history, update);
    let i = index_of_update(history, update);
    let rest = if i < history.len() {
        history.remove(i)
    } else {
        history
    };
    let out = recorded(history, update, limit, fresh);
    assert(out.drop_first() =~= truncated(rest, limit - 1));
}

/// What recording an update leaves of a history in which the item at `index` is the first
/// with the same text, character for character, or with the same image data, byte for
/// byte; or in which no item is like that, where `index` is the length. The update comes
/// first, with all that it holds, and every other item follows in its old order, up to the
/// limit.
pub proof fn recording_replaces_only_equal_content(
    history: Seq<ItemModel>,
    update: UpdateModel,
    index: int,
    limit: int,
    fresh: FreshIds,
)
    requires
        0 <= index <= history.len(),
        limit > 0,
        !is_blank(update.content.text),
        forall|k: int|
            0 <= k < index ==> match ((#[trigger] history[k]).image, update.content.image) {
                (Some(old), Some(new)) => old.bytes != new.bytes,
                (None, None) => history[k].text != update.content.text,
                _ => true,
            },
        index < history.len() ==> match (history[index].image, update.content.image) {
            (Some(old), Some(new)) => old.bytes == new.bytes,
            (None, None) => history[index].text == update.content.text,
            _ => false,
        },
    ensures
        ({
            let out = recorded(history, update, limit, fresh);
            let count = if index < history.len() {
                history.len()
            } else {
                history.len() + 1
            };
            &&& out.len() == if count < limit {
                count as int
            } else {
                limit
            }
            &&& out[0].text == update.content.text
            &&& out[0].mime_type == update.mime_type
            &&& out[0].available == update.available
            &&& out[0].color == update.content.color
            &&& out[0].image == update.content.image
            &&& out[0].captured_at == update.captured_at
            &&& out[0].image is Some ==> out[0].image_handle is Some
                && out[0].image_preview_handle is Some
            &&& forall|k: int| 0 < k < out.len() && k <= index ==> out[k] == history[k - 1]
            &&& forall|k: int| 0 < k < out.len() && k > index ==> out[k] == history[k]
        }),
{
    let i = index_of_update(history, update);
    lemma_index_of_update(history, update);
    if i < index {
        assert(holds_update(history[i], update));
    }
    if index < i {
        assert(!holds_update(history[index], update));
    }
}

/// A text item whose text differs from that of a recorded text update is still there, as
/// long as the limit leaves room for it.
pub proof fn differing_texts_are_kept(
    history: Seq<ItemModel>,
    update: UpdateModel,
    i: int,
    limit: int,
    fresh: FreshIds,
)
    requires
        0 <= i < history.len(),
        i + 1 < limit,
        history[i].image is None,
        update.content.image is None,
        history[i].text != update.content.text,
    ensures
        exists|k: int|
            0 <= k < recorded(history, update, limit, fresh).len() && #[trigger] recorded(
                history,
                update,
                limit,
                fresh,
            )[k] == history[i],
{
    let out = recorded(history, update, limit, fresh);
    lemma_index_of_update(history, update);
    let n = index_of_update(history, update);
    if is_blank(update.content.text) {
        assert(out[i] == history[i]);
    } else if i < n {
        assert(out[i + 1] == history[i]);
    } else {
        assert(n != i);
        assert(out[i] == history[i]);
    }
}

/// The numbers of the windows and widgets of an item.
pub open spec fn numbers_of(item: ItemModel) -> Seq<u64> {
    seq![
        item.tooltip_popup_id,
        item.tooltip_autosize_id,
        item.preview_popup_id,
        item.preview_autosize_id,
    ]
}

pub open spec fn fresh_numbers(fresh: FreshIds) -> Seq<u64> {
    seq![
        fresh.tooltip_popup_id,
        fresh.tooltip_autosize_id,
        fresh.preview_popup_id,
        fresh.preview_autosize_id,
    ]
}

/// Whether no number stands in both.
pub open spec fn are_apart(numbers: Seq<u64>, others: Seq<u64>) -> bool {
    forall|a: int, b: int|
        0 <= a < numbers.len() && 0 <= b < others.len() ==> #[trigger] numbers[a]
            != #[trigger] others[b]
}

/// Whether no two items share a number.
pub open spec fn has_own_numbers(history: Seq<ItemModel>) -> bool {
    forall|i: int, j: int|
        0 <= i < history.len() && 0 <= j < history.len() && i != j ==> #[trigger] are_apart(
            numbers_of(history[i]),
            numbers_of(history[j]),
        )
}

/// A refreshed item keeps its numbers, and no two items come to share one, as long as
/// new numbers are not in use yet.
pub proof fn items_keep_their_own_numbers(
    history: Seq<ItemModel>,
    update: UpdateModel,
    limit: int,
    fresh: FreshIds,
)
    requires
        limit >= 0,
        has_own_numbers(history),
        forall|i: int|
            0 <= i < history.len() ==> #[trigger] are_apart(
                numbers_of(history[i]),
                fresh_numbers(fresh),
            ),
    ensures
        has_own_numbers(recorded(history, update, limit, fresh)),
        limit > 0 && !is_blank(update.content.text) && index_of_update(history, update)
            < history.len() ==> numbers_of(recorded(history, update, limit, fresh)[0])
            == numbers_of(history[index_of_update(history, update)]),
{
    let i = index_of_update(history, update);
    lemma_index_of_update(history, update);
    if !is_blank(update.content.text) {
        let existing = if i < history.len() {
            Some(history[i])
        } else {
            None
        };
        let rest = if i < history.len() {
            history.remove(i)
        } else {
            history
        };
        let top = item_for(update, existing, fresh);
        let all = seq![top] + rest;
        let out = recorded(history, update, limit, fresh);
        assert(out == truncated(all, limit));
        assert(numbers_of(top) =~= match existing {
            Some(item) => numbers_of(item),
            None => fresh_numbers(fresh),
        });
        assert forall|a: int, b: int|
            0 <= a < out.len() && 0 <= b < out.len() && a != b implies #[trigger] are_apart(
            numbers_of(out[a]),
            numbers_of(out[b]),
        ) by {
            // The item of the old history whose numbers stand at `k` now, if there is one.
            let origin = |k: int|
                if k == 0 {
                    i
                } else if i < history.len() && k - 1 >= i {
                    k
                } else {
                    k - 1
                };
            assert(out[a] == all[a] && out[b] == all[b]);
            if a > 0 {
                assert(all[a] == history[origin(a)]);
            }
            if b > 0 {
                assert(all[b] == history[origin(b)]);
            }
            if i < history.len() || (a > 0 && b > 0) {
                assert(are_apart(
                    numbers_of(history[origin(a)]),
                    numbers_of(history[origin(b)]),
                ));
            } else if a > 0 {
                assert(are_apart(numbers_of(history[origin(a)]), fresh_numbers(fresh)));
            } else {
                assert(are_apart(numbers_of(history[origin(b)]), fresh_numbers(fresh)));
            }
        }
    }
}

/// Activating an item loses nothing and keeps the order of the others.
pub proof fn activation_keeps_all_items(history: Seq<ItemModel>, index: int)
    requires
        0 <= index < history.len(),
    ensures
        moved_to_top(history, index).len() == history.len(),
        moved_to_top(history, index)[0] == history[index],
        moved_to_top(history, index).drop_first() == history.remove(index),
        moved_to_top(history, index).to_multiset() == history.to_multiset(),
{
    broadcast use vstd::seq_lib::group_to_multiset_ensures;

    let rest = history.remove(index);
    let moved = moved_to_top(history, index);
    assert(moved.drop_first() =~= rest);
    assert(moved =~= rest.insert(0, history[index]));
}

/// What recording does with the content of the first item.
pub(crate) proof fn lemma_recorded_again(
    history: Seq<ItemModel>,
    index: int,
    update: UpdateModel,
    limit: int,
    fresh: FreshIds,
)
    requires
        0 <= index < history.len(),
        holds_update(history[index], update),
        !is_blank(update.content.text),
    ensures
        recorded(moved_to_top(history, index), update, limit, fresh) == truncated(
            seq![item_for(update, Some(history[index]), fresh)] + history.remove(index),
            limit,
        ),
{
    let moved = moved_to_top(history, index);
    assert(moved[0] == history[index]);
    assert(index_of_update(moved, update) == 0);
    assert(moved.remove(0) =~= history.remove(index));
}

/// What the clipboard holds once an item was activated.
pub open spec fn captured_again(
    item: ItemModel,
    generation: u64,
    order: ByteOrder,
    drawing: Option<SvgDrawing>,
    metadata: Seq<Option<FileMetadata>>,
    captured_at: Timestamp,
) -> Option<UpdateModel> {
    let request = activation_request(activated(item), generation);
    let types = offered_types(request);
    match preferred(types) {
        Some(mime) => captured_update(
            content_of(order, mime, served(state_of(request), mime), drawing, metadata),
            mime,
            types,
            captured_at,
        ),
        None => None,
    }
}

/// What an activated item puts on the clipboard is that item: its text, character for
/// character, with its color, or the data of its image, byte for byte.
pub proof fn activated_items_are_served(item: ItemModel, generation: u64, mime: Seq<char>)
    requires
        item.color matches Some(rgba) ==> rgba.len() == 4,
    ensures
        ({
            let data = served(state_of(activation_request(activated(item), generation)), mime);
            &&& item.image is None && mime != "application/x-color"@ ==> data == encode_utf8(
                item.text,
            )
            &&& item.image is None && mime == "application/x-color"@ ==> match item.color {
                Some(rgba) => data.len() == 8 && forall|i: int|
                    0 <= i < 8 ==> #[trigger] data[i] == rgba[i / 2],
                None => data.len() == 0,
            }
            &&& item.image matches Some(image) ==> mime == image.mime_type && mime
                != "application/x-color"@ ==> data == image.bytes
        }),
{
    text_is_served_as_it_is(item.text, item.color, generation, mime);
    if let Some(image) = item.image {
        images_are_served_as_their_data(image, generation, mime);
    }
}

/// An item that is recorded again keeps the handles of its pictures, and gets new ones only
/// if it had none and there is an image; a new item has handles exactly if there is an
/// image. Text that is all whitespace is not recorded.
pub proof fn pictures_keep_their_handles(
    history: Seq<ItemModel>,
    update: UpdateModel,
    limit: int,
    fresh: FreshIds,
)
    requires
        limit > 0,
    ensures
        (forall|i: int|
            0 <= i < update.content.text.len() ==> is_white_space(
                #[trigger] update.content.text[i],
            )) ==> recorded(history, update, limit, fresh) == history,
        !is_blank(update.content.text) ==> {
            let out = recorded(history, update, limit, fresh)[0];
            let i = index_of_update(history, update);
            let pictured = update.content.image is Some;
            &&& i < history.len() && history[i].image_handle is Some ==> out.image_handle
                == history[i].image_handle
            &&& i < history.len() && history[i].image_preview_handle is Some
                ==> out.image_preview_handle == history[i].image_preview_handle
            &&& i >= history.len() || history[i].image_handle is None ==> out.image_handle == if
                pictured {
                Some(fresh.image_handle)
            } else {
                None
            }
            &&& i >= history.len() || history[i].image_preview_handle is None
                ==> out.image_preview_handle == if pictured {
                Some(fresh.image_preview_handle)
            } else {
                None
            }
        },
{
}

} // verus!
