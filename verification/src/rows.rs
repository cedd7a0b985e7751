//! How the history is shown: rows, previews and tooltips.

use vstd::prelude::*;
use vstd::string::*;
use vstd::arithmetic::power2::{lemma2_to64, lemma_pow2_strictly_increases, pow2};
use vstd::utf8::encode_utf8;
use crate::color::{color_text, format_color};
use crate::decimal::{
    all_digits, decimal_reads_back, is_digit, lemma_decimal_length, numeral_value, pow10,
};
use crate::history::{items, HistoryItem, ItemModel};
use crate::picture::{image_label, label_of_image};
use crate::single::{
    integer_ratio, lemma_nearest_zero, lemma_ratio_of_equals, nearest_single, ratio_bits,
    units_of_bits,
};
use crate::size::byte_size;
use crate::text::{
    chars_of, decimal, is_white_space, join, joined, lemma_decimal, lemma_trimmed_end, lines,
    lines_are_counted_by_their_ends, lines_of, push_decimal, string_of, trimmed_end, white_space,
};
use crate::update::Timestamp;
use crate::window::WindowMessage;

verus! {

broadcast use vstd::string::group_string_axioms;

/// The most characters of an item that its row shows.
pub const HISTORY_PREVIEW_CHARS: usize = 100;

// ---------------------------------------------------------------------------
// Previews
// ---------------------------------------------------------------------------

/// A text with every run of whitespace replaced by one space; by none at the start,
/// if `after_space` says that a space comes before it.
pub open spec fn collapsed(text: Seq<char>, after_space: bool) -> Seq<char>
    decreases text.len(),
{
    if text.len() == 0 {
        seq![]
    } else if is_white_space(text[0]) {
        if after_space {
            collapsed(text.drop_first(), true)
        } else {
            seq![' '] + collapsed(text.drop_first(), true)
        }
    } else {
        seq![text[0]] + collapsed(text.drop_first(), false)
    }
}

/// One line that shows the start of a text.
pub open spec fn preview_of(text: Seq<char>) -> Seq<char> {
    let line = collapsed(text, true);
    if line.len() > HISTORY_PREVIEW_CHARS {
        trimmed_end(line.take(HISTORY_PREVIEW_CHARS as int)).push('…')
    } else {
        trimmed_end(line)
    }
}

fn trim_chars(chars: &Vec<char>) -> (r: usize)
    ensures
        r <= chars.len(),
        chars@.take(r as int) == trimmed_end(chars@),
{
    let mut end = chars.len();
    assert(chars@.take(end as int) =~= chars@);
    while end > 0 && white_space(chars[end - 1])
        invariant
            end <= chars.len(),
            trimmed_end(chars@.take(end as int)) == trimmed_end(chars@),
        decreases end,
    {
        assert(chars@.take(end as int).drop_last() =~= chars@.take(end - 1));
        end = end - 1;
    }
    end
}

/// Produces a compact, single-line preview of a text.
pub fn history_preview(value: &str) -> (r: String)
    ensures
        r@ == preview_of(value@),
{
    let chars = chars_of(value);
    let ghost line = collapsed(value@, true);
    let mut preview: Vec<char> = Vec::new();
    let mut previous_was_space = true;
    let mut truncated = false;
    let mut i: usize = 0;
    assert(chars@.skip(0) =~= chars@);
    assert(preview@ + line =~= line);
    while i < chars.len() && !truncated
        invariant
            i <= chars.len(),
            chars@ == value@,
            line == collapsed(value@, true),
            preview.len() <= HISTORY_PREVIEW_CHARS,
            preview@ + collapsed(chars@.skip(i as int), previous_was_space) == line,
            truncated ==> preview.len() == HISTORY_PREVIEW_CHARS && line.len()
                > HISTORY_PREVIEW_CHARS,
        decreases
            chars.len() - i,
            if truncated {
                0int
            } else {
                1int
            },
    {
        let ghost rest = collapsed(chars@.skip(i as int), previous_was_space);
        assert(chars@.skip(i as int)[0] == chars@[i as int]);
        assert(chars@.skip(i as int).drop_first() =~= chars@.skip(i + 1));
        let space = white_space(chars[i]);
        if space && previous_was_space {
            i = i + 1;
        } else if preview.len() == HISTORY_PREVIEW_CHARS {
            truncated = true;
        } else {
            let character = if space {
                ' '
            } else {
                chars[i]
            };
            let ghost before = preview@;
            preview.push(character);
            previous_was_space = space;
            i = i + 1;
            assert(preview@ + collapsed(chars@.skip(i as int), previous_was_space) =~= before
                + rest);
        }
    }
    let end = trim_chars(&preview);
    let mut out = string_of(&preview, 0, end);
    assert(preview@.subrange(0, end as int) =~= preview@.take(end as int));
    if truncated {
        assert(line.take(HISTORY_PREVIEW_CHARS as int) =~= preview@);
        out.push('…');
    } else {
        assert(collapsed(chars@.skip(i as int), previous_was_space) =~= seq![]);
        assert(preview@ =~= line);
    }
    out
}

// ---------------------------------------------------------------------------
// Times
// ---------------------------------------------------------------------------

/// A point in time in the time zone of the user: years since 1900, months since
/// January.
#[derive(Clone, Copy, Debug, PartialEq, Eq, Structural)]
pub struct LocalTime {
    pub years_since_1900: i32,
    pub months_since_january: i32,
    pub day: i32,
    pub hour: i32,
    pub minute: i32,
    pub second: i32,
}

/// Whether the year and the month can be counted from one.
pub open spec fn is_countable(local: Option<LocalTime>) -> bool {
    local matches Some(time) ==> time.years_since_1900 <= i32::MAX - 1900
        && time.months_since_january < i32::MAX
}

/// Nanoseconds since the start of 1970.
pub open spec fn instant(time: Timestamp) -> int {
    time.seconds * 1_000_000_000 + time.nanoseconds
}

pub open spec fn zeros(count: int) -> Seq<char> {
    Seq::new(
        if count > 0 {
            count as nat
        } else {
            0
        },
        |i: int| '0',
    )
}

/// A number with zeros in front of its digits, up to the given width.
pub open spec fn padded(n: int, width: int) -> Seq<char> {
    if n < 0 {
        seq!['-'] + zeros(width - 1 - decimal((-n) as nat).len()) + decimal((-n) as nat)
    } else {
        zeros(width - decimal(n as nat).len()) + decimal(n as nat)
    }
}

/// The date and the time of day at which something was captured. Nothing is known
/// before 1970, or without the local time.
pub open spec fn timestamp_text(time: Timestamp, local: Option<LocalTime>) -> Seq<char> {
    match local {
        Some(t) => if instant(time) < 0 {
            "unknown"@
        } else {
            padded(t.years_since_1900 + 1900, 4) + "-"@ + padded(t.months_since_january + 1, 2)
                + "-"@ + padded(t.day as int, 2) + " "@ + padded(t.hour as int, 2) + ":"@ + padded(
                t.minute as int,
                2,
            ) + ":"@ + padded(t.second as int, 2)
        },
        None => "unknown"@,
    }
}

/// When something was captured: for an hour as time that has passed since.
pub open spec fn capture_time_text(
    captured_at: Timestamp,
    seconds: int,
    local: Option<LocalTime>,
) -> Seq<char> {
    if seconds < 60 {
        decimal(seconds as nat) + "s ago"@
    } else if seconds < 3600 {
        decimal((seconds / 60) as nat) + "m ago"@
    } else {
        timestamp_text(captured_at, local)
    }
}

pub open spec fn captured_text(
    captured_at: Timestamp,
    now: Timestamp,
    local: Option<LocalTime>,
) -> Seq<char> {
    let elapsed = instant(now) - instant(captured_at);
    if elapsed < 0 {
        timestamp_text(captured_at, local)
    } else {
        capture_time_text(captured_at, elapsed / 1_000_000_000, local)
    }
}

fn push_zeros(out: &mut String, count: usize)
    ensures
        final(out)@ == old(out)@ + zeros(count as int),
{
    let ghost before = out@;
    let mut i: usize = 0;
    assert(before + zeros(0) =~= before);
    while i < count
        invariant
            i <= count,
            out@ == before + zeros(i as int),
        decreases count - i,
    {
        out.push('0');
        i = i + 1;
        assert(out@ =~= before + zeros(i as int));
    }
}

fn push_padded(out: &mut String, n: i32, width: usize)
    requires
        width <= 4,
    ensures
        final(out)@ == old(out)@ + padded(n as int, width as int),
{
    let ghost before = out@;
    let mut room = width;
    let magnitude: u64 = if n < 0 {
        out.push('-');
        if room > 0 {
            room = room - 1;
        }
        (0 - n as i64) as u64
    } else {
        n as u64
    };
    let mut digits = String::new();
    push_decimal(&mut digits, magnitude);
    let count = digits.as_str().unicode_len();
    proof {
        lemma_decimal(magnitude as nat);
        assert(digits@ =~= decimal(magnitude as nat));
    }
    if count < room {
        push_zeros(out, room - count);
    }
    out.append(digits.as_str());
    assert(out@ =~= before + padded(n as int, width as int));
}

/// The date and the time of day at which something was captured.
pub fn format_local_timestamp(time: Timestamp, local: Option<LocalTime>) -> (r: String)
    requires
        is_countable(local),
    ensures
        r@ == timestamp_text(time, local),
{
    let unknown = time.seconds as i128 * 1_000_000_000 + (time.nanoseconds as i128) < 0;
    match local {
        Some(t) => {
            if unknown {
                return "unknown".to_owned();
            }
            let mut out = String::new();
            push_padded(&mut out, t.years_since_1900 + 1900, 4);
            out.append("-");
            push_padded(&mut out, t.months_since_january + 1, 2);
            out.append("-");
            push_padded(&mut out, t.day, 2);
            out.append(" ");
            push_padded(&mut out, t.hour, 2);
            out.append(":");
            push_padded(&mut out, t.minute, 2);
            out.append(":");
            push_padded(&mut out, t.second, 2);
            assert(out@ =~= timestamp_text(time, local));
            out
        },
        None => "unknown".to_owned(),
    }
}

/// When something was captured, `seconds` ago.
pub fn format_capture_time(captured_at: Timestamp, seconds: u64, local: Option<LocalTime>) -> (r:
    String)
    requires
        is_countable(local),
    ensures
        r@ == capture_time_text(captured_at, seconds as int, local),
{
    if seconds >= 3600 {
        return format_local_timestamp(captured_at, local);
    }
    let mut out = String::new();
    if seconds < 60 {
        push_decimal(&mut out, seconds);
        out.append("s ago");
    } else {
        push_decimal(&mut out, seconds / 60);
        out.append("m ago");
    }
    assert(out@ =~= capture_time_text(captured_at, seconds as int, local));
    out
}

fn format_captured(captured_at: Timestamp, now: Timestamp, local: Option<LocalTime>) -> (r: String)
    requires
        is_countable(local),
    ensures
        r@ == captured_text(captured_at, now, local),
{
    let elapsed: i128 = (now.seconds as i128 - captured_at.seconds as i128) * 1_000_000_000 + (
    now.nanoseconds as i128 - captured_at.nanoseconds as i128);
    assert(elapsed == instant(now) - instant(captured_at));
    if elapsed < 0 {
        return format_local_timestamp(captured_at, local);
    }
    let seconds: u64 = if elapsed < 3_600_000_000_000 {
        (elapsed / 1_000_000_000) as u64
    } else {
        3600
    };
    format_capture_time(captured_at, seconds, local)
}

// ---------------------------------------------------------------------------
// Tooltips
// ---------------------------------------------------------------------------

/// What is shown when the pointer rests: a text, or an image by its number.
#[derive(Clone, Debug)]
pub struct HistoryTooltip {
    pub text: String,
    pub image: Option<u64>,
}

/// The model of a `HistoryTooltip`.
pub ghost struct TooltipModel {
    pub text: Seq<char>,
    pub image: Option<u64>,
}

impl View for HistoryTooltip {
    type V = TooltipModel;

    open spec fn view(&self) -> TooltipModel {
        TooltipModel { text: self.text@, image: self.image }
    }
}

/// The number of lines of a text. An empty text has one.
pub open spec fn line_count(text: Seq<char>) -> nat {
    if lines_of(text).len() == 0 {
        1
    } else {
        lines_of(text).len()
    }
}

/// What is known of an item: its size, its media types, when it was captured and its
/// color.
pub open spec fn tooltip_text(item: ItemModel, now: Timestamp, local: Option<LocalTime>) -> Seq<
    char,
> {
    let size = match item.image {
        Some(image) => label_of_image(image),
        None => decimal(item.text.len()) + " characters · "@ + decimal(
            encode_utf8(item.text).len(),
        ) + " UTF-8 bytes · "@ + decimal(line_count(item.text)) + " lines"@,
    };
    let color = match (item.image, item.color) {
        (None, Some(rgba)) => "\nColor: "@ + color_text(rgba),
        _ => seq![],
    };
    size + "\nMIME: "@ + item.mime_type + "\nAvailable types: "@ + joined(item.available, ", "@)
        + "\nCaptured: "@ + captured_text(item.captured_at, now, local) + color
}

/// Milliseconds for which the pointer rests before a tooltip is shown.
pub open spec fn delay_of(tooltip: TooltipModel) -> u64 {
    if tooltip.image is Some {
        1200
    } else {
        350
    }
}

/// The tooltip of an item.
pub fn history_tooltip(item: &HistoryItem, now: Timestamp, local: Option<LocalTime>) -> (r:
    HistoryTooltip)
    requires
        is_countable(local),
    ensures
        r@ == (TooltipModel { text: tooltip_text(item@, now, local), image: None }),
{
    let mut out = String::new();
    match &item.image {
        Some(image) => {
            let label = image_label(image);
            out.append(label.as_str());
        },
        None => {
            let text = item.text.as_str();
            push_decimal(&mut out, text.unicode_len() as u64);
            out.append(" characters · ");
            push_decimal(&mut out, text.as_bytes().len() as u64);
            out.append(" UTF-8 bytes · ");
            let count = lines(text).len();
            push_decimal(
                &mut out,
                if count == 0 {
                    1
                } else {
                    count as u64
                },
            );
            out.append(" lines");
        },
    }
    out.append("\nMIME: ");
    out.append(item.mime_type.as_str());
    out.append("\nAvailable types: ");
    let offered = join(&item.available_mime_types, ", ");
    out.append(offered.as_str());
    out.append("\nCaptured: ");
    let captured = format_captured(item.captured_at, now, local);
    out.append(captured.as_str());
    if item.image.is_none() {
        if let Some(rgba) = item.color_rgba {
            out.append("\nColor: ");
            let color = format_color(rgba);
            out.append(color.as_str());
        }
    }
    assert(out@ =~= tooltip_text(item@, now, local));
    HistoryTooltip { text: out, image: None }
}

impl HistoryTooltip {
    /// Milliseconds for which the pointer rests before the tooltip is shown.
    pub fn delay(&self) -> (r: u64)
        ensures
            r == delay_of(self@),
    {
        if self.image.is_some() {
            1200
        } else {
            350
        }
    }
}

// ---------------------------------------------------------------------------
// Rows
// ---------------------------------------------------------------------------

/// What stands in front of the text of a row.
#[derive(Clone, Debug)]
pub enum RowIcon {
    Blank,
    /// A thumbnail, with the tooltip that shows the image.
    Thumbnail { handle: u64, tooltip: Option<HistoryTooltip> },
    Swatch([u8; 4]),
}

/// A row of the history, with the messages that it emits: when it is pressed, and when
/// its delete button is.
#[derive(Clone, Debug)]
pub struct HistoryRow {
    pub marker: &'static str,
    pub icon: RowIcon,
    pub preview: String,
    pub tooltip: HistoryTooltip,
    pub activate: WindowMessage,
    pub delete: WindowMessage,
}

/// What the window shows of the history: a notice while there is nothing in it, else a
/// row for each item.
#[derive(Clone, Debug)]
pub enum HistoryList {
    Empty(&'static str),
    Rows(Vec<HistoryRow>),
}

pub open spec fn marker_of(selected: bool) -> Seq<char> {
    if selected {
        "›"@
    } else {
        " "@
    }
}

/// Whether `icon` is what stands in front of the text of an item: its thumbnail, or
/// else its color.
pub open spec fn is_icon_of(icon: RowIcon, item: ItemModel) -> bool {
    match (item.image_handle, item.color) {
        (Some(known), _) => icon matches RowIcon::Thumbnail { handle, tooltip } && handle == known
            && (match tooltip {
            Some(t) => t@.text.len() == 0 && t@.image is Some && t@.image
                == item.image_preview_handle,
            None => item.image_preview_handle is None,
        }),
        (None, Some(rgba)) => icon matches RowIcon::Swatch(color) && color@ == rgba,
        (None, None) => icon is Blank,
    }
}

/// Whether `row` shows the item at an index.
pub open spec fn shows_item(
    row: HistoryRow,
    index: usize,
    item: ItemModel,
    selected: bool,
    now: Timestamp,
    local: Option<LocalTime>,
) -> bool {
    &&& row.marker@ == marker_of(selected)
    &&& is_icon_of(row.icon, item)
    &&& row.preview@ == preview_of(item.text)
    &&& row.tooltip@ == (TooltipModel { text: tooltip_text(item, now, local), image: None })
    &&& row.activate == WindowMessage::ActivateItem(index)
    &&& row.delete == WindowMessage::DeleteItem(index)
}

pub open spec fn local_at(locals: Seq<Option<LocalTime>>, i: int) -> Option<LocalTime> {
    if i < locals.len() {
        locals[i]
    } else {
        None
    }
}

/// The icon of an item.
pub fn row_icon(item: &HistoryItem) -> (r: RowIcon)
    ensures
        is_icon_of(r, item@),
{
    match item.image_handle {
        Some(handle) => {
            let tooltip = match item.image_preview_handle {
                Some(preview) => Some(
                    HistoryTooltip { text: String::new(), image: Some(preview) },
                ),
                None => None,
            };
            RowIcon::Thumbnail { handle, tooltip }
        },
        None => match item.color_rgba {
            Some(rgba) => RowIcon::Swatch(rgba),
            None => RowIcon::Blank,
        },
    }
}

/// The row of the item at an index.
pub fn history_row(
    index: usize,
    item: &HistoryItem,
    selected: bool,
    now: Timestamp,
    local: Option<LocalTime>,
) -> (r: HistoryRow)
    requires
        is_countable(local),
    ensures
        shows_item(r, index, item@, selected, now, local),
{
    HistoryRow {
        marker: if selected {
            "›"
        } else {
            " "
        },
        icon: row_icon(item),
        preview: history_preview(item.text.as_str()),
        tooltip: history_tooltip(item, now, local),
        activate: WindowMessage::ActivateItem(index),
        delete: WindowMessage::DeleteItem(index),
    }
}

/// What the window shows of the history. `locals` are the local times at which the items
/// were captured, in order, as far as they are known.
pub fn history_list(
    history: &Vec<HistoryItem>,
    selected_item: Option<usize>,
    now: Timestamp,
    locals: &Vec<Option<LocalTime>>,
) -> (r: HistoryList)
    requires
        forall|i: int| 0 <= i < locals.len() ==> is_countable(#[trigger] locals[i]),
    ensures
        match r {
            HistoryList::Empty(notice) => history.len() == 0 && notice@ == "No text copied yet."@,
            HistoryList::Rows(rows) => {
                &&& history.len() > 0
                &&& rows.len() == history.len()
                &&& forall|i: int|
                    0 <= i < rows.len() ==> shows_item(
                        #[trigger] rows[i],
                        i as usize,
                        history[i]@,
                        selected_item == Some(i as usize),
                        now,
                        local_at(locals@, i),
                    )
            },
        },
{
    if history.len() == 0 {
        return HistoryList::Empty("No text copied yet.");
    }
    let mut rows: Vec<HistoryRow> = Vec::new();
    let mut i: usize = 0;
    while i < history.len()
        invariant
            i <= history.len(),
            rows.len() == i,
            forall|k: int| 0 <= k < locals.len() ==> is_countable(#[trigger] locals[k]),
            forall|k: int|
                0 <= k < i ==> shows_item(
                    #[trigger] rows[k],
                    k as usize,
                    history[k]@,
                    selected_item == Some(k as usize),
                    now,
                    local_at(locals@, k),
                ),
        decreases history.len() - i,
    {
        let local = if i < locals.len() {
            locals[i]
        } else {
            None
        };
        let selected = match selected_item {
            Some(index) => index == i,
            None => false,
        };
        rows.push(history_row(i, &history[i], selected, now, local));
        i = i + 1;
    }
    HistoryList::Rows(rows)
}

/// How far the list is scrolled to show the item at `position` of `last`, as the bits of
/// a single-precision number from zero, for the first, to one, for the last.
pub fn scroll_offset(position: usize, last: usize) -> (r: u32)
    requires
        last > 0,
    ensures
        r < 0x7f80_0000,
        units_of_bits(r) == integer_ratio(position as nat, last as nat),
{
    ratio_bits(position as u64, last as u64)
}

/// How full the history is.
pub open spec fn status_text(count: nat, limit: nat) -> Seq<char> {
    decimal(count) + "/"@ + decimal(limit) + " items"@
}

/// How full the history is.
pub fn history_status(history: &Vec<HistoryItem>, max_history_items: usize) -> (r: String)
    ensures
        r@ == status_text(history@.len(), max_history_items as nat),
{
    let mut out = String::new();
    push_decimal(&mut out, history.len() as u64);
    out.append("/");
    push_decimal(&mut out, max_history_items as u64);
    out.append(" items");
    assert(out@ =~= status_text(history@.len(), max_history_items as nat));
    out
}

// ---------------------------------------------------------------------------
// Laws
// ---------------------------------------------------------------------------

/// The list is scrolled to its start for the first item, and to its end for the last.
pub proof fn scrolling_reaches_both_ends(last: nat)
    requires
        last > 0,
    ensures
        integer_ratio(0, last) == 0,
        integer_ratio(last, last) == pow2(149),
{
    lemma2_to64();
    lemma_pow2_strictly_increases(1, 150);
    assert(0 * pow2(150) <= 1 && last * pow2(150) > 1) by (nonlinear_arith)
        requires
            last > 0,
            pow2(150) > 1,
    ;
    lemma_nearest_zero(0, 1);
    lemma_nearest_zero(last, 1);
    let end = nearest_single(last, 1);
    assert(0 * pow2(150) <= end) by (nonlinear_arith);
    lemma_nearest_zero(0, end);
    lemma_ratio_of_equals(end);
}

/// Whether every whitespace of a line is a single space between other characters.
pub open spec fn is_evenly_spaced(line: Seq<char>) -> bool {
    &&& forall|k: int|
        0 <= k < line.len() && is_white_space(#[trigger] line[k]) ==> {
            &&& line[k] == ' '
            &&& 0 < k < line.len() - 1
            &&& !is_white_space(line[k + 1])
        }
}

proof fn lemma_collapsed(text: Seq<char>, after_space: bool)
    ensures
        forall|k: int|
            0 <= k < collapsed(text, after_space).len() && is_white_space(
                #[trigger] collapsed(text, after_space)[k],
            ) ==> {
                let line = collapsed(text, after_space);
                &&& line[k] == ' '
                &&& after_space ==> k > 0
                &&& k < line.len() - 1 ==> !is_white_space(line[k + 1])
            },
    decreases text.len(),
{
    if text.len() > 0 {
        let rest = text.drop_first();
        let line = collapsed(text, after_space);
        let space = is_white_space(text[0]);
        lemma_collapsed(rest, space);
        let tail = collapsed(rest, space);
        if !(space && after_space) {
            assert forall|k: int| 0 <= k < line.len() && is_white_space(#[trigger] line[k]) implies {
                &&& line[k] == ' '
                &&& after_space ==> k > 0
                &&& k < line.len() - 1 ==> !is_white_space(line[k + 1])
            } by {
                if k > 0 {
                    assert(line[k] == tail[k - 1]);
                    if k < line.len() - 1 {
                        assert(line[k + 1] == tail[k]);
                    }
                } else if tail.len() > 0 {
                    assert(line[1] == tail[0]);
                }
            }
        }
    }
}

/// A preview is one short line: at most a hundred characters and an ellipsis, with
/// single spaces between its words and none around them.
pub proof fn preview_is_one_short_line(text: Seq<char>)
    ensures
        preview_of(text).len() <= HISTORY_PREVIEW_CHARS + 1,
        is_evenly_spaced(preview_of(text)) || (collapsed(text, true).len() > HISTORY_PREVIEW_CHARS
            && preview_of(text).last() == '…' && is_evenly_spaced(preview_of(text).drop_last())),
{
    let line = collapsed(text, true);
    lemma_collapsed(text, true);
    let cut = if line.len() > HISTORY_PREVIEW_CHARS {
        line.take(HISTORY_PREVIEW_CHARS as int)
    } else {
        line
    };
    let j = lemma_trimmed_end(cut);
    let shown = trimmed_end(cut);
    assert forall|k: int| 0 <= k < shown.len() && is_white_space(#[trigger] shown[k]) implies {
        &&& shown[k] == ' '
        &&& 0 < k < shown.len() - 1
        &&& !is_white_space(shown[k + 1])
    } by {
        assert(shown[k] == line[k]);
        assert(shown[shown.len() - 1] == cut[j - 1]);
        if k < shown.len() - 1 {
            assert(shown[k + 1] == line[k + 1]);
        }
    }
    if line.len() > HISTORY_PREVIEW_CHARS {
        assert(preview_of(text).drop_last() =~= shown);
    }
}

proof fn lemma_collapsed_even(text: Seq<char>, after_space: bool)
    requires
        forall|k: int|
            0 <= k < text.len() && is_white_space(#[trigger] text[k]) ==> text[k] == ' ' && (k
                < text.len() - 1 ==> !is_white_space(text[k + 1])),
        after_space && text.len() > 0 ==> !is_white_space(text[0]),
    ensures
        collapsed(text, after_space) == text,
    decreases text.len(),
{
    if text.len() > 0 {
        let rest = text.drop_first();
        assert forall|k: int| 0 <= k < rest.len() && is_white_space(#[trigger] rest[k]) implies
            rest[k] == ' ' && (k < rest.len() - 1 ==> !is_white_space(rest[k + 1])) by {
            assert(rest[k] == text[k + 1]);
            if k < rest.len() - 1 {
                assert(rest[k + 1] == text[k + 2]);
            }
        }
        if rest.len() > 0 {
            assert(rest[0] == text[1]);
            assert(is_white_space(text[0]) ==> !is_white_space(text[1]));
        }
        lemma_collapsed_even(rest, is_white_space(text[0]));
        assert(collapsed(text, after_space) =~= text);
    } else {
        assert(text =~= seq![]);
    }
}

/// A preview is its own preview.
pub proof fn previews_do_not_change(text: Seq<char>)
    ensures
        preview_of(preview_of(text)) == preview_of(text),
{
    let line = collapsed(text, true);
    let shown = preview_of(text);
    preview_is_one_short_line(text);
    if line.len() > HISTORY_PREVIEW_CHARS {
        let cut = line.take(HISTORY_PREVIEW_CHARS as int);
        let words = trimmed_end(cut);
        let _ = lemma_trimmed_end(cut);
        assert(shown.drop_last() =~= words);
        assert forall|k: int| 0 <= k < shown.len() && is_white_space(#[trigger] shown[k]) implies
            shown[k] == ' ' && (k < shown.len() - 1 ==> !is_white_space(shown[k + 1])) by {
            if !is_evenly_spaced(shown) {
                assert(k < words.len());
                assert(words[k] == shown[k]);
                assert(words[k + 1] == shown[k + 1]);
            }
        }
        if words.len() > 0 {
            assert(shown[0] == words[0]);
            assert(is_evenly_spaced(shown) ==> !is_white_space(shown[0]));
        }
        lemma_collapsed_even(shown, true);
        if shown.len() > HISTORY_PREVIEW_CHARS {
            assert(shown.take(HISTORY_PREVIEW_CHARS as int) =~= words);
            assert(!is_white_space(words.last()));
        }
    } else {
        let _ = lemma_trimmed_end(line);
        short_line_is_its_own_preview(shown);
    }
}

/// A short line is its own preview.
pub proof fn short_line_is_its_own_preview(line: Seq<char>)
    requires
        line.len() <= HISTORY_PREVIEW_CHARS,
        is_evenly_spaced(line),
    ensures
        preview_of(line) == line,
{
    lemma_collapsed_even(line, true);
    if line.len() > 0 {
        assert(!is_white_space(line[line.len() - 1]));
    }
}

/// Words with whitespace before, between and after them.
pub open spec fn spaced(gaps: Seq<Seq<char>>, words: Seq<Seq<char>>) -> Seq<char>
    decreases words.len(),
{
    if words.len() == 0 {
        gaps[0]
    } else {
        spaced(gaps.drop_last(), words.drop_last()) + words.last() + gaps.last()
    }
}

/// Whether there is a gap before and after each word, none of the gaps between two words
/// is empty, and the whitespace is all in the gaps.
pub open spec fn are_words(gaps: Seq<Seq<char>>, words: Seq<Seq<char>>) -> bool {
    &&& gaps.len() == words.len() + 1
    &&& forall|k: int, i: int|
        0 <= k < gaps.len() && 0 <= i < gaps[k].len() ==> is_white_space(#[trigger] gaps[k][i])
    &&& forall|k: int, i: int|
        0 <= k < words.len() && 0 <= i < words[k].len() ==> !is_white_space(
            #[trigger] words[k][i],
        )
    &&& forall|k: int| 0 <= k < words.len() ==> (#[trigger] words[k]).len() > 0
    &&& forall|k: int| 0 < k < words.len() ==> (#[trigger] gaps[k]).len() > 0
}

/// Whether a text ends in whitespace, or what comes before it does if it is empty.
spec fn ends_in_space(text: Seq<char>, after_space: bool) -> bool {
    if text.len() == 0 {
        after_space
    } else {
        is_white_space(text.last())
    }
}

proof fn lemma_collapsed_append(a: Seq<char>, b: Seq<char>, after_space: bool)
    ensures
        collapsed(a + b, after_space) == collapsed(a, after_space) + collapsed(
            b,
            ends_in_space(a, after_space),
        ),
    decreases a.len(),
{
    if a.len() == 0 {
        assert(a + b =~= b);
        assert(collapsed(a, after_space) + collapsed(b, after_space) =~= collapsed(b, after_space));
    } else {
        let space = is_white_space(a[0]);
        let rest = a.drop_first();
        lemma_collapsed_append(rest, b, space);
        assert((a + b).drop_first() =~= rest + b);
        assert((a + b)[0] == a[0]);
        assert(ends_in_space(rest, space) == ends_in_space(a, after_space));
        let tail = collapsed(b, ends_in_space(a, after_space));
        assert(collapsed(a + b, after_space) =~= collapsed(a, after_space) + tail);
    }
}

proof fn lemma_collapsed_word(word: Seq<char>, after_space: bool)
    requires
        forall|i: int| 0 <= i < word.len() ==> !is_white_space(#[trigger] word[i]),
    ensures
        collapsed(word, after_space) == word,
    decreases word.len(),
{
    if word.len() > 0 {
        let rest = word.drop_first();
        assert forall|i: int| 0 <= i < rest.len() implies !is_white_space(#[trigger] rest[i]) by {
            assert(rest[i] == word[i + 1]);
        }
        lemma_collapsed_word(rest, false);
        assert(collapsed(word, after_space) =~= word);
    } else {
        assert(word =~= seq![]);
    }
}

proof fn lemma_collapsed_gap(gap: Seq<char>, after_space: bool)
    requires
        forall|i: int| 0 <= i < gap.len() ==> is_white_space(#[trigger] gap[i]),
    ensures
        collapsed(gap, after_space) == (if after_space || gap.len() == 0 {
            seq![]
        } else {
            seq![' ']
        }),
    decreases gap.len(),
{
    if gap.len() > 0 {
        let rest = gap.drop_first();
        assert(is_white_space(gap[0]));
        assert forall|i: int| 0 <= i < rest.len() implies is_white_space(#[trigger] rest[i]) by {
            assert(rest[i] == gap[i + 1]);
        }
        lemma_collapsed_gap(rest, true);
        assert(seq![' '] + seq![] =~= seq![' ']);
    }
}

/// The words with one space between neighbours, and one at the end if whitespace follows.
spec fn even_line(gaps: Seq<Seq<char>>, words: Seq<Seq<char>>) -> Seq<char> {
    joined(words, seq![' ']) + (if words.len() > 0 && gaps.last().len() > 0 {
        seq![' ']
    } else {
        seq![]
    })
}

proof fn lemma_collapsed_words(gaps: Seq<Seq<char>>, words: Seq<Seq<char>>)
    requires
        are_words(gaps, words),
    ensures
        collapsed(spaced(gaps, words), true) == even_line(gaps, words),
        ends_in_space(spaced(gaps, words), true) == (words.len() == 0 || gaps.last().len() > 0),
    decreases words.len(),
{
    if words.len() == 0 {
        let gap = gaps[0];
        assert forall|i: int| 0 <= i < gap.len() implies is_white_space(#[trigger] gap[i]) by {
            assert(is_white_space(gaps[0][i]));
        }
        lemma_collapsed_gap(gap, true);
        assert(even_line(gaps, words) =~= seq![]);
        if gap.len() > 0 {
            assert(is_white_space(gaps[0][gap.len() - 1]));
        }
    } else {
        let n = words.len() as int;
        let g = gaps.drop_last();
        let w = words.drop_last();
        assert forall|k: int, i: int|
            0 <= k < g.len() && 0 <= i < g[k].len() implies is_white_space(#[trigger] g[k][i]) by {
            assert(is_white_space(gaps[k][i]));
        }
        assert forall|k: int, i: int|
            0 <= k < w.len() && 0 <= i < w[k].len() implies !is_white_space(#[trigger] w[k][i]) by {
            assert(!is_white_space(words[k][i]));
        }
        assert forall|k: int| 0 <= k < w.len() implies (#[trigger] w[k]).len() > 0 by {
            assert(words[k].len() > 0);
        }
        assert forall|k: int| 0 < k < w.len() implies (#[trigger] g[k]).len() > 0 by {
            assert(gaps[k].len() > 0);
        }
        lemma_collapsed_words(g, w);
        let word = words.last();
        let gap = gaps.last();
        assert(word == words[n - 1] && gap == gaps[n]);
        assert forall|i: int| 0 <= i < word.len() implies !is_white_space(#[trigger] word[i]) by {
            assert(!is_white_space(words[n - 1][i]));
        }
        assert forall|i: int| 0 <= i < gap.len() implies is_white_space(#[trigger] gap[i]) by {
            assert(is_white_space(gaps[n][i]));
        }
        let before = spaced(g, w);
        assert(word.len() > 0);
        assert(!is_white_space(word[word.len() - 1]));
        lemma_collapsed_append(before, word, true);
        lemma_collapsed_append(before + word, gap, true);
        assert((before + word).last() == word.last());
        lemma_collapsed_word(word, ends_in_space(before, true));
        lemma_collapsed_gap(gap, false);
        if n > 1 {
            assert(g.last() == gaps[n - 1]);
        } else {
            assert(joined(w, seq![' ']) =~= seq![]);
        }
        assert(collapsed(spaced(gaps, words), true) =~= even_line(gaps, words));
        if gap.len() > 0 {
            assert(spaced(gaps, words).last() == gap[gap.len() - 1]);
        } else {
            assert(spaced(gaps, words).last() == word.last());
        }
    }
}

proof fn lemma_trimmed_end_even(line: Seq<char>)
    ensures
        line.len() > 0 && !is_white_space(line.last()) ==> trimmed_end(line) == line,
        line.len() > 1 && is_white_space(line.last()) && !is_white_space(line[line.len() - 2])
            ==> trimmed_end(line) == line.drop_last(),
{
    reveal_with_fuel(trimmed_end, 3);
    if line.len() > 1 && is_white_space(line.last()) {
        assert(line.drop_last().last() == line[line.len() - 2]);
    }
}

/// The preview of a text has the words of the text, in their order, with one space between
/// neighbours. If that is more than a hundred characters, together with the space for
/// whitespace at the end of the text, the first hundred are shown, without a space at their
/// end, and an ellipsis.
pub proof fn previews_keep_words_apart(gaps: Seq<Seq<char>>, words: Seq<Seq<char>>)
    requires
        are_words(gaps, words),
    ensures
        ({
            let text = spaced(gaps, words);
            let shown = joined(words, seq![' ']);
            let trailing = words.len() > 0 && gaps.last().len() > 0;
            let more = shown.len() > 100 || (shown.len() == 100 && trailing);
            &&& !more ==> preview_of(text) == shown
            &&& more && (shown.len() == 100 || shown[99] != ' ') ==> preview_of(text)
                == shown.take(100).push('…')
            &&& more && shown.len() > 100 && shown[99] == ' ' ==> preview_of(text)
                == shown.take(99).push('…')
        }),
{
    let text = spaced(gaps, words);
    let shown = joined(words, seq![' ']);
    let line = collapsed(text, true);
    lemma_collapsed_words(gaps, words);
    lemma_collapsed(text, true);
    lemma_joined_ends(words);
    if line.len() <= 100 {
        if shown.len() > 0 {
            if line.len() > shown.len() {
                assert(line[line.len() - 2] == shown.last());
                assert(line.drop_last() =~= shown);
            } else {
                assert(line =~= shown);
            }
            lemma_trimmed_end_even(line);
        } else {
            assert(line =~= seq![]);
            assert(shown =~= seq![]);
        }
    } else {
        let cut = line.take(100);
        assert(cut =~= shown.take(100));
        assert(cut.last() == line[99]);
        assert(cut.last() == shown[99]);
        if is_white_space(cut.last()) {
            assert(line[99] == ' ');
            let k: int = 98;
            assert(is_white_space(line[k]) ==> !is_white_space(line[k + 1]));
            assert(cut[98] == line[98]);
            assert(cut.drop_last() =~= shown.take(99));
            if shown.len() == 100 {
                assert(shown.last() == shown[99]);
            }
        }
        lemma_trimmed_end_even(cut);
    }
}

/// Words that are joined by spaces neither begin nor end with one.
proof fn lemma_joined_ends(words: Seq<Seq<char>>)
    requires
        forall|k: int, i: int|
            0 <= k < words.len() && 0 <= i < words[k].len() ==> !is_white_space(
                #[trigger] words[k][i],
            ),
        forall|k: int| 0 <= k < words.len() ==> (#[trigger] words[k]).len() > 0,
    ensures
        words.len() > 0 ==> joined(words, seq![' ']).len() > 0 && !is_white_space(
            joined(words, seq![' ']).last(),
        ),
        words.len() == 0 ==> joined(words, seq![' ']).len() == 0,
{
    if words.len() > 0 {
        let n = words.len() - 1;
        let word = words[n];
        assert(word.len() > 0);
        assert(!is_white_space(words[n][word.len() - 1]));
        assert(joined(words, seq![' ']).last() == word.last());
    }
}

/// Every text is made of words and the whitespace around them.
pub proof fn texts_are_words(text: Seq<char>) -> (r: (Seq<Seq<char>>, Seq<Seq<char>>))
    ensures
        are_words(r.0, r.1),
        spaced(r.0, r.1) == text,
    decreases text.len(),
{
    if text.len() == 0 {
        let gaps: Seq<Seq<char>> = seq![seq![]];
        let words: Seq<Seq<char>> = seq![];
        assert(spaced(gaps, words) =~= text);
        (gaps, words)
    } else {
        let c = text.last();
        let (g, w) = texts_are_words(text.drop_last());
        let n = w.len() as int;
        assert(text =~= text.drop_last().push(c));
        if is_white_space(c) {
            let gap = g.last().push(c);
            let gaps = g.drop_last().push(gap);
            assert forall|k: int, i: int|
                0 <= k < gaps.len() && 0 <= i < gaps[k].len() implies is_white_space(
                #[trigger] gaps[k][i],
            ) by {
                if k < n {
                    assert(gaps[k] == g[k]);
                    assert(is_white_space(g[k][i]));
                } else if i < g[n].len() {
                    assert(is_white_space(g[n][i]));
                }
            }
            assert forall|k: int| 0 < k < w.len() implies (#[trigger] gaps[k]).len() > 0 by {
                assert(g[k].len() > 0);
            }
            if n > 0 {
                assert(gaps.drop_last() =~= g.drop_last());
            }
            assert(spaced(gaps, w) =~= text);
            (gaps, w)
        } else if n == 0 || g[n].len() > 0 {
            let word = seq![c];
            let none: Seq<char> = seq![];
            let gaps = g.push(none);
            let words = w.push(word);
            assert forall|k: int, i: int|
                0 <= k < gaps.len() && 0 <= i < gaps[k].len() implies is_white_space(
                #[trigger] gaps[k][i],
            ) by {
                assert(gaps[k] == g[k]);
                assert(is_white_space(g[k][i]));
            }
            assert forall|k: int, i: int|
                0 <= k < words.len() && 0 <= i < words[k].len() implies !is_white_space(
                #[trigger] words[k][i],
            ) by {
                if k < n {
                    assert(words[k] == w[k]);
                    assert(!is_white_space(w[k][i]));
                }
            }
            assert forall|k: int| 0 <= k < words.len() implies (#[trigger] words[k]).len() > 0 by {
                if k < n {
                    assert(w[k].len() > 0);
                }
            }
            assert forall|k: int| 0 < k < words.len() implies (#[trigger] gaps[k]).len() > 0 by {
                assert(gaps[k] == g[k]);
            }
            assert(gaps.drop_last() =~= g);
            assert(words.drop_last() =~= w);
            assert(spaced(gaps, words) =~= text);
            (gaps, words)
        } else {
            let word = w.last().push(c);
            let words = w.drop_last().push(word);
            assert forall|k: int, i: int|
                0 <= k < words.len() && 0 <= i < words[k].len() implies !is_white_space(
                #[trigger] words[k][i],
            ) by {
                if k < n - 1 {
                    assert(words[k] == w[k]);
                    assert(!is_white_space(w[k][i]));
                } else if i < w[n - 1].len() {
                    assert(!is_white_space(w[n - 1][i]));
                }
            }
            assert forall|k: int| 0 <= k < words.len() implies (#[trigger] words[k]).len() > 0 by {
                if k < n - 1 {
                    assert(w[k].len() > 0);
                }
            }
            assert(words.drop_last() =~= w.drop_last());
            assert(spaced(g, words) =~= text);
            (g, words)
        }
    }
}

/// Two words with any whitespace between them are shown with one space between them.
pub proof fn two_words_stay_two(a: Seq<char>, gap: Seq<char>, b: Seq<char>)
    requires
        a.len() > 0,
        b.len() > 0,
        gap.len() > 0,
        a.len() + 1 + b.len() <= 100,
        forall|i: int| 0 <= i < a.len() ==> !is_white_space(#[trigger] a[i]),
        forall|i: int| 0 <= i < b.len() ==> !is_white_space(#[trigger] b[i]),
        forall|i: int| 0 <= i < gap.len() ==> is_white_space(#[trigger] gap[i]),
    ensures
        preview_of(a + gap + b) == a + seq![' '] + b,
{
    let none: Seq<char> = seq![];
    let gaps = seq![none, gap, none];
    let words = seq![a, b];
    assert(are_words(gaps, words));
    assert(gaps.drop_last() =~= seq![none, gap]);
    assert(words.drop_last() =~= seq![a]);
    assert(seq![none, gap].drop_last() =~= seq![none]);
    assert(seq![a].drop_last() =~= seq![]);
    let first = seq![a];
    assert(spaced(seq![none], seq![]) =~= none);
    assert(spaced(seq![none, gap], first) =~= a + gap);
    assert(spaced(gaps, words) =~= a + gap + b);
    assert(joined(first, seq![' ']) == a);
    assert(joined(words, seq![' ']) =~= a + seq![' '] + b);
    previews_keep_words_apart(gaps, words);
}

proof fn lemma_zeros_value(count: nat, digits: Seq<char>)
    requires
        all_digits(digits),
    ensures
        all_digits(zeros(count as int) + digits),
        numeral_value(zeros(count as int) + digits) == numeral_value(digits),
    decreases count + digits.len(),
{
    let text = zeros(count as int) + digits;
    assert forall|i: int| 0 <= i < text.len() implies is_digit(#[trigger] text[i]) by {
        if i >= count {
            assert(text[i] == digits[i - count]);
        }
    }
    if digits.len() > 0 {
        let fewer = digits.drop_last();
        assert(all_digits(fewer)) by {
            assert forall|i: int| 0 <= i < fewer.len() implies is_digit(#[trigger] fewer[i]) by {
                assert(fewer[i] == digits[i]);
            }
        }
        lemma_zeros_value(count, fewer);
        assert(text.drop_last() =~= zeros(count as int) + fewer);
        assert(text.last() == digits.last());
    } else if count > 0 {
        lemma_zeros_value((count - 1) as nat, digits);
        assert(text.drop_last() =~= zeros(count - 1) + digits);
        assert(text.last() == '0');
    } else {
        assert(text =~= digits);
    }
}

/// A number that has at most so many digits is written with exactly so many, and they
/// denote it.
pub proof fn padded_numbers_read_back(n: nat, width: nat)
    requires
        width > 0,
        n < pow10(width),
    ensures
        padded(n as int, width as int).len() == width,
        all_digits(padded(n as int, width as int)),
        numeral_value(padded(n as int, width as int)) == n,
{
    decimal_reads_back(n);
    lemma_decimal_length(n, width);
    lemma_zeros_value((width - decimal(n).len()) as nat, decimal(n));
}

/// Whether each field of a local time has as many digits as it is given.
pub open spec fn has_usual_fields(local: LocalTime) -> bool {
    &&& -1900 <= local.years_since_1900 < 8100
    &&& -1 <= local.months_since_january < 99
    &&& 0 <= local.day < 100
    &&& 0 <= local.hour < 100
    &&& 0 <= local.minute < 100
    &&& 0 <= local.second < 100
}

/// The date and the time of day can be read back from their text, each field at its place.
pub proof fn timestamps_read_back(time: Timestamp, local: LocalTime)
    requires
        instant(time) >= 0,
        has_usual_fields(local),
    ensures
        ({
            let text = timestamp_text(time, Some(local));
            &&& text.len() == 19
            &&& numeral_value(text.subrange(0, 4)) == local.years_since_1900 + 1900
            &&& text[4] == '-'
            &&& numeral_value(text.subrange(5, 7)) == local.months_since_january + 1
            &&& text[7] == '-'
            &&& numeral_value(text.subrange(8, 10)) == local.day
            &&& text[10] == ' '
            &&& numeral_value(text.subrange(11, 13)) == local.hour
            &&& text[13] == ':'
            &&& numeral_value(text.subrange(14, 16)) == local.minute
            &&& text[16] == ':'
            &&& numeral_value(text.subrange(17, 19)) == local.second
        }),
{
    let year = (local.years_since_1900 + 1900) as nat;
    let month = (local.months_since_january + 1) as nat;
    assert(pow10(4) == 10000 && pow10(2) == 100) by {
        reveal_with_fuel(pow10, 5);
    }
    padded_numbers_read_back(year, 4);
    padded_numbers_read_back(month, 2);
    padded_numbers_read_back(local.day as nat, 2);
    padded_numbers_read_back(local.hour as nat, 2);
    padded_numbers_read_back(local.minute as nat, 2);
    padded_numbers_read_back(local.second as nat, 2);
    lemma_fields_of_time(
        padded(year as int, 4),
        padded(month as int, 2),
        padded(local.day as int, 2),
        padded(local.hour as int, 2),
        padded(local.minute as int, 2),
        padded(local.second as int, 2),
    );
}

proof fn lemma_fields_of_time(
    year: Seq<char>,
    month: Seq<char>,
    day: Seq<char>,
    hour: Seq<char>,
    minute: Seq<char>,
    second: Seq<char>,
)
    requires
        year.len() == 4,
        month.len() == 2,
        day.len() == 2,
        hour.len() == 2,
        minute.len() == 2,
        second.len() == 2,
    ensures
        ({
            let text = year + "-"@ + month + "-"@ + day + " "@ + hour + ":"@ + minute + ":"@
                + second;
            &&& text.len() == 19
            &&& text.subrange(0, 4) == year
            &&& text[4] == '-'
            &&& text.subrange(5, 7) == month
            &&& text[7] == '-'
            &&& text.subrange(8, 10) == day
            &&& text[10] == ' '
            &&& text.subrange(11, 13) == hour
            &&& text[13] == ':'
            &&& text.subrange(14, 16) == minute
            &&& text[16] == ':'
            &&& text.subrange(17, 19) == second
        }),
{
    reveal_strlit("-");
    reveal_strlit(" ");
    reveal_strlit(":");
    let text = year + "-"@ + month + "-"@ + day + " "@ + hour + ":"@ + minute + ":"@ + second;
    assert(text.subrange(0, 4) =~= year);
    assert(text.subrange(5, 7) =~= month);
    assert(text.subrange(8, 10) =~= day);
    assert(text.subrange(11, 13) =~= hour);
    assert(text.subrange(14, 16) =~= minute);
    assert(text.subrange(17, 19) =~= second);
}

/// Different local times have different texts.
pub proof fn different_times_differ(time: Timestamp, local: LocalTime, other: LocalTime)
    requires
        instant(time) >= 0,
        has_usual_fields(local),
        has_usual_fields(other),
        timestamp_text(time, Some(local)) == timestamp_text(time, Some(other)),
    ensures
        local == other,
{
    timestamps_read_back(time, local);
    timestamps_read_back(time, other);
}

/// What is told of the age: whole seconds up to a minute, whole minutes up to an hour, and
/// then, or of what is still to come, the date and the time of day.
pub proof fn ages_read_back(captured_at: Timestamp, now: Timestamp, local: Option<LocalTime>)
    ensures
        ({
            let text = captured_text(captured_at, now, local);
            let elapsed = (now.seconds - captured_at.seconds) * 1_000_000_000 + (now.nanoseconds
                - captured_at.nanoseconds);
            let count = numeral_value(text.take(text.len() - 5));
            &&& 0 <= elapsed < 60_000_000_000 ==> {
                &&& text.len() > 5 && text.skip(text.len() - 5) == "s ago"@
                &&& all_digits(text.take(text.len() - 5))
                &&& count * 1_000_000_000 <= elapsed < (count + 1) * 1_000_000_000
            }
            &&& 60_000_000_000 <= elapsed < 3_600_000_000_000 ==> {
                &&& text.len() > 5 && text.skip(text.len() - 5) == "m ago"@
                &&& all_digits(text.take(text.len() - 5))
                &&& count * 60_000_000_000 <= elapsed < (count + 1) * 60_000_000_000
            }
            &&& elapsed < 0 || elapsed >= 3_600_000_000_000 ==> text == timestamp_text(
                captured_at,
                local,
            )
        }),
{
    reveal_strlit("s ago");
    reveal_strlit("m ago");
    let text = captured_text(captured_at, now, local);
    let elapsed = instant(now) - instant(captured_at);
    if 0 <= elapsed < 3_600_000_000_000 {
        let seconds = elapsed / 1_000_000_000;
        let shown = if seconds < 60 {
            seconds
        } else {
            seconds / 60
        };
        decimal_reads_back(shown as nat);
        assert(text.take(text.len() - 5) =~= decimal(shown as nat));
        assert(seconds < 60 ==> text.skip(text.len() - 5) =~= "s ago"@);
        assert(seconds >= 60 ==> text.skip(text.len() - 5) =~= "m ago"@);
    }
}

/// Nothing is told of a time before 1970, or without the local time.
pub proof fn unknown_times(time: Timestamp, local: Option<LocalTime>)
    ensures
        time.seconds * 1_000_000_000 + time.nanoseconds < 0 || local is None ==> timestamp_text(
            time,
            local,
        ) == "unknown"@,
{
}

/// What a tooltip tells of a text: how many characters, bytes and lines it has, where a
/// line ends with each line feed and the last one may go without, the media types, the age
/// and the color.
pub proof fn tooltips_count_texts(item: ItemModel, now: Timestamp, local: Option<LocalTime>)
    requires
        item.image is None,
    ensures
        ({
            let ends = item.text.to_multiset().count('\n');
            let lines = if item.text.len() == 0 {
                1
            } else if item.text.last() == '\n' {
                ends
            } else {
                ends + 1
            };
            tooltip_text(item, now, local) == decimal(item.text.len()) + " characters · "@
                + decimal(encode_utf8(item.text).len()) + " UTF-8 bytes · "@ + decimal(lines)
                + " lines"@ + "\nMIME: "@ + item.mime_type + "\nAvailable types: "@ + joined(
                item.available,
                ", "@,
            ) + "\nCaptured: "@ + captured_text(item.captured_at, now, local) + (match item.color {
                Some(rgba) => "\nColor: "@ + color_text(rgba),
                None => seq![],
            })
        }),
{
    lines_are_counted_by_their_ends(item.text);
    let ends = item.text.to_multiset().count('\n');
    let lines = if item.text.len() == 0 {
        1
    } else if item.text.last() == '\n' {
        ends
    } else {
        ends + 1
    };
    assert(line_count(item.text) == lines);
    assert(tooltip_text(item, now, local) =~= decimal(item.text.len()) + " characters · "@
        + decimal(encode_utf8(item.text).len()) + " UTF-8 bytes · "@ + decimal(lines) + " lines"@
        + "\nMIME: "@ + item.mime_type + "\nAvailable types: "@ + joined(item.available, ", "@)
        + "\nCaptured: "@ + captured_text(item.captured_at, now, local) + (match item.color {
        Some(rgba) => "\nColor: "@ + color_text(rgba),
        None => seq![],
    }));
}

/// What a tooltip tells of an image: its size in pixels and in bytes, the media types and
/// the age. There is no color.
pub proof fn tooltips_measure_images(item: ItemModel, now: Timestamp, local: Option<LocalTime>)
    requires
        item.image is Some,
    ensures
        tooltip_text(item, now, local) == decimal(item.image->0.width as nat) + " × "@ + decimal(
            item.image->0.height as nat,
        ) + " · "@ + byte_size(item.image->0.bytes.len()) + "\nMIME: "@ + item.mime_type
            + "\nAvailable types: "@ + joined(item.available, ", "@) + "\nCaptured: "@
            + captured_text(item.captured_at, now, local),
{
    assert(tooltip_text(item, now, local) =~= decimal(item.image->0.width as nat) + " × "@
        + decimal(item.image->0.height as nat) + " · "@ + byte_size(item.image->0.bytes.len())
        + "\nMIME: "@ + item.mime_type + "\nAvailable types: "@ + joined(item.available, ", "@)
        + "\nCaptured: "@ + captured_text(item.captured_at, now, local));
}

/// A row shows the thumbnail of its item if there is one, else the color if there is one,
/// marks the selected item alone, and speaks of its own item when it is pressed. Images
/// are shown large after more than a second, texts earlier.
pub proof fn rows_tell_of_their_items(
    row: HistoryRow,
    index: usize,
    item: ItemModel,
    selected: bool,
    now: Timestamp,
    local: Option<LocalTime>,
)
    requires
        shows_item(row, index, item, selected, now, local),
    ensures
        selected <==> row.marker@ == seq!['›'],
        !selected <==> row.marker@ == seq![' '],
        item.image_handle matches Some(number) ==> row.icon matches RowIcon::Thumbnail {
            handle,
            tooltip,
        } && handle == number && (tooltip is Some <==> item.image_preview_handle is Some) && (
        tooltip matches Some(t) ==> t.image == item.image_preview_handle && delay_of(t@) == 1200),
        item.image_handle is None ==> (item.color matches Some(rgba) ==> row.icon matches
            RowIcon::Swatch(shown) && shown@ == rgba),
        item.image_handle is None && item.color is None ==> row.icon is Blank,
        row.preview@ == preview_of(item.text),
        row.tooltip.text@ == tooltip_text(item, now, local),
        row.tooltip.image is None,
        delay_of(row.tooltip@) == 350,
        row.activate == WindowMessage::ActivateItem(index),
        row.delete == WindowMessage::DeleteItem(index),
{
    reveal_strlit("›");
    reveal_strlit(" ");
    assert("›"@ =~= seq!['›']);
    assert(" "@ =~= seq![' ']);
    assert(seq!['›'][0] != seq![' '][0]);
    assert(row.tooltip@.image is None);
}

/// The status tells how many items there are and how many there may be.
pub proof fn status_reads_back(count: nat, limit: nat)
    ensures
        ({
            let text = status_text(count, limit);
            let slash = decimal(count).len() as int;
            let end = slash + 1 + decimal(limit).len();
            &&& text[slash] == '/'
            &&& numeral_value(text.subrange(0, slash)) == count
            &&& numeral_value(text.subrange(slash + 1, end)) == limit
            &&& text.skip(end) == " items"@
        }),
{
    reveal_strlit("/");
    decimal_reads_back(count);
    decimal_reads_back(limit);
    let text = status_text(count, limit);
    let slash = decimal(count).len() as int;
    let end = slash + 1 + decimal(limit).len();
    assert(text.subrange(0, slash) =~= decimal(count));
    assert(text.subrange(slash + 1, end) =~= decimal(limit));
    assert(text.skip(end) =~= " items"@);
}

} // verus!
