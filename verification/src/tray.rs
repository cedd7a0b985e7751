//! The icon in the system tray: what it looks like, and what its menu does.

use vstd::prelude::*;
use vstd::string::*;
use vstd::arithmetic::power2::{
    lemma2_to64, lemma_pow2_adds, lemma_pow2_pos, lemma_pow2_strictly_increases, pow2,
};
use crate::bin_management::{
    icon_file_name, icon_theme_name, join_path, joined_path, paths_in, symbolic_icon_file,
    symbolic_icon_name, APP_ID, APP_NAME, ICONS_DIRECTORY,
};
use crate::copying::next_generation;
use crate::files::bytes_view;
use crate::history::DEFAULT_HISTORY_LIMIT;
use crate::decimal::{decimal_reads_back, numeral_value};
use crate::pixels::{
    draw_line, line_covers, on_canvas, painted, painting_fills_the_covered_pixels, pixel_offset,
};
use crate::single::{
    lemma_nearest_bounds, nearest_integer, nearest_single, scaled_quotients_are_nearest,
    single_product, single_ratio, Single,
};
use crate::text::{decimal, lossy_text, push_decimal, text_from_utf8_lossy};

verus! {

broadcast use vstd::string::group_string_axioms;

// ---------------------------------------------------------------------------
// The icon
// ---------------------------------------------------------------------------

/// A square picture in rows of alpha, red, green and blue.
pub struct Icon {
    pub width: i32,
    pub height: i32,
    pub data: Vec<u8>,
}

/// A stroke of the icon, in quarters of a pixel on a canvas of 24 by 24 pixels.
pub ghost struct Stroke {
    pub start: (nat, nat),
    pub end: (nat, nat),
    pub color: Seq<u8>,
}

/// A coordinate on a canvas of the given size, in single precision.
pub open spec fn icon_coordinate(quarters: nat, size: nat) -> int {
    nearest_integer(single_product(nearest_single(size, 24), quarters, 4)) as int
}

pub open spec fn stroke_width(size: nat) -> int {
    let width = nearest_integer(single_product(nearest_single(size, 24), 3, 2)) as int;
    if width < 1 {
        1
    } else {
        width
    }
}

pub open spec fn light() -> Seq<u8> {
    seq![255u8, 232, 232, 232]
}

pub open spec fn turquoise() -> Seq<u8> {
    seq![255u8, 0, 199, 183]
}

/// Three lines of text, and an arrow that points down.
pub open spec fn icon_strokes() -> Seq<Stroke> {
    seq![
        Stroke { start: (12, 18), end: (69, 18), color: light() },
        Stroke { start: (12, 36), end: (51, 36), color: light() },
        Stroke { start: (12, 54), end: (51, 54), color: light() },
        Stroke { start: (69, 36), end: (69, 84), color: turquoise() },
        Stroke { start: (69, 84), end: (54, 69), color: turquoise() },
        Stroke { start: (69, 84), end: (84, 69), color: turquoise() },
    ]
}

pub open spec fn stroke_covers(stroke: Stroke, size: nat, x: int, y: int) -> bool {
    line_covers(
        (icon_coordinate(stroke.start.0, size), icon_coordinate(stroke.start.1, size)),
        (icon_coordinate(stroke.end.0, size), icon_coordinate(stroke.end.1, size)),
        stroke_width(size),
        x,
        y,
    )
}

/// A canvas with strokes on it, each over the ones before it.
pub open spec fn with_strokes(canvas: Seq<u8>, size: nat, strokes: Seq<Stroke>) -> Seq<u8>
    decreases strokes.len(),
{
    if strokes.len() == 0 {
        canvas
    } else {
        painted(
            with_strokes(canvas, size, strokes.drop_last()),
            size as int,
            strokes.last().color,
            |x: int, y: int| stroke_covers(strokes.last(), size, x, y),
        )
    }
}

pub open spec fn blank_canvas(size: int) -> Seq<u8> {
    Seq::new((4 * (size * size)) as nat, |i: int| 0u8)
}

/// The icon of the given size.
pub open spec fn icon_bytes(size: int) -> Seq<u8> {
    if size > 0 {
        with_strokes(blank_canvas(size), size as nat, icon_strokes())
    } else {
        blank_canvas(size)
    }
}

fn icon_scale(size: i32) -> (r: Single)
    requires
        0 < size <= 23170,
    ensures
        r.wf(),
        -55 <= r.exponent <= -13,
        r.units() == nearest_single(size as nat, 24),
{
    let scale = single_ratio(size as u32, 24);
    proof {
        if scale.exponent >= -12 {
            let k = (scale.exponent + 149) as nat;
            let units = scale.units();
            let one = pow2(149);
            lemma_nearest_bounds(size as nat, 24);
            lemma2_to64();
            lemma_pow2_adds(12, 137);
            if k > 137 {
                lemma_pow2_strictly_increases(137, k);
            }
            lemma_pow2_pos(137);
            let p = pow2(137);
            assert(units >= 0x80_0000 * p) by (nonlinear_arith)
                requires
                    units == scale.mantissa as nat * pow2(k),
                    scale.mantissa >= 0x80_0000,
                    pow2(k) >= p,
            ;
            assert(one == 0x1000 * p);
            assert(size as nat * one <= 23170 * one) by (nonlinear_arith)
                requires
                    0 < size <= 23170,
            ;
            assert(units * 24 * 0x100_0000 <= (size as nat * one) * 0x100_0001 + 24 * 0x80_0000);
            lemma_pow2_strictly_increases(30, 137);
            assert(false);
        }
    }
    scale
}

fn coordinate(scale: &Single, quarters: u32, size: Ghost<nat>) -> (r: i32)
    requires
        scale.wf(),
        -55 <= scale.exponent <= -13,
        scale.units() == nearest_single(size@, 24),
        0 < quarters <= 84,
    ensures
        r == icon_coordinate(quarters as nat, size@),
        0 <= r <= 0x100_0000,
{
    proof {
        lemma2_to64();
    }
    let product = scale.times(quarters, 2);
    product.round() as i32
}

fn draw_stroke(
    data: &mut Vec<u8>,
    size: i32,
    scale: &Single,
    width: i32,
    start: (u32, u32),
    end: (u32, u32),
    color: [u8; 4],
)
    requires
        0 < size <= 23170,
        old(data).len() == 4 * (size * size),
        scale.wf(),
        -55 <= scale.exponent <= -13,
        scale.units() == nearest_single(size as nat, 24),
        width == stroke_width(size as nat),
        0 < start.0 <= 84,
        0 < start.1 <= 84,
        0 < end.0 <= 84,
        0 < end.1 <= 84,
    ensures
        final(data)@ == painted(
            old(data)@,
            size as int,
            color@,
            |x: int, y: int|
                stroke_covers(
                    Stroke {
                        start: (start.0 as nat, start.1 as nat),
                        end: (end.0 as nat, end.1 as nat),
                        color: color@,
                    },
                    size as nat,
                    x,
                    y,
                ),
        ),
{
    let ghost n = size as nat;
    let from = (coordinate(scale, start.0, Ghost(n)), coordinate(scale, start.1, Ghost(n)));
    let to = (coordinate(scale, end.0, Ghost(n)), coordinate(scale, end.1, Ghost(n)));
    proof {
        assert forall|x: int, y: int|
            on_canvas(size as int, x, y) && #[trigger] line_covers(
                (from.0 as int, from.1 as int),
                (to.0 as int, to.1 as int),
                width as int,
                x,
                y,
            ) implies pixel_offset(size as int, x, y) + 4 <= data.len() by {
            assert(y * size + x < size * size) by (nonlinear_arith)
                requires
                    0 <= x < size,
                    0 <= y < size,
            ;
        }
    }
    let ghost before = data@;
    draw_line(data, size, from, to, width, color);
    assert(data@ =~= painted(
        before,
        size as int,
        color@,
        |x: int, y: int|
            stroke_covers(
                Stroke {
                    start: (start.0 as nat, start.1 as nat),
                    end: (end.0 as nat, end.1 as nat),
                    color: color@,
                },
                size as nat,
                x,
                y,
            ),
    ));
}

proof fn lemma_first_strokes(size: nat, canvas: Seq<u8>, count: int)
    requires
        0 <= count < icon_strokes().len(),
    ensures
        with_strokes(canvas, size, icon_strokes().take(count + 1)) == painted(
            with_strokes(canvas, size, icon_strokes().take(count)),
            size as int,
            icon_strokes()[count].color,
            |x: int, y: int| stroke_covers(icon_strokes()[count], size, x, y),
        ),
{
    let strokes = icon_strokes().take(count + 1);
    assert(strokes.drop_last() =~= icon_strokes().take(count));
    assert(strokes.last() == icon_strokes()[count]);
}

/// Draws the icon in the color that it flashes in.
pub fn flash_icon_pixmap(size: i32) -> (r: Icon)
    requires
        4 * (size * size) <= i32::MAX,
    ensures
        r.width == size,
        r.height == size,
        r.data@ == icon_bytes(size as int),
{
    assert(0 <= size * size && -23170 <= size <= 23170) by (nonlinear_arith)
        requires
            4 * (size * size) <= i32::MAX,
    ;
    let mut data: Vec<u8> = Vec::new();
    let len: usize = (size * size * 4) as usize;
    let mut i: usize = 0;
    while i < len
        invariant
            i <= len,
            data.len() == i,
            forall|k: int| 0 <= k < i ==> #[trigger] data@[k] == 0,
        decreases len - i,
    {
        data.push(0);
        i = i + 1;
    }
    assert(data@ =~= blank_canvas(size as int));
    if size <= 0 {
        return Icon { width: size, height: size, data };
    }
    let ghost n = size as nat;
    let ghost canvas = data@;
    let ghost all = icon_strokes();
    let scale = icon_scale(size);
    proof {
        lemma2_to64();
    }
    let line = scale.times(3, 1);
    let rounded = line.round() as i32;
    let width: i32 = if rounded < 1 {
        1
    } else {
        rounded
    };
    let normal: [u8; 4] = [255, 232, 232, 232];
    let bright: [u8; 4] = [255, 0, 199, 183];
    proof {
        assert(normal@ =~= light());
        assert(bright@ =~= turquoise());
        assert(all.take(0) =~= seq![]);
        assert(all.take(6) =~= all);
        lemma_first_strokes(n, canvas, 0);
        lemma_first_strokes(n, canvas, 1);
        lemma_first_strokes(n, canvas, 2);
        lemma_first_strokes(n, canvas, 3);
        lemma_first_strokes(n, canvas, 4);
        lemma_first_strokes(n, canvas, 5);
    }
    draw_stroke(&mut data, size, &scale, width, (12, 18), (69, 18), normal);
    assert(data@ == with_strokes(canvas, n, all.take(1)));
    draw_stroke(&mut data, size, &scale, width, (12, 36), (51, 36), normal);
    assert(data@ == with_strokes(canvas, n, all.take(2)));
    draw_stroke(&mut data, size, &scale, width, (12, 54), (51, 54), normal);
    assert(data@ == with_strokes(canvas, n, all.take(3)));
    draw_stroke(&mut data, size, &scale, width, (69, 36), (69, 84), bright);
    assert(data@ == with_strokes(canvas, n, all.take(4)));
    draw_stroke(&mut data, size, &scale, width, (69, 84), (54, 69), bright);
    assert(data@ == with_strokes(canvas, n, all.take(5)));
    draw_stroke(&mut data, size, &scale, width, (69, 84), (84, 69), bright);
    assert(data@ == with_strokes(canvas, n, all.take(6)));
    Icon { width: size, height: size, data }
}

// ---------------------------------------------------------------------------
// The state
// ---------------------------------------------------------------------------

/// What the user asks for at the tray icon.
#[derive(Clone, Copy, Debug, PartialEq, Eq, Structural)]
pub enum TrayEvent {
    Activate,
    ClearHistory,
    ConfigureShortcut,
    SetHistoryLimit(usize),
}

/// What a menu entry does.
#[derive(Clone, Copy, Debug, PartialEq, Eq, Structural)]
pub enum MenuAction {
    Shutdown,
    ClearHistory,
    ConfigureShortcut,
    SetHistoryLimit(usize),
    ToggleAutostart,
}

/// What is to be done once a menu entry was chosen.
#[derive(Clone, Copy, Debug, PartialEq, Eq, Structural)]
pub enum TrayCommand {
    Exit,
    Send(TrayEvent),
    SetAutostart(bool),
}

/// A menu entry with a check mark.
pub struct CheckEntry {
    pub label: String,
    pub enabled: bool,
    pub checked: bool,
    pub action: MenuAction,
}

/// An entry of the menu.
pub enum MenuEntry {
    Standard { label: String, action: MenuAction },
    SubMenu { label: String, entries: Vec<CheckEntry> },
    Check(CheckEntry),
}

/// The state of the tray icon.
pub struct TrayIcon {
    installed: bool,
    autostart: bool,
    flash_generation: u64,
    flashing: bool,
    max_history_items: usize,
}

/// The model of a `TrayIcon`.
pub ghost struct TrayModel {
    pub installed: bool,
    pub autostart: bool,
    pub flash_generation: u64,
    pub flashing: bool,
    pub max_history_items: usize,
}

impl View for TrayIcon {
    type V = TrayModel;

    closed spec fn view(&self) -> TrayModel {
        TrayModel {
            installed: self.installed,
            autostart: self.autostart,
            flash_generation: self.flash_generation,
            flashing: self.flashing,
            max_history_items: self.max_history_items,
        }
    }
}

/// The limits that the menu offers.
pub open spec fn limit_options() -> Seq<usize> {
    seq![50usize, 100, DEFAULT_HISTORY_LIMIT, 500, 1000]
}

/// Where the icon is found: nowhere while it flashes, or else among the user's icons, or
/// else by its name.
pub open spec fn icon_name_of(flashing: bool, data_dir: Option<Seq<u8>>) -> Seq<char> {
    if flashing {
        seq![]
    } else {
        match data_dir {
            Some(directory) => lossy_text(
                joined_path(joined_path(directory, ICONS_DIRECTORY@), symbolic_icon_file()),
            ),
            None => symbolic_icon_name(),
        }
    }
}

pub open spec fn flash_started(tray: TrayModel) -> TrayModel {
    TrayModel {
        flash_generation: next_generation(tray.flash_generation),
        flashing: true,
        ..tray
    }
}

pub open spec fn flash_ended(tray: TrayModel, generation: u64) -> TrayModel {
    if tray.flash_generation == generation {
        TrayModel { flashing: false, ..tray }
    } else {
        tray
    }
}

pub open spec fn is_limit_entry(entry: CheckEntry, limit: usize, current: usize) -> bool {
    &&& entry.label@ == decimal(limit as nat)
    &&& entry.enabled
    &&& entry.checked == (limit == current)
    &&& entry.action == MenuAction::SetHistoryLimit(limit)
}

pub open spec fn is_standard_entry(entry: MenuEntry, text: Seq<char>, does: MenuAction) -> bool {
    entry matches MenuEntry::Standard { label, action } && label@ == text && action == does
}

/// Whether `menu` is the menu of the tray icon.
pub open spec fn is_menu_of(menu: Seq<MenuEntry>, tray: TrayModel) -> bool {
    &&& menu.len() == 5
    &&& is_standard_entry(menu[0], "Shutdown"@, MenuAction::Shutdown)
    &&& is_standard_entry(menu[1], "Clear history"@, MenuAction::ClearHistory)
    &&& is_standard_entry(menu[2], "Configure shortcut"@, MenuAction::ConfigureShortcut)
    &&& menu[3] matches MenuEntry::SubMenu { label, entries } && label@ == "Max items: "@
        + decimal(tray.max_history_items as nat) && entries.len() == limit_options().len() && (
    forall|i: int|
        0 <= i < entries.len() ==> is_limit_entry(
            #[trigger] entries[i],
            limit_options()[i],
            tray.max_history_items,
        ))
    &&& menu[4] matches MenuEntry::Check(entry) && entry.label@ == "Autostart"@ && entry.enabled
        == tray.installed && entry.checked == tray.autostart && entry.action
        == MenuAction::ToggleAutostart
}

/// What is to be done once a menu entry was chosen.
pub open spec fn command_of(tray: TrayModel, action: MenuAction) -> TrayCommand {
    match action {
        MenuAction::Shutdown => TrayCommand::Exit,
        MenuAction::ClearHistory => TrayCommand::Send(TrayEvent::ClearHistory),
        MenuAction::ConfigureShortcut => TrayCommand::Send(TrayEvent::ConfigureShortcut),
        MenuAction::SetHistoryLimit(limit) => TrayCommand::Send(TrayEvent::SetHistoryLimit(limit)),
        MenuAction::ToggleAutostart => TrayCommand::SetAutostart(!tray.autostart),
    }
}

pub open spec fn tray_after(tray: TrayModel, action: MenuAction) -> TrayModel {
    match action {
        MenuAction::SetHistoryLimit(limit) => TrayModel { max_history_items: limit, ..tray },
        _ => tray,
    }
}

fn limit_option(i: usize) -> (r: usize)
    requires
        i < 5,
    ensures
        r == limit_options()[i as int],
{
    if i == 0 {
        50
    } else if i == 1 {
        100
    } else if i == 2 {
        DEFAULT_HISTORY_LIMIT
    } else if i == 3 {
        500
    } else {
        1000
    }
}

impl TrayIcon {
    /// The icon at the start.
    pub fn new(installed: bool, autostart: bool) -> (r: TrayIcon)
        ensures
            r@ == (TrayModel {
                installed,
                autostart,
                flash_generation: 0,
                flashing: false,
                max_history_items: DEFAULT_HISTORY_LIMIT,
            }),
    {
        TrayIcon {
            installed,
            autostart,
            flash_generation: 0,
            flashing: false,
            max_history_items: DEFAULT_HISTORY_LIMIT,
        }
    }

    /// The name of the icon on the bus.
    pub fn id(&self) -> (r: &'static str)
        ensures
            r@ == APP_ID@,
    {
        APP_ID
    }

    /// The name of the icon for the user.
    pub fn title(&self) -> (r: &'static str)
        ensures
            r@ == APP_NAME@,
    {
        APP_NAME
    }

    /// Where the icon is found. `data_dir` is the directory for the user's data.
    pub fn icon_name(&self, data_dir: Option<Vec<u8>>) -> (r: String)
        ensures
            r@ == icon_name_of(self@.flashing, bytes_view(data_dir)),
    {
        if self.flashing {
            return String::new();
        }
        match data_dir {
            Some(directory) => {
                let icons = join_path(&directory, ICONS_DIRECTORY);
                let file = icon_file_name();
                let path = join_path(&icons, file.as_str());
                text_from_utf8_lossy(path.as_slice())
            },
            None => icon_theme_name(),
        }
    }

    /// The pictures of the icon, if it is not found by name.
    pub fn icon_pixmap(&self) -> (r: Vec<Icon>)
        ensures
            self@.flashing ==> r.len() == 2 && r[0].width == 24 && r[0].height == 24
                && r[0].data@ == icon_bytes(24) && r[1].width == 48 && r[1].height == 48
                && r[1].data@ == icon_bytes(48),
            !self@.flashing ==> r.len() == 0,
    {
        let mut icons: Vec<Icon> = Vec::new();
        if self.flashing {
            icons.push(flash_icon_pixmap(24));
            icons.push(flash_icon_pixmap(48));
        }
        icons
    }

    /// Starts to flash, and gives the number of the flash.
    pub fn begin_flash(&mut self) -> (r: u64)
        ensures
            final(self)@ == flash_started(old(self)@),
            r == final(self)@.flash_generation,
    {
        self.flash_generation = self.flash_generation.wrapping_add(1);
        self.flashing = true;
        self.flash_generation
    }

    /// Ends the flash of the given number, unless another one has started.
    pub fn end_flash(&mut self, generation: u64)
        ensures
            final(self)@ == flash_ended(old(self)@, generation),
    {
        if self.flash_generation == generation {
            self.flashing = false;
        }
    }

    /// The menu.
    pub fn menu(&self) -> (r: Vec<MenuEntry>)
        ensures
            is_menu_of(r@, self@),
    {
        let mut entries: Vec<CheckEntry> = Vec::new();
        let mut i: usize = 0;
        while i < 5
            invariant
                i <= 5,
                entries.len() == i,
                forall|k: int|
                    0 <= k < i ==> is_limit_entry(
                        #[trigger] entries[k],
                        limit_options()[k],
                        self@.max_history_items,
                    ),
            decreases 5 - i,
        {
            let limit = limit_option(i);
            let mut label = String::new();
            push_decimal(&mut label, limit as u64);
            assert(label@ =~= decimal(limit as nat));
            entries.push(
                CheckEntry {
                    label,
                    enabled: true,
                    checked: limit == self.max_history_items,
                    action: MenuAction::SetHistoryLimit(limit),
                },
            );
            i = i + 1;
        }
        let mut limits = "Max items: ".to_owned();
        push_decimal(&mut limits, self.max_history_items as u64);
        let mut menu: Vec<MenuEntry> = Vec::new();
        menu.push(
            MenuEntry::Standard { label: "Shutdown".to_owned(), action: MenuAction::Shutdown },
        );
        menu.push(
            MenuEntry::Standard {
                label: "Clear history".to_owned(),
                action: MenuAction::ClearHistory,
            },
        );
        menu.push(
            MenuEntry::Standard {
                label: "Configure shortcut".to_owned(),
                action: MenuAction::ConfigureShortcut,
            },
        );
        menu.push(MenuEntry::SubMenu { label: limits, entries });
        menu.push(
            MenuEntry::Check(
                CheckEntry {
                    label: "Autostart".to_owned(),
                    enabled: self.installed,
                    checked: self.autostart,
                    action: MenuAction::ToggleAutostart,
                },
            ),
        );
        menu
    }

    /// Takes note that a menu entry was chosen, and says what is to be done.
    pub fn select(&mut self, action: MenuAction) -> (r: TrayCommand)
        ensures
            final(self)@ == tray_after(old(self)@, action),
            r == command_of(old(self)@, action),
    {
        match action {
            MenuAction::Shutdown => TrayCommand::Exit,
            MenuAction::ClearHistory => TrayCommand::Send(TrayEvent::ClearHistory),
            MenuAction::ConfigureShortcut => TrayCommand::Send(TrayEvent::ConfigureShortcut),
            MenuAction::SetHistoryLimit(limit) => {
                self.max_history_items = limit;
                TrayCommand::Send(TrayEvent::SetHistoryLimit(limit))
            },
            MenuAction::ToggleAutostart => TrayCommand::SetAutostart(!self.autostart),
        }
    }

    /// Takes note that autostart was switched on or off.
    pub fn autostart_changed(&mut self, enabled: bool)
        ensures
            final(self)@ == (TrayModel { autostart: enabled, ..old(self)@ }),
    {
        self.autostart = enabled;
    }
}

// ---------------------------------------------------------------------------
// Laws
// ---------------------------------------------------------------------------

/// A flash ends with its own number, and the end of an earlier flash does not cut a
/// later one short.
pub proof fn flashes_end_in_time(tray: TrayModel)
    ensures
        ({
            let first = flash_started(tray);
            let second = flash_started(first);
            &&& !flash_ended(first, first.flash_generation).flashing
            &&& flash_ended(second, first.flash_generation) == second
            &&& second.flashing
            &&& !flash_ended(second, second.flash_generation).flashing
        }),
{
}

/// Whatever limit the menu offers, choosing it puts the check mark there, and there
/// alone.
pub proof fn chosen_limit_is_checked(tray: TrayModel, menu: Seq<MenuEntry>, i: int, k: int)
    requires
        0 <= i < limit_options().len(),
        0 <= k < limit_options().len(),
        is_menu_of(menu, tray_after(tray, MenuAction::SetHistoryLimit(limit_options()[i]))),
    ensures
        menu[3] matches MenuEntry::SubMenu { label, entries } && entries[k].checked == (i == k),
{
    let after = tray_after(tray, MenuAction::SetHistoryLimit(limit_options()[i]));
    let entries = menu[3]->entries;
    assert(is_limit_entry(entries[k], limit_options()[k], after.max_history_items));
}

/// The icon is drawn on a grid of 24 by 24, to a quarter of a cell: a coordinate is the
/// pixel nearest to its place on the grid, and a stroke is a cell and a half wide, but at
/// least a pixel.
pub proof fn coordinates_are_nearest(quarters: nat, size: nat)
    requires
        quarters <= 96,
        0 < size <= 23170,
    ensures
        96 * icon_coordinate(quarters, size) <= quarters * size + 48,
        quarters * size <= 96 * icon_coordinate(quarters, size) + 48,
        16 * stroke_width(size) <= size + 8 || stroke_width(size) == 1,
        size <= 16 * stroke_width(size) + 8,
        stroke_width(size) >= 1,
{
    lemma2_to64();
    lemma_pow2_strictly_increases(24, 128);
    assert(size * quarters <= 23170 * 96) by (nonlinear_arith)
        requires
            size <= 23170,
            quarters <= 96,
    ;
    assert(size * quarters == quarters * size) by (nonlinear_arith);
    scaled_quotients_are_nearest(size, 24, quarters, 4);
    let at = icon_coordinate(quarters, size);
    assert(at * (24 * 4) == 96 * at) by (nonlinear_arith);
    scaled_quotients_are_nearest(size, 24, 3, 2);
}

/// Three light lines of text, of which the first is the longest, and a turquoise arrow that
/// points down beside the others, in quarters of a cell of the grid.
pub proof fn the_icon_is_text_and_an_arrow()
    ensures
        ({
            let strokes = icon_strokes();
            &&& strokes.len() == 6
            &&& forall|i: int|
                0 <= i < 3 ==> (#[trigger] strokes[i]).start.0 == 12 && strokes[i].start.1
                    == 18 * (i + 1) && strokes[i].end.1 == strokes[i].start.1
            &&& strokes[0].end.0 == 69 && strokes[1].end.0 == 51 && strokes[2].end.0 == 51
            &&& strokes[3].start == (69nat, 36nat) && strokes[3].end == (69nat, 84nat)
            &&& strokes[4].start == strokes[3].end && strokes[5].start == strokes[3].end
            &&& strokes[4].end == (54nat, 69nat) && strokes[5].end == (84nat, 69nat)
        }),
{
}

/// A pixel of the icon is turquoise where the arrow covers it, light where only the text
/// does, and transparent elsewhere.
pub proof fn icon_pixels_have_three_colors(size: int, x: int, y: int, channel: int)
    requires
        on_canvas(size, x, y),
        0 <= channel < 4,
    ensures
        icon_bytes(size).len() == 4 * (size * size),
        ({
            let byte = icon_bytes(size)[pixel_offset(size, x, y) + channel];
            let strokes = icon_strokes();
            if exists|i: int|
                3 <= i < 6 && #[trigger] stroke_covers(strokes[i], size as nat, x, y) {
                byte == seq![255u8, 0, 199, 183][channel]
            } else if exists|i: int|
                0 <= i < 3 && #[trigger] stroke_covers(strokes[i], size as nat, x, y) {
                byte == seq![255u8, 232, 232, 232][channel]
            } else {
                byte == 0
            }
        }),
{
    let n = size as nat;
    let blank = blank_canvas(size);
    let strokes = icon_strokes();
    let at = pixel_offset(size, x, y) + channel;
    assert(0 <= y * size && y * size + x < size * size) by (nonlinear_arith)
        requires
            0 <= x < size,
            0 <= y < size,
    ;
    assert(with_strokes(blank, n, strokes.take(0)) == blank);
    lemma_stroke_pixel(size, blank, 0, x, y, channel);
    lemma_stroke_pixel(size, blank, 1, x, y, channel);
    lemma_stroke_pixel(size, blank, 2, x, y, channel);
    lemma_stroke_pixel(size, blank, 3, x, y, channel);
    lemma_stroke_pixel(size, blank, 4, x, y, channel);
    lemma_stroke_pixel(size, blank, 5, x, y, channel);
    assert(strokes.take(6) =~= strokes);
    assert(blank[at] == 0);
    assert(strokes[0].color == light() && strokes[1].color == light() && strokes[2].color
        == light());
    assert(strokes[3].color == turquoise() && strokes[4].color == turquoise() && strokes[5].color
        == turquoise());
}

proof fn lemma_stroke_pixel(
    size: int,
    canvas: Seq<u8>,
    count: int,
    x: int,
    y: int,
    channel: int,
)
    requires
        on_canvas(size, x, y),
        0 <= channel < 4,
        0 <= count < 6,
        with_strokes(canvas, size as nat, icon_strokes().take(count)).len() == 4 * (size * size),
    ensures
        ({
            let before = with_strokes(canvas, size as nat, icon_strokes().take(count));
            let after = with_strokes(canvas, size as nat, icon_strokes().take(count + 1));
            let stroke = icon_strokes()[count];
            let at = pixel_offset(size, x, y) + channel;
            &&& after.len() == 4 * (size * size)
            &&& after[at] == if stroke_covers(stroke, size as nat, x, y) {
                stroke.color[channel]
            } else {
                before[at]
            }
        }),
{
    let before = with_strokes(canvas, size as nat, icon_strokes().take(count));
    let stroke = icon_strokes()[count];
    lemma_first_strokes(size as nat, canvas, count);
    painting_fills_the_covered_pixels(
        before,
        size,
        stroke.color,
        |px: int, py: int| stroke_covers(icon_strokes()[count], size as nat, px, py),
        x,
        y,
        channel,
    );
}

/// What is chosen in the menu is what its labels say: each limit is written out in its
/// entry, the limit in force in the label of the list, and autostart is switched from what
/// its check mark shows, which only the installed program offers.
pub proof fn the_menu_does_what_it_says(tray: TrayModel, menu: Seq<MenuEntry>)
    requires
        is_menu_of(menu, tray),
    ensures
        menu.len() == 5,
        menu[0] matches MenuEntry::Standard { label, action } && label@ == "Shutdown"@
            && command_of(tray, action) == TrayCommand::Exit && tray_after(tray, action) == tray,
        menu[1] matches MenuEntry::Standard { label, action } && label@ == "Clear history"@
            && command_of(tray, action) == TrayCommand::Send(TrayEvent::ClearHistory)
            && tray_after(tray, action) == tray,
        menu[2] matches MenuEntry::Standard { label, action } && label@ == "Configure shortcut"@
            && command_of(tray, action) == TrayCommand::Send(TrayEvent::ConfigureShortcut)
            && tray_after(tray, action) == tray,
        menu[3] matches MenuEntry::SubMenu { label, entries } && label@.take(11)
            == "Max items: "@ && numeral_value(label@.skip(11)) == tray.max_history_items
            && entries.len() == 5 && forall|i: int|
            0 <= i < 5 ==> {
                let limit = seq![50usize, 100, 255, 500, 1000][i];
                let entry = #[trigger] entries[i];
                &&& numeral_value(entry.label@) == limit
                &&& entry.enabled
                &&& entry.checked <==> tray.max_history_items == limit
                &&& command_of(tray, entry.action) == TrayCommand::Send(
                    TrayEvent::SetHistoryLimit(limit),
                )
                &&& tray_after(tray, entry.action) == (TrayModel {
                    max_history_items: limit,
                    ..tray
                })
            },
        menu[4] matches MenuEntry::Check(entry) && entry.label@ == "Autostart"@ && (entry.enabled
            <==> tray.installed) && (entry.checked <==> tray.autostart) && command_of(
            tray,
            entry.action,
        ) == TrayCommand::SetAutostart(!entry.checked) && tray_after(tray, entry.action) == tray,
{
    reveal_strlit("Max items: ");
    decimal_reads_back(tray.max_history_items as nat);
    if let MenuEntry::SubMenu { label, entries } = menu[3] {
        assert(label@.take(11) =~= "Max items: "@);
        assert(label@.skip(11) =~= decimal(tray.max_history_items as nat));
        assert forall|i: int| 0 <= i < 5 implies numeral_value((#[trigger] entries[i]).label@)
            == seq![50usize, 100, 255, 500, 1000][i] by {
            decimal_reads_back(limit_options()[i] as nat);
        }
        assert(limit_options() =~= seq![50usize, 100, 255, 500, 1000]);
    }
}

/// The icon has no name while it flashes, so that its pixels are shown. Otherwise it is the
/// file that an installation puts there, or goes by its name in the theme.
pub proof fn the_icon_is_the_installed_one(home: Seq<u8>, data_dir: Seq<u8>)
    ensures
        icon_name_of(true, Some(data_dir)).len() == 0,
        icon_name_of(true, None).len() == 0,
        icon_name_of(false, Some(data_dir)) == lossy_text(paths_in(home, data_dir).icon),
        icon_name_of(false, None) == "com.github.jax.ClipboardHistory"@ + "-symbolic"@,
{
}

/// A flash that is followed by another does not end that one; each begins with a number of
/// its own.
pub proof fn flashes_do_not_end_each_other(tray: TrayModel, generation: u64)
    ensures
        flash_started(tray).flashing,
        flash_started(tray).flash_generation != tray.flash_generation,
        generation != tray.flash_generation ==> flash_ended(tray, generation) == tray,
        !flash_ended(tray, tray.flash_generation).flashing,
        flash_started(tray).max_history_items == tray.max_history_items,
        flash_started(tray).autostart == tray.autostart,
        flash_started(tray).installed == tray.installed,
{
}

} // verus!
