//! What the window does with the messages of the system.
//!
//! Every message changes the state and gives a list of commands, which are carried
//! out in their order. Where a command has a result, the result comes back by a
//! function of its own.

use vstd::arithmetic::power2::{lemma2_to64, lemma2_to64_rest, lemma_pow2_pos, pow2};
use vstd::prelude::*;
use crate::arith::{integer, law_integer_arithmetic, law_whole_arithmetic, law_whole_part, lemma_integer_exact, lemma_product_near, lemma_whole_near, lemma_whole_unique, of_integer, unit};
use crate::commands::{mode_size, pinned_as, remembered, size_of};
use crate::guardian::{at_rest, input_from, Alert, Guardian};
use crate::history::point_of;
use crate::layout::{Action, Quantity};
use crate::metrics::AppState;
use crate::num::{lemma_named_patterns, num, num_of, Num, HUNDRED, HUNDRED_TWENTY, ONE, THIRTY, ZERO};
use crate::settings::{law_held_thresholds, law_loaded_settings_are_valid, law_mode_names, loaded, mode_of, mode_text, Mode, Parsed, Settings, Thresholds};
use crate::single::law_integer_single;
use crate::ui::{action_at, hit, hover_changed, row_at, row_under, UiState};

verus! {

/// The timer of the readings, and how many milliseconds lie between two of its
/// ticks.
pub const TIMER_METRICS: u64 = 1;

pub const METRICS_MS: u32 = 2500;

/// Height of the header in logical pixels.
pub const HEADER_H: i64 = 36;

/// How near to an edge of the screen the window snaps to it, in pixels.
pub const SNAP: i32 = 16;

/// All that the window works with.
pub struct App {
    pub state: AppState,
    pub ui: UiState,
    pub scale: Num,
    /// The mouse in logical pixels.
    pub mouse: (Num, Num),
    /// Whether the system tells when the mouse leaves the window.
    pub tracking: bool,
    pub guardian: Guardian,
}

// --- Messages ----------------------------------------------------------------

#[derive(Clone, Copy, Debug, PartialEq, Eq, Structural)]
pub enum Message {
    EraseBackground,
    HitTest,
    Paint,
    Size,
    Timer,
    Hotkey,
    MouseMove,
    MouseLeave,
    ButtonDown,
    Close,
    DragEnded,
    Destroy,
    Tray,
    Other,
}

/// The message with a number of the system.
pub open spec fn message_of(msg: u32) -> Message {
    if msg == 0x0014 {
        Message::EraseBackground
    } else if msg == 0x0084 {
        Message::HitTest
    } else if msg == 0x000f {
        Message::Paint
    } else if msg == 0x0005 {
        Message::Size
    } else if msg == 0x0113 {
        Message::Timer
    } else if msg == 0x0312 {
        Message::Hotkey
    } else if msg == 0x0200 {
        Message::MouseMove
    } else if msg == 0x02a3 {
        Message::MouseLeave
    } else if msg == 0x0201 {
        Message::ButtonDown
    } else if msg == 0x0010 {
        Message::Close
    } else if msg == 0x0232 {
        Message::DragEnded
    } else if msg == 0x0002 {
        Message::Destroy
    } else if msg == 0x8001 {
        Message::Tray
    } else {
        Message::Other
    }
}

/// The message with a number of the system.
pub fn message(msg: u32) -> (r: Message)
    ensures
        r == message_of(msg),
{
    if msg == 0x0014 {
        Message::EraseBackground
    } else if msg == 0x0084 {
        Message::HitTest
    } else if msg == 0x000f {
        Message::Paint
    } else if msg == 0x0005 {
        Message::Size
    } else if msg == 0x0113 {
        Message::Timer
    } else if msg == 0x0312 {
        Message::Hotkey
    } else if msg == 0x0200 {
        Message::MouseMove
    } else if msg == 0x02a3 {
        Message::MouseLeave
    } else if msg == 0x0201 {
        Message::ButtonDown
    } else if msg == 0x0010 {
        Message::Close
    } else if msg == 0x0232 {
        Message::DragEnded
    } else if msg == 0x0002 {
        Message::Destroy
    } else if msg == 0x8001 {
        Message::Tray
    } else {
        Message::Other
    }
}

/// What the system is answered.
#[derive(Clone, Copy, Debug, PartialEq, Eq, Structural)]
pub enum Reply {
    /// The message is dealt with.
    Done,
    /// The background counts as erased.
    Erased,
    /// The point belongs to the part by which the window is dragged.
    Caption,
    /// The point belongs to the contents.
    Client,
    /// The system deals with the message.
    Default,
}

/// What is to be done.
#[derive(Clone, Copy, Debug, PartialEq, Eq, Structural)]
pub enum Command {
    /// Draw the window.
    Paint,
    /// Give the drawing surface the size of the window.
    ResizeSurface,
    /// Have the window drawn again.
    Invalidate,
    Show,
    Foreground,
    Hide,
    /// Give the window a size in pixels.
    Resize { width: i32, height: i32 },
    Topmost { pinned: bool },
    /// Have the system tell when the mouse leaves the window. Where it agrees, the
    /// tracking has started.
    TrackLeave,
    /// Look where the window lies, and go on with the end of the drag.
    LookAtWindow,
    MoveTo { x: i32, y: i32 },
    /// Read the position of the window, which has come to rest.
    ReadPosition,
    Notify { alert: Alert },
    SaveSettings,
    /// Ask whether to end a process.
    ConfirmKill { pid: u32 },
    KillProcess { pid: u32 },
    OpenMenu,
    DestroyWindow,
    RemoveTray,
    PostQuit,
}

// --- Parameters of messages --------------------------------------------------

/// The lower and the upper half of the lower 32 bits of a parameter.
pub open spec fn low_word(param: u64) -> int {
    param as int % 0x10000
}

pub open spec fn high_word(param: u64) -> int {
    (param as int / 0x10000) % 0x10000
}

/// 16 bits as a number of either sign.
pub open spec fn signed16(word: int) -> int {
    if word >= 0x8000 {
        word - 0x10000
    } else {
        word
    }
}

fn signed(word: u64) -> (r: i64)
    requires
        word < 0x10000,
    ensures
        r == signed16(word as int),
{
    if word >= 0x8000 {
        word as i64 - 0x10000
    } else {
        word as i64
    }
}

/// The point that a parameter holds. Its numbers are negative on screens to the
/// left of or above the first.
pub fn point_in(param: u64) -> (r: (i32, i32))
    ensures
        r.0 == signed16(low_word(param)),
        r.1 == signed16(high_word(param)),
{
    (signed(param % 0x10000) as i32, signed((param / 0x10000) % 0x10000) as i32)
}

/// A pixel in logical pixels.
#[verifier::opaque]
pub open spec fn logical(n: int, scale: Num) -> Num {
    of_integer(n).single().quotient32(scale)
}

pub open spec fn mouse_at(param: u64, scale: Num) -> (Num, Num) {
    (logical(signed16(low_word(param)), scale), logical(signed16(high_word(param)), scale))
}

fn in_logical(n: i32, scale: Num) -> (r: Num)
    ensures
        r == logical(n as int, scale),
{
    proof {
        reveal(logical);
    }
    integer(n as i64).to_single().over32(scale)
}

fn mouse_in(param: u64, scale: Num) -> (r: (Num, Num))
    ensures
        r == mouse_at(param, scale),
{
    let (x, y) = point_in(param);
    (in_logical(x, scale), in_logical(y, scale))
}

/// Logical pixels in whole pixels.
pub open spec fn physical(v: u32, scale: Num) -> int {
    of_integer(v as int).product(scale).nearest_whole().whole_part(i32::MIN as int, i32::MAX as int)
}

/// Logical pixels in whole pixels.
pub fn logical_to_physical(v: u32, scale: Num) -> (r: i32)
    ensures
        r == physical(v, scale),
{
    integer(v as i64).times(scale).round().to_whole(i32::MIN as i64, i32::MAX as i64) as i32
}

// --- The header --------------------------------------------------------------

/// Whether a pixel of the contents belongs to the part by which the window is
/// dragged: the header, unless the settings lie over it, and but for what answers to
/// clicks.
pub open spec fn drags(app: App, x: int, y: int) -> bool {
    &&& of_integer(y).single().below(of_integer(HEADER_H as int).product32(app.scale))
    &&& !app.ui.show_settings
    &&& action_at(app.ui.hits@, logical(x, app.scale), logical(y, app.scale)) is None
}

/// Which part of the window a pixel of the contents belongs to.
pub open spec fn part_at(app: App, x: int, y: int) -> Reply {
    if drags(app, x, y) {
        Reply::Caption
    } else {
        Reply::Client
    }
}

fn hit_test(app: &App, x: i32, y: i32) -> (r: Reply)
    ensures
        r == part_at(*app, x as int, y as int),
{
    let pressed = hit(&app.ui, in_logical(x, app.scale), in_logical(y, app.scale));
    let header = integer(HEADER_H).times32(app.scale);
    if integer(y as i64).to_single().lt(header) && !app.ui.show_settings && pressed.is_none() {
        Reply::Caption
    } else {
        Reply::Client
    }
}

/// The answer while the window is being made and has no state yet.
pub fn early_reply(message: Message) -> (r: Reply)
    ensures
        r == (match message {
            Message::EraseBackground => Reply::Erased,
            Message::HitTest => Reply::Client,
            _ => Reply::Default,
        }),
{
    match message {
        Message::EraseBackground => Reply::Erased,
        Message::HitTest => Reply::Client,
        _ => Reply::Default,
    }
}

/// The size of the drawing surface for the lower right corner of the contents: at
/// least one pixel.
pub fn surface_size(right: i32, bottom: i32) -> (r: (u32, u32))
    ensures
        r.0 == (if right > 1 {
            right as int
        } else {
            1
        }),
        r.1 == (if bottom > 1 {
            bottom as int
        } else {
            1
        }),
{
    (
        if right > 1 {
            right as u32
        } else {
            1
        },
        if bottom > 1 {
            bottom as u32
        } else {
            1
        },
    )
}

// --- Visibility and mode -----------------------------------------------------

impl App {
    /// The state with the readings of the latest snapshot in the history.
    pub open spec fn recorded(self, next: App) -> bool {
        &&& next.ui.history@ == self.ui.history@.with(point_of(self.state.snapshot@))
        &&& next == (App { ui: UiState { history: next.ui.history, ..self.ui }, ..self })
    }

    /// Puts the readings of the latest snapshot into the history.
    pub fn push_metrics(&mut self)
        ensures
            old(self).recorded(*final(self)),
    {
        self.ui.history.push_metrics(&self.state.snapshot);
    }
}

pub open spec fn visible_commands(visible: bool) -> Seq<Command> {
    if visible {
        seq![Command::Show, Command::Foreground, Command::Invalidate]
    } else {
        seq![Command::Hide]
    }
}

/// The state with the window shown or hidden.
pub open spec fn with_visible(app: App, visible: bool) -> App {
    App { state: AppState { visible, ..app.state }, ..app }
}

pub open spec fn visibility_set(app: App, visible: bool, next: App) -> bool {
    if visible {
        with_visible(app, true).recorded(next)
    } else {
        next == with_visible(app, false)
    }
}

/// Shows or hides the window. One that appears takes the latest readings in.
pub fn set_visible(app: &mut App, visible: bool) -> (r: Vec<Command>)
    ensures
        visibility_set(*old(app), visible, *final(app)),
        r@ == visible_commands(visible),
{
    app.state.visible = visible;
    let mut out: Vec<Command> = Vec::new();
    if visible {
        out.push(Command::Show);
        out.push(Command::Foreground);
        app.push_metrics();
        out.push(Command::Invalidate);
    } else {
        out.push(Command::Hide);
    }
    assert(out@ == visible_commands(visible));
    out
}

pub open spec fn mode_commands(current: Mode, mode: Mode, scale: Num) -> Seq<Command> {
    if current == mode {
        Seq::empty()
    } else {
        seq![
            Command::SaveSettings,
            Command::Resize {
                width: physical(size_of(mode).0, scale) as i32,
                height: physical(size_of(mode).1, scale) as i32,
            },
            Command::Invalidate,
        ]
    }
}

/// The state in another mode, before readings are taken in.
pub open spec fn with_mode(app: App, mode: Mode, name: String) -> App {
    App {
        state: AppState { mode, settings: Settings { mode: name, ..app.state.settings }, ..app.state },
        ui: UiState { mode, ..app.ui },
        ..app
    }
}

pub open spec fn mode_set(app: App, mode: Mode, next: App) -> bool {
    if app.ui.mode == mode {
        next == app
    } else {
        let name = next.state.settings.mode;
        &&& name@ == mode_text(mode)
        &&& if mode == Mode::Dev || mode == Mode::Procs {
            with_mode(app, mode, name).recorded(next)
        } else {
            next == with_mode(app, mode, name)
        }
    }
}

/// Changes the display mode: remembers it, and gives the window its size. The
/// modes with the list of processes take the latest readings in.
pub fn set_mode(app: &mut App, mode: Mode) -> (r: Vec<Command>)
    ensures
        mode_set(*old(app), mode, *final(app)),
        r@ == mode_commands(old(app).ui.mode, mode, old(app).scale),
{
    let mut out: Vec<Command> = Vec::new();
    if app.ui.mode == mode {
        return out;
    }
    app.ui.mode = mode;
    app.state.mode = mode;
    app.state.settings.mode = mode.name().to_owned();
    out.push(Command::SaveSettings);
    let (w, h) = mode_size(mode.name());
    proof {
        law_mode_names(mode, "mini"@);
        law_mode_names(Mode::Mini, "mini"@);
    }
    out.push(
        Command::Resize {
            width: logical_to_physical(w, app.scale),
            height: logical_to_physical(h, app.scale),
        },
    );
    if mode == Mode::Dev || mode == Mode::Procs {
        app.push_metrics();
    }
    out.push(Command::Invalidate);
    assert(out@ == mode_commands(old(app).ui.mode, mode, old(app).scale));
    out
}

/// Remembers the present mode and pin.
pub fn persist(app: &mut App) -> (r: Vec<Command>)
    ensures
        final(app).state.settings.mode@ == mode_text(old(app).ui.mode),
        *final(app) == (App {
            state: AppState {
                settings: Settings {
                    mode: final(app).state.settings.mode,
                    pinned: old(app).state.pinned,
                    ..old(app).state.settings
                },
                ..old(app).state
            },
            ..*old(app)
        }),
        r@ == seq![Command::SaveSettings],
{
    app.state.settings.mode = app.ui.mode.name().to_owned();
    app.state.settings.pinned = app.state.pinned;
    let mut out: Vec<Command> = Vec::new();
    out.push(Command::SaveSettings);
    assert(out@ == seq![Command::SaveSettings]);
    out
}

// --- Actions -----------------------------------------------------------------

pub open spec fn threshold_of(t: Thresholds, of: Quantity) -> Num {
    match of {
        Quantity::Cpu => t.cpu,
        Quantity::Ram => t.ram,
        Quantity::Gpu => t.gpu,
        Quantity::Temp => t.temp,
    }
}

/// The thresholds with one of them put to a value, held in its range.
pub open spec fn threshold_set(t: Thresholds, of: Quantity, value: Num) -> Thresholds {
    (match of {
        Quantity::Cpu => Thresholds { cpu: value, ..t },
        Quantity::Ram => Thresholds { ram: value, ..t },
        Quantity::Gpu => Thresholds { gpu: value, ..t },
        Quantity::Temp => Thresholds { temp: value, ..t },
    }).held()
}

/// The thresholds after a step of a stepper.
pub open spec fn stepped(t: Thresholds, of: Quantity, delta: int) -> Thresholds {
    threshold_set(t, of, threshold_of(t, of).sum(of_integer(delta)))
}

fn step(t: Thresholds, of: Quantity, delta: i32) -> (r: Thresholds)
    ensures
        r == stepped(t, of, delta as int),
{
    let by = integer(delta as i64);
    let mut next = t;
    match of {
        Quantity::Cpu => {
            next.cpu = t.cpu.plus(by);
        },
        Quantity::Ram => {
            next.ram = t.ram.plus(by);
        },
        Quantity::Gpu => {
            next.gpu = t.gpu.plus(by);
        },
        Quantity::Temp => {
            next.temp = t.temp.plus(by);
        },
    }
    next.clamped()
}

pub open spec fn action_commands(app: App, action: Action) -> Seq<Command> {
    match action {
        Action::Close => visible_commands(false),
        Action::Pin => seq![
            Command::Topmost { pinned: !app.state.pinned },
            Command::SaveSettings,
            Command::Invalidate,
        ],
        Action::Mode(mode) => mode_commands(app.ui.mode, mode, app.scale),
        Action::Expand => mode_commands(app.ui.mode, Mode::Dev, app.scale),
        Action::Kill(pid) => seq![Command::ConfirmKill { pid }],
        Action::ToggleSettings => seq![Command::Invalidate],
        Action::Th(..) => seq![Command::SaveSettings, Command::Invalidate],
    }
}

pub open spec fn acted(app: App, action: Action, next: App) -> bool {
    match action {
        Action::Close => visibility_set(app, false, next),
        Action::Pin => next == (App {
            state: pinned_as(app.state, !app.state.pinned),
            ui: UiState { pinned: !app.state.pinned, ..app.ui },
            ..app
        }),
        Action::Mode(mode) => mode_set(app, mode, next),
        Action::Expand => mode_set(app, Mode::Dev, next),
        Action::Kill(_) => next == app,
        Action::ToggleSettings => next == (App {
            ui: UiState { show_settings: !app.ui.show_settings, ..app.ui },
            ..app
        }),
        Action::Th(of, delta) => next == (App {
            state: AppState {
                settings: Settings {
                    thresholds: stepped(app.state.settings.thresholds, of, delta as int),
                    ..app.state.settings
                },
                ..app.state
            },
            ..app
        }),
    }
}

/// Does what a click asks for.
pub fn handle_action(app: &mut App, action: Action) -> (r: Vec<Command>)
    ensures
        acted(*old(app), action, *final(app)),
        r@ == action_commands(*old(app), action),
{
    let mut out: Vec<Command> = Vec::new();
    match action {
        Action::Close => {
            return set_visible(app, false);
        },
        Action::Pin => {
            let pinned: bool = !app.state.pinned;
            out.push(Command::Topmost { pinned });
            app.state.pinned = pinned;
            app.state.settings.pinned = pinned;
            app.ui.pinned = pinned;
            out.push(Command::SaveSettings);
            out.push(Command::Invalidate);
        },
        Action::Mode(mode) => {
            return set_mode(app, mode);
        },
        Action::Expand => {
            return set_mode(app, Mode::Dev);
        },
        Action::Kill(pid) => {
            out.push(Command::ConfirmKill { pid });
        },
        Action::ToggleSettings => {
            app.ui.show_settings = !app.ui.show_settings;
            out.push(Command::Invalidate);
        },
        Action::Th(of, delta) => {
            app.state.settings.thresholds = step(app.state.settings.thresholds, of, delta);
            out.push(Command::SaveSettings);
            out.push(Command::Invalidate);
        },
    }
    assert(out@ == action_commands(*old(app), action));
    out
}

/// After the question whether to end a process: a yes ends it.
pub fn kill_answered(pid: u32, yes: bool) -> (r: Vec<Command>)
    ensures
        r@ == (if yes {
            seq![Command::KillProcess { pid }, Command::Invalidate]
        } else {
            Seq::empty()
        }),
{
    let mut out: Vec<Command> = Vec::new();
    if yes {
        out.push(Command::KillProcess { pid });
        out.push(Command::Invalidate);
        assert(out@ == seq![Command::KillProcess { pid }, Command::Invalidate]);
    }
    out
}

/// After the choice in the menu of the tray: the first entry shows or hides the
/// window, the second ends the program.
pub fn menu_chosen(app: &mut App, entry: i32) -> (r: Vec<Command>)
    ensures
        if entry == 1 {
            &&& visibility_set(*old(app), !old(app).state.visible, *final(app))
            &&& r@ == visible_commands(!old(app).state.visible)
        } else {
            &&& *final(app) == *old(app)
            &&& r@ == (if entry == 2 {
                seq![Command::DestroyWindow]
            } else {
                Seq::empty()
            })
        },
{
    let mut out: Vec<Command> = Vec::new();
    if entry == 1 {
        let show: bool = !app.state.visible;
        return set_visible(app, show);
    }
    if entry == 2 {
        out.push(Command::DestroyWindow);
        assert(out@ == seq![Command::DestroyWindow]);
    }
    out
}

// --- The mouse ---------------------------------------------------------------

/// What lies under the mouse has changed.
pub open spec fn hover_moved(app: App, mouse: (Num, Num)) -> bool {
    ||| action_at(app.ui.hits@, mouse.0, mouse.1) != app.ui.hover_btn
    ||| row_at(app.ui.rows@, mouse.0, mouse.1, 0) != (match app.ui.hover_row {
        Some(i) => Some(i as int),
        None => None,
    })
}

pub open spec fn move_commands(app: App, mouse: (Num, Num)) -> Seq<Command> {
    (if app.tracking {
        Seq::empty()
    } else {
        seq![Command::TrackLeave]
    }) + (if hover_moved(app, mouse) {
        seq![Command::Invalidate]
    } else {
        Seq::empty()
    })
}

fn mouse_moved(app: &mut App, param: u64) -> (r: Vec<Command>)
    ensures
        ({
            let mouse = mouse_at(param, old(app).scale);
            let row = final(app).ui.hover_row;
            &&& r@ == move_commands(*old(app), mouse)
            &&& row_at(old(app).ui.rows@, mouse.0, mouse.1, 0) == (match row {
                Some(i) => Some(i as int),
                None => None,
            })
            &&& *final(app) == (App {
                mouse,
                ui: UiState { hover_row: row, ..old(app).ui },
                ..*old(app)
            })
        }),
{
    let mouse = mouse_in(param, app.scale);
    app.mouse = mouse;
    let mut out: Vec<Command> = Vec::new();
    if !app.tracking {
        out.push(Command::TrackLeave);
    }
    let row = row_under(&app.ui, mouse.0, mouse.1);
    let other_row: bool = match (row, app.ui.hover_row) {
        (Some(a), Some(b)) => a != b,
        (None, None) => false,
        _ => true,
    };
    let changed: bool = other_row || hover_changed(&app.ui, mouse.0, mouse.1);
    app.ui.hover_row = row;
    if changed {
        out.push(Command::Invalidate);
    }
    assert(out@ == move_commands(*old(app), mouse));
    out
}

/// The system will tell when the mouse leaves the window.
pub fn tracking_started(app: &mut App)
    ensures
        *final(app) == (App { tracking: true, ..*old(app) }),
{
    app.tracking = true;
}

// --- Dragging ----------------------------------------------------------------

/// The window on the screen, in pixels.
#[derive(Clone, Copy, Debug, PartialEq, Eq, Structural)]
pub struct WindowRect {
    pub left: i32,
    pub top: i32,
    pub right: i32,
    pub bottom: i32,
}

pub open spec fn near(n: int) -> bool {
    -SNAP <= n <= SNAP
}

/// Where a window from `from` to `to` comes to rest on a screen of the given
/// length: at an edge that it is near to. The far edge wins.
pub open spec fn snapped(from: int, to: int, length: int) -> int {
    if near(length - to) {
        length - (to - from)
    } else if near(from) {
        0
    } else {
        from
    }
}

pub open spec fn fits(n: int) -> bool {
    i32::MIN <= n <= i32::MAX
}

/// The distances to the edges of the screen can be told.
pub open spec fn measurable(from: int, to: int, length: int) -> bool {
    &&& i32::MIN < from
    &&& i32::MIN < length - to <= i32::MAX
    &&& near(length - to) ==> fits(to - from) && fits(length - (to - from))
}

fn snap(from: i32, to: i32, length: i32) -> (r: i32)
    requires
        measurable(from as int, to as int, length as int),
    ensures
        r == snapped(from as int, to as int, length as int),
{
    let gap: i32 = length - to;
    if -SNAP <= gap && gap <= SNAP {
        length - (to - from)
    } else if -SNAP <= from && from <= SNAP {
        0
    } else {
        from
    }
}

/// Where the window comes to rest after a drag on a screen of the given size.
pub fn snap_edge(window: &WindowRect, width: i32, height: i32) -> (r: (i32, i32))
    requires
        measurable(window.left as int, window.right as int, width as int),
        measurable(window.top as int, window.bottom as int, height as int),
    ensures
        r.0 == snapped(window.left as int, window.right as int, width as int),
        r.1 == snapped(window.top as int, window.bottom as int, height as int),
{
    (snap(window.left, window.right, width), snap(window.top, window.bottom, height))
}

/// The end of a drag: the window moves to where it comes to rest, and its position
/// is read.
pub fn drag_ended(window: &WindowRect, width: i32, height: i32) -> (r: Vec<Command>)
    requires
        measurable(window.left as int, window.right as int, width as int),
        measurable(window.top as int, window.bottom as int, height as int),
    ensures
        ({
            let x = snapped(window.left as int, window.right as int, width as int) as i32;
            let y = snapped(window.top as int, window.bottom as int, height as int) as i32;
            r@ == (if x == window.left && y == window.top {
                seq![Command::ReadPosition]
            } else {
                seq![Command::MoveTo { x, y }, Command::ReadPosition]
            })
        }),
{
    let (x, y) = snap_edge(window, width, height);
    let mut out: Vec<Command> = Vec::new();
    if x != window.left || y != window.top {
        out.push(Command::MoveTo { x, y });
    }
    out.push(Command::ReadPosition);
    out
}

/// Remembers where the window has come to rest.
pub fn settled(app: &mut App, x: i32, y: i32) -> (r: Vec<Command>)
    ensures
        *final(app) == (App {
            state: AppState {
                settings: Settings { x: Some(x), y: Some(y), ..old(app).state.settings },
                ..old(app).state
            },
            ..*old(app)
        }),
        r@ == seq![Command::SaveSettings],
{
    app.state.settings.x = Some(x);
    app.state.settings.y = Some(y);
    let mut out: Vec<Command> = Vec::new();
    out.push(Command::SaveSettings);
    assert(out@ == seq![Command::SaveSettings]);
    out
}

/// A window smaller than the screen comes to rest where it is no longer near to an
/// edge without touching it, and a second drag to the same place moves it no more.
pub proof fn law_snapped_windows_rest(from: int, to: int, length: int)
    requires
        from <= to,
        to - from + 2 * SNAP < length,
    ensures
        ({
            let at = snapped(from, to, length);
            let end = at + (to - from);
            &&& at == 0 || end == length || (!near(at) && !near(length - end))
            &&& near(from) ==> at == 0
            &&& near(length - to) ==> end == length
            &&& snapped(at, end, length) == at
        }),
{
}

// --- All messages ------------------------------------------------------------

/// The commands of one tick: the alerts, and a new drawing.
pub open spec fn notices(alerts: Seq<Alert>) -> Seq<Command> {
    alerts.map_values(|alert: Alert| Command::Notify { alert })
}

pub open spec fn tray_click(param: u64) -> bool {
    low_word(param) == 0x0202
}

pub open spec fn tray_menu_click(param: u64) -> bool {
    low_word(param) == 0x0205
}

pub open spec fn replied(app: App, message: Message, point: (i32, i32)) -> Reply {
    match message {
        Message::EraseBackground => Reply::Erased,
        Message::HitTest => part_at(app, point.0 as int, point.1 as int),
        Message::Other => Reply::Default,
        _ => Reply::Done,
    }
}

pub open spec fn commanded(app: App, message: Message, wparam: u64, lparam: u64, now: u64) -> Seq<Command> {
    match message {
        Message::Paint => seq![Command::Paint],
        Message::Size => seq![Command::ResizeSurface, Command::Invalidate],
        Message::Timer => if wparam == TIMER_METRICS && app.state.visible {
            notices(
                app.guardian.alerts(
                    input_from(app.state.snapshot@, app.state.settings.thresholds),
                    now,
                ),
            ).push(Command::Invalidate)
        } else {
            Seq::empty()
        },
        Message::Hotkey => visible_commands(!app.state.visible),
        Message::MouseMove => move_commands(app, mouse_at(lparam, app.scale)),
        Message::MouseLeave => seq![Command::Invalidate],
        Message::ButtonDown => {
            let mouse = mouse_at(lparam, app.scale);
            match action_at(app.ui.hits@, mouse.0, mouse.1) {
                Some(action) => action_commands(App { mouse, ..app }, action),
                None => Seq::empty(),
            }
        },
        Message::Close => visible_commands(false),
        Message::DragEnded => seq![Command::LookAtWindow],
        Message::Destroy => seq![Command::RemoveTray, Command::PostQuit],
        Message::Tray => if tray_click(lparam) {
            visible_commands(!app.state.visible)
        } else if tray_menu_click(lparam) {
            seq![Command::OpenMenu]
        } else {
            Seq::empty()
        },
        _ => Seq::empty(),
    }
}

pub open spec fn handled(app: App, message: Message, wparam: u64, lparam: u64, now: u64, next: App) -> bool {
    match message {
        Message::Timer => if wparam == TIMER_METRICS && app.state.visible {
            let input = input_from(app.state.snapshot@, app.state.settings.thresholds);
            (App { guardian: app.guardian.after(input, now), ..app }).recorded(next)
        } else {
            next == app
        },
        Message::Hotkey => visibility_set(app, !app.state.visible, next),
        Message::MouseMove => {
            let mouse = mouse_at(lparam, app.scale);
            let row = next.ui.hover_row;
            &&& row_at(app.ui.rows@, mouse.0, mouse.1, 0) == (match row {
                Some(i) => Some(i as int),
                None => None,
            })
            &&& next == (App { mouse, ui: UiState { hover_row: row, ..app.ui }, ..app })
        },
        Message::MouseLeave => next == (App {
            tracking: false,
            ui: UiState { hover_row: None, hover_btn: None, ..app.ui },
            ..app
        }),
        Message::ButtonDown => {
            let mouse = mouse_at(lparam, app.scale);
            let moved = App { mouse, ..app };
            match action_at(app.ui.hits@, mouse.0, mouse.1) {
                Some(action) => acted(moved, action, next),
                None => next == moved,
            }
        },
        Message::Close => visibility_set(app, false, next),
        Message::Tray => if tray_click(lparam) {
            visibility_set(app, !app.state.visible, next)
        } else {
            next == app
        },
        _ => next == app,
    }
}

/// Deals with a message. For a test of a point, `point` is the pixel of the contents;
/// `now` is the time in milliseconds.
#[verifier::rlimit(40)]
pub fn wndproc(
    app: &mut App,
    message: Message,
    wparam: u64,
    lparam: u64,
    point: (i32, i32),
    now: u64,
) -> (r: (Reply, Vec<Command>))
    requires
        old(app).guardian.counting(),
    ensures
        r.0 == replied(*old(app), message, point),
        r.1@ == commanded(*old(app), message, wparam, lparam, now),
        handled(*old(app), message, wparam, lparam, now, *final(app)),
{
    let mut out: Vec<Command> = Vec::new();
    match message {
        Message::EraseBackground => {
            return (Reply::Erased, out);
        },
        Message::HitTest => {
            return (hit_test(app, point.0, point.1), out);
        },
        Message::Paint => {
            out.push(Command::Paint);
        },
        Message::Size => {
            out.push(Command::ResizeSurface);
            out.push(Command::Invalidate);
        },
        Message::Timer => {
            if wparam == TIMER_METRICS && app.state.visible {
                app.push_metrics();
                let alerts = app.guardian.check(&app.state, now);
                let mut i: usize = 0;
                while i < alerts.len()
                    invariant
                        i <= alerts.len(),
                        out@ == notices(alerts@).take(i as int),
                    decreases alerts.len() - i,
                {
                    out.push(Command::Notify { alert: alerts[i] });
                    assert(out@ == notices(alerts@).take(i + 1));
                    i = i + 1;
                }
                assert(notices(alerts@).take(i as int) == notices(alerts@));
                out.push(Command::Invalidate);
            }
        },
        Message::Hotkey => {
            let show: bool = !app.state.visible;
            out = set_visible(app, show);
        },
        Message::MouseMove => {
            out = mouse_moved(app, lparam);
        },
        Message::MouseLeave => {
            app.tracking = false;
            app.ui.hover_row = None;
            app.ui.hover_btn = None;
            out.push(Command::Invalidate);
        },
        Message::ButtonDown => {
            let mouse = mouse_in(lparam, app.scale);
            app.mouse = mouse;
            match hit(&app.ui, mouse.0, mouse.1) {
                Some(action) => {
                    out = handle_action(app, action);
                },
                None => {},
            }
        },
        Message::Close => {
            out = set_visible(app, false);
        },
        Message::DragEnded => {
            out.push(Command::LookAtWindow);
        },
        Message::Destroy => {
            out.push(Command::RemoveTray);
            out.push(Command::PostQuit);
        },
        Message::Tray => {
            let click: u64 = lparam % 0x10000;
            if click == 0x0202 {
                let show: bool = !app.state.visible;
                out = set_visible(app, show);
            } else if click == 0x0205 {
                out.push(Command::OpenMenu);
            }
        },
        Message::Other => {
            return (Reply::Default, out);
        },
    }
    assert(out@ == commanded(*old(app), message, wparam, lparam, now));
    (Reply::Done, out)
}

// --- Start -------------------------------------------------------------------

/// The mode to start in.
pub fn start_mode(name: &str) -> (r: Mode)
    ensures
        r == (match mode_of(name@) {
            Some(mode) => mode,
            None => Mode::Dev,
        }),
{
    match Mode::named(name) {
        Some(mode) => mode,
        None => Mode::Dev,
    }
}

/// Where the window starts: where it was left, else in the upper right corner of a
/// screen of the given width.
pub fn start_position(settings: &Settings, screen_width: i32, window_width: i32) -> (r: (i32, i32))
    requires
        settings.x is None || settings.y is None ==> fits(screen_width - window_width) && fits(
            screen_width - window_width - 24,
        ),
    ensures
        r == (match (settings.x, settings.y) {
            (Some(x), Some(y)) => (x, y),
            _ => ((screen_width - window_width - 24) as i32, 96i32),
        }),
{
    match (settings.x, settings.y) {
        (Some(x), Some(y)) => (x, y),
        _ => (screen_width - window_width - 24, 96),
    }
}

impl App {
    /// The program at its start, with the settings it was left with.
    pub open spec fn started(self, loaded: Settings, scale: Num) -> bool {
        let mode = match mode_of(loaded.mode@) {
            Some(mode) => mode,
            None => Mode::Dev,
        };
        &&& self.state.settings == loaded
        &&& self.state.mode == mode
        &&& self.ui.mode == mode
        &&& self.state.pinned == loaded.pinned
        &&& self.ui.pinned == loaded.pinned
        &&& self.state.visible
        &&& self.state.unmeasured()
        &&& self.ui.blank()
        &&& self.scale == scale
        &&& self.mouse == (num_of(ZERO), num_of(ZERO))
        &&& !self.tracking
        &&& self.guardian == (Guardian {
            cpu: at_rest(),
            temp: at_rest(),
            gpu: at_rest(),
            ram: at_rest(),
        })
    }

    /// The program at its start.
    pub fn start(loaded: Settings, scale: Num) -> (r: App)
        ensures
            r.started(loaded, scale),
    {
        let mode = start_mode(loaded.mode.as_str());
        let mut state = AppState::default();
        let mut ui = UiState::default();
        ui.mode = mode;
        ui.pinned = loaded.pinned;
        state.mode = mode;
        state.pinned = loaded.pinned;
        state.visible = true;
        state.settings = loaded;
        App {
            state,
            ui,
            scale,
            mouse: (num(ZERO), num(ZERO)),
            tracking: false,
            guardian: Guardian::default(),
        }
    }
}

/// Wherever a click does something, the window takes it: the point is not one by
/// which the window is dragged.
pub proof fn law_buttons_take_their_clicks(app: App, wparam: u64, lparam: u64, now: u64, action: Action)
    requires
        ({
            let mouse = mouse_at(lparam, app.scale);
            action_at(app.ui.hits@, mouse.0, mouse.1) == Some(action)
        }),
    ensures
        part_at(app, signed16(low_word(lparam)), signed16(high_word(lparam))) == Reply::Client,
        commanded(app, Message::ButtonDown, wparam, lparam, now) == action_commands(
            App { mouse: mouse_at(lparam, app.scale), ..app },
            action,
        ),
{
}

/// Closing the window hides it, and the hotkey brings it back: the program goes on.
pub proof fn law_closing_hides(app: App, wparam: u64, lparam: u64, now: u64, next: App)
    requires
        handled(app, Message::Close, wparam, lparam, now, next),
    ensures
        !next.state.visible,
        commanded(app, Message::Close, wparam, lparam, now) == seq![Command::Hide],
        commanded(next, Message::Hotkey, wparam, lparam, now) == seq![
            Command::Show,
            Command::Foreground,
            Command::Invalidate,
        ],
        forall|back: App|
            handled(next, Message::Hotkey, wparam, lparam, now, back) ==> back.state.visible,
{
}

/// While the window is hidden the timer does nothing.
pub proof fn law_hidden_window_rests(app: App, wparam: u64, lparam: u64, now: u64, next: App)
    requires
        !app.state.visible,
        handled(app, Message::Timer, wparam, lparam, now, next),
    ensures
        next == app,
        commanded(app, Message::Timer, wparam, lparam, now).len() == 0,
{
}

/// The window, the shared state and the preferences to be remembered agree on mode
/// and pin, and the thresholds make sense.
pub open spec fn in_step(app: App) -> bool {
    &&& app.ui.mode == app.state.mode
    &&& app.ui.pinned == app.state.pinned
    &&& remembered(app.state)
    &&& app.state.settings.thresholds.sensible()
}

/// Whatever the settings file holds, the program starts with window, shared state
/// and preferences in agreement.
pub proof fn law_start_is_in_step(file: Option<Parsed>, settings: Settings, scale: Num, app: App)
    requires
        settings@ == loaded(file),
        app.started(settings, scale),
    ensures
        in_step(app),
{
    law_loaded_settings_are_valid(file);
}

/// No message brings the window, the shared state and the preferences apart, or
/// leaves a threshold without sense.
#[verifier::rlimit(40)]
pub proof fn law_window_and_preferences_agree(
    app: App,
    message: Message,
    wparam: u64,
    lparam: u64,
    now: u64,
    next: App,
)
    requires
        in_step(app),
        handled(app, message, wparam, lparam, now, next),
    ensures
        in_step(next),
{
    law_mode_names(next.ui.mode, mode_text(next.ui.mode));
    let mouse = mouse_at(lparam, app.scale);
    if let Some(Action::Th(of, delta)) = action_at(app.ui.hits@, mouse.0, mouse.1) {
        law_steppers_keep_thresholds_sensible(app.state.settings.thresholds, of, delta as int);
    }
}

/// What a message changes in the preferences is saved.
#[verifier::rlimit(40)]
pub proof fn law_changes_are_saved(
    app: App,
    message: Message,
    wparam: u64,
    lparam: u64,
    now: u64,
    next: App,
)
    requires
        handled(app, message, wparam, lparam, now, next),
        next.state.settings@ != app.state.settings@,
    ensures
        commanded(app, message, wparam, lparam, now).contains(Command::SaveSettings),
{
    let commands = commanded(app, message, wparam, lparam, now);
    if commands.len() >= 1 {
        assert(commands.contains(commands[0]));
    }
    if commands.len() >= 2 {
        assert(commands.contains(commands[1]));
    }
}

/// Preferences survive a restart: a program that starts with the settings that
/// another has written has the same mode, pin, thresholds and position.
pub proof fn law_preferences_survive_a_restart(app: App, written: Settings, next: App, scale: Num)
    requires
        in_step(app),
        written@ == loaded(Some(Parsed::Settings(app.state.settings))),
        next.started(written, scale),
    ensures
        in_step(next),
        next.ui.mode == app.ui.mode,
        next.state.pinned == app.state.pinned,
        next.state.settings.thresholds == app.state.settings.thresholds,
        next.state.settings.x == app.state.settings.x,
        next.state.settings.y == app.state.settings.y,
{
    let settings = app.state.settings;
    law_held_thresholds(settings.thresholds);
    assert(written@ == settings@.cleaned());
    assert(written@.mode == settings@.mode);
    assert(written@.x == settings@.x && written@.y == settings@.y);
    assert(written@.thresholds == settings@.thresholds);
    assert(written@.pinned == settings@.pinned);
}

/// A stepper keeps sensible thresholds sensible.
pub proof fn law_steppers_keep_thresholds_sensible(t: Thresholds, of: Quantity, delta: int)
    ensures
        stepped(t, of, delta).sensible(),
{
    let value = threshold_of(t, of).sum(of_integer(delta));
    let asked = match of {
        Quantity::Cpu => Thresholds { cpu: value, ..t },
        Quantity::Ram => Thresholds { ram: value, ..t },
        Quantity::Gpu => Thresholds { gpu: value, ..t },
        Quantity::Temp => Thresholds { temp: value, ..t },
    };
    law_held_thresholds(asked);
}

/// A window that is no nearer than 17 pixels to an edge stays where it is dragged; one
/// that is nearer goes to the edge, the far one first.
pub proof fn law_windows_snap_within_sixteen(from: int, to: int, length: int)
    ensures
        (from > 16 || from < -16) && (length - to > 16 || length - to < -16) ==> snapped(
            from,
            to,
            length,
        ) == from,
        -16 <= length - to <= 16 ==> snapped(from, to, length) + (to - from) == length,
        -16 <= from <= 16 && !(-16 <= length - to <= 16) ==> snapped(from, to, length) == 0,
{
}

/// A parameter holds the two numbers of a point, each in 16 bits and of either sign.
pub proof fn law_points_are_read(x: int, y: int, param: u64)
    requires
        -0x8000 <= x < 0x8000,
        -0x8000 <= y < 0x8000,
        param as int % 0x1_0000_0000 == (x % 0x10000) + 0x10000 * (y % 0x10000),
    ensures
        signed16(low_word(param)) == x,
        signed16(high_word(param)) == y,
{
    let (a, b) = (x % 0x10000, y % 0x10000);
    let p = param as int;
    let top = p / 0x1_0000_0000;
    assert(p == 0x1_0000_0000 * top + a + 0x10000 * b);
    assert(p % 0x10000 == a);
    assert(p / 0x10000 == 0x10000 * top + b);
    assert((p / 0x10000) % 0x10000 == b);
}

/// On a screen of a whole scale, a pixel is a logical pixel as often as the scale says,
/// and back.
pub proof fn law_pixels_scale(n: int, scale: int)
    requires
        0 < scale <= 64,
        -0x1_0000 <= n <= 0x1_0000,
    ensures
        logical(n * scale, of_integer(scale)) == of_integer(n),
        n >= 0 ==> physical(n as u32, of_integer(scale)) == n * scale,
{
    reveal(logical);
    assert(-0x40_0000 <= n * scale <= 0x40_0000) by (nonlinear_arith)
        requires
            0 < scale <= 64,
            -0x1_0000 <= n <= 0x1_0000,
    ;
    law_integer_single(n, scale);
    law_integer_single(n * scale, scale);
    law_integer_arithmetic(n, scale);
    if n >= 0 {
        assert(n * scale >= 0) by (nonlinear_arith)
            requires
                n >= 0,
                scale > 0,
        ;
        law_whole_arithmetic((n * scale) as nat, 0);
        law_whole_part((n * scale) as nat, i32::MIN as int, i32::MAX as int);
    }
}

/// Whatever the scale of the screen, the window is as many pixels wide as its logical
/// pixels times the scale, to the nearest.
pub proof fn law_sizes_are_nearest(v: u32, scale: Num)
    requires
        v <= 0x1000,
        scale.from_zero(),
        scale.size() <= 64 * unit(),
    ensures
        -51 * unit() <= 100 * (physical(v, scale) * unit() - v * scale.size()) <= 51 * unit(),
{
    let (u, s, x) = (unit(), scale.size(), of_integer(v as int));
    lemma_pow2_pos(1074);
    lemma2_to64();
    lemma2_to64_rest();
    lemma_integer_exact(v as int);
    assert(pow2(18) == 0x40000 && pow2(34) == 0x4_0000_0000);
    if scale.magnitude() > 0 {
        crate::num::lemma_size_grows(0, scale.magnitude());
    }
    assert((v * u) * s <= u * (0x40000 * u) && (v * u) * s >= 0) by (nonlinear_arith)
        requires
            v <= 0x1000,
            0 <= s <= 64 * u,
            u > 0,
    ;
    lemma_product_near(x, scale, 18);
    let p = x.product(scale);
    let e = p.size() - v * s;
    assert(-u <= 0x8_0000_0000 * e <= u) by (nonlinear_arith)
        requires
            -u * u <= 2 * (0x4_0000_0000 * (p.size() * u - (v * u) * s)) <= u * u,
            e == p.size() - v * s,
            u > 0,
    ;
    let w = lemma_whole_near(p);
    law_whole_part(w, i32::MIN as int, i32::MAX as int);
    assert(w <= 0x7fff_ffff) by (nonlinear_arith)
        requires
            -u <= 2 * (w * u - p.size()) <= u,
            p.size() <= 0x40000 * u,
            u > 0,
    ;
}

/// On a screen of a whole scale, the window is dragged by its uppermost 36 logical
/// pixels, where nothing answers to a click and the settings are not open, and by
/// nothing else.
pub proof fn law_window_is_dragged_by_its_header(app: App, x: int, y: int, scale: int)
    requires
        0 < scale <= 64,
        -0x8000 <= y < 0x8000,
        app.scale == of_integer(scale),
    ensures
        drags(app, x, y) <==> y < 36 * scale && !app.ui.show_settings && action_at(
            app.ui.hits@,
            logical(x, app.scale),
            logical(y, app.scale),
        ) is None,
        part_at(app, x, y) == (if drags(app, x, y) {
            Reply::Caption
        } else {
            Reply::Client
        }),
{
    law_integer_single(36, scale);
    law_integer_single(y, 1);
    crate::ui::lemma_integer_order(y, 36 * scale);
}

/// A stepper moves its own threshold by whole steps, as long as it stays in its range,
/// and leaves the others of a sensible set alone.
pub proof fn law_steppers_move_one(t: Thresholds, of: Quantity, n: int, delta: int)
    requires
        t.sensible(),
        threshold_of(t, of) == of_integer(n),
        1 <= n <= 120,
        -1000 <= delta <= 1000,
    ensures
        ({
            let (low, high): (int, int) = if of == Quantity::Temp {
                (30, 120)
            } else {
                (1, 100)
            };
            let next = stepped(t, of, delta);
            let moved = if n + delta < low {
                low
            } else if n + delta > high {
                high
            } else {
                n + delta
            };
            &&& next.cpu == if of == Quantity::Cpu {
                of_integer(moved)
            } else {
                t.cpu
            }
            &&& next.ram == if of == Quantity::Ram {
                of_integer(moved)
            } else {
                t.ram
            }
            &&& next.gpu == if of == Quantity::Gpu {
                of_integer(moved)
            } else {
                t.gpu
            }
            &&& next.temp == if of == Quantity::Temp {
                of_integer(moved)
            } else {
                t.temp
            }
        }),
{
    law_integer_arithmetic(n, delta);
    lemma_integer_exact(n + delta);
    law_held_thresholds(t);
    lemma_named_patterns();
    lemma_whole_unique(num_of(ONE), 1);
    lemma_whole_unique(num_of(HUNDRED), 100);
    lemma_whole_unique(num_of(THIRTY), 30);
    lemma_whole_unique(num_of(HUNDRED_TWENTY), 120);
    crate::ui::lemma_integer_order(n + delta, 1);
    crate::ui::lemma_integer_order(100, n + delta);
    crate::ui::lemma_integer_order(n + delta, 30);
    crate::ui::lemma_integer_order(120, n + delta);
}

/// A change of the mode shows in the window and is remembered, and the window gets the
/// size of the mode. The modes with the list of processes take the latest readings in;
/// nothing else changes.
pub proof fn law_window_changes_mode(app: App, mode: Mode, next: App)
    requires
        app.ui.mode != mode,
        mode_set(app, mode, next),
    ensures
        next.ui.mode == mode,
        next.state.mode == mode,
        mode_of(next.state.settings.mode@) == Some(mode),
        next.ui.history@ == (if mode == Mode::Dev || mode == Mode::Procs {
            app.ui.history@.with(point_of(app.state.snapshot@))
        } else {
            app.ui.history@
        }),
        next.state.visible == app.state.visible && next.state.pinned == app.state.pinned
            && next.state.snapshot == app.state.snapshot && next.guardian == app.guardian
            && next.ui.pinned == app.ui.pinned,
        next.state.settings.thresholds == app.state.settings.thresholds
            && next.state.settings.pinned == app.state.settings.pinned && next.state.settings.x
            == app.state.settings.x && next.state.settings.y == app.state.settings.y,
        mode_commands(app.ui.mode, mode, app.scale) == seq![
            Command::SaveSettings,
            Command::Resize {
                width: physical(340, app.scale) as i32,
                height: physical(
                    if mode == Mode::Mini {
                        245
                    } else {
                        500
                    },
                    app.scale,
                ) as i32,
            },
            Command::Invalidate,
        ],
{
    law_mode_names(mode, mode_text(mode));
}

/// What the clicks ask for is done: the cross hides the window, the pin is turned over
/// and told to the window, a process is ended only after a question, and the settings
/// open and close.
pub proof fn law_actions(app: App, next: App, pid: u32, mode: Mode)
    ensures
        acted(app, Action::Close, next) ==> !next.state.visible && action_commands(
            app,
            Action::Close,
        ) == seq![Command::Hide],
        acted(app, Action::Pin, next) ==> next.state.pinned == !app.state.pinned && next.ui.pinned
            == next.state.pinned && next.state.settings.pinned == next.state.pinned
            && action_commands(app, Action::Pin)[0] == (Command::Topmost {
            pinned: next.state.pinned,
        }),
        acted(app, Action::Kill(pid), next) ==> next == app && action_commands(
            app,
            Action::Kill(pid),
        ) == seq![Command::ConfirmKill { pid }],
        acted(app, Action::ToggleSettings, next) ==> next.ui.show_settings
            == !app.ui.show_settings,
        acted(app, Action::Mode(mode), next) ==> next.ui.mode == mode,
        acted(app, Action::Expand, next) ==> next.ui.mode == Mode::Dev,
{
}

/// While the window can be seen, a tick of the timer puts the snapshot into the charts
/// and shows it to the guardian, whose alerts are told one by one, in their order,
/// before the window is drawn again.
pub proof fn law_ticks(app: App, lparam: u64, now: u64, next: App, i: int)
    requires
        app.state.visible,
        handled(app, Message::Timer, 1, lparam, now, next),
    ensures
        ({
            let input = input_from(app.state.snapshot@, app.state.settings.thresholds);
            let alerts = app.guardian.alerts(input, now);
            let commands = commanded(app, Message::Timer, 1, lparam, now);
            &&& next.ui.history@ == app.ui.history@.with(point_of(app.state.snapshot@))
            &&& next.guardian == app.guardian.after(input, now)
            &&& next.state == app.state
            &&& commands.len() == alerts.len() + 1
            &&& 0 <= i < alerts.len() ==> commands[i] == (Command::Notify { alert: alerts[i] })
            &&& commands.last() == Command::Invalidate
        }),
{
}

/// Moving the mouse remembers where it is and which row lies under it, and has the
/// window drawn again just where another row or button lies under it than before. A
/// mouse that leaves lies over nothing.
pub proof fn law_mouse_is_followed(app: App, wparam: u64, lparam: u64, now: u64, next: App)
    ensures
        handled(app, Message::MouseMove, wparam, lparam, now, next) ==> {
            let mouse = mouse_at(lparam, app.scale);
            let row = row_at(app.ui.rows@, mouse.0, mouse.1, 0);
            let commands = commanded(app, Message::MouseMove, wparam, lparam, now);
            &&& next.mouse == mouse
            &&& next.ui.hover_row is Some <==> row is Some
            &&& row is Some ==> next.ui.hover_row->0 as int == row->0
            &&& next.state == app.state
            &&& commands.contains(Command::TrackLeave) <==> !app.tracking
            &&& commands.contains(Command::Invalidate) <==> next.ui.hover_row != app.ui.hover_row
                || action_at(app.ui.hits@, mouse.0, mouse.1) != app.ui.hover_btn
        },
        handled(app, Message::MouseLeave, wparam, lparam, now, next) ==> next.ui.hover_row is None
            && next.ui.hover_btn is None && !next.tracking && next.state == app.state,
{
    let mouse = mouse_at(lparam, app.scale);
    let commands = move_commands(app, mouse);
    if commands.len() >= 1 {
        assert(commands.contains(commands[0]));
    }
    if commands.len() >= 2 {
        assert(commands.contains(commands[1]));
    }
}

/// A click on the sign in the tray, and the hotkey, show a hidden window and hide a
/// visible one; the other button opens the menu.
pub proof fn law_tray_and_hotkey(app: App, wparam: u64, lparam: u64, now: u64, next: App)
    ensures
        handled(app, Message::Hotkey, wparam, lparam, now, next) ==> next.state.visible
            == !app.state.visible,
        low_word(lparam) == 0x202 && handled(app, Message::Tray, wparam, lparam, now, next)
            ==> next.state.visible == !app.state.visible && commanded(
            app,
            Message::Tray,
            wparam,
            lparam,
            now,
        ) == commanded(app, Message::Hotkey, wparam, lparam, now),
        low_word(lparam) == 0x205 && handled(app, Message::Tray, wparam, lparam, now, next) ==> next
            == app && commanded(app, Message::Tray, wparam, lparam, now) == seq![Command::OpenMenu],
        commanded(app, Message::Hotkey, wparam, lparam, now)[0] == (if app.state.visible {
            Command::Hide
        } else {
            Command::Show
        }),
{
}

/// The numbers of the messages that the window deals with.
pub proof fn law_messages(msg: u32)
    ensures
        message_of(msg) == Message::Destroy <==> msg == 2,
        message_of(msg) == Message::Size <==> msg == 5,
        message_of(msg) == Message::Paint <==> msg == 15,
        message_of(msg) == Message::Close <==> msg == 16,
        message_of(msg) == Message::EraseBackground <==> msg == 20,
        message_of(msg) == Message::HitTest <==> msg == 132,
        message_of(msg) == Message::Timer <==> msg == 275,
        message_of(msg) == Message::MouseMove <==> msg == 512,
        message_of(msg) == Message::ButtonDown <==> msg == 513,
        message_of(msg) == Message::DragEnded <==> msg == 562,
        message_of(msg) == Message::MouseLeave <==> msg == 675,
        message_of(msg) == Message::Hotkey <==> msg == 786,
        message_of(msg) == Message::Tray <==> msg == 32769,
{
}

/// The window is drawn when it is asked to be, its surface follows its size, the end of a
/// drag is looked at, and the end of the window is the end of the program. None of these
/// changes the state.
pub proof fn law_other_messages(app: App, wparam: u64, lparam: u64, now: u64, next: App, point: (i32, i32))
    ensures
        commanded(app, Message::Paint, wparam, lparam, now) == seq![Command::Paint],
        commanded(app, Message::Size, wparam, lparam, now) == seq![
            Command::ResizeSurface,
            Command::Invalidate,
        ],
        commanded(app, Message::DragEnded, wparam, lparam, now) == seq![Command::LookAtWindow],
        commanded(app, Message::Destroy, wparam, lparam, now) == seq![
            Command::RemoveTray,
            Command::PostQuit,
        ],
        commanded(app, Message::Other, wparam, lparam, now).len() == 0,
        handled(app, Message::Paint, wparam, lparam, now, next) || handled(
            app,
            Message::Size,
            wparam,
            lparam,
            now,
            next,
        ) || handled(app, Message::DragEnded, wparam, lparam, now, next) || handled(
            app,
            Message::Destroy,
            wparam,
            lparam,
            now,
            next,
        ) || handled(app, Message::Other, wparam, lparam, now, next) ==> next == app,
        replied(app, Message::Other, point) == Reply::Default,
        replied(app, Message::EraseBackground, point) == Reply::Erased,
        replied(app, Message::HitTest, point) == part_at(app, point.0 as int, point.1 as int),
        replied(app, Message::Close, point) == Reply::Done,
{
}

/// A click where nothing answers does nothing but tell where the mouse is.
pub proof fn law_clicks_beside_do_nothing(app: App, wparam: u64, lparam: u64, now: u64, next: App)
    requires
        ({
            let mouse = mouse_at(lparam, app.scale);
            action_at(app.ui.hits@, mouse.0, mouse.1) is None
        }),
        handled(app, Message::ButtonDown, wparam, lparam, now, next),
    ensures
        commanded(app, Message::ButtonDown, wparam, lparam, now).len() == 0,
        next == (App { mouse: mouse_at(lparam, app.scale), ..app }),
{
}

/// The mouse is where the message says, in logical pixels.
pub proof fn law_mouse_is_where_it_says(x: int, y: int, scale: int, param: u64)
    requires
        0 < scale <= 64,
        -0x8000 <= x * scale < 0x8000,
        -0x8000 <= y * scale < 0x8000,
        param as int % 0x1_0000_0000 == ((x * scale) % 0x10000) + 0x10000 * ((y * scale) % 0x10000),
    ensures
        mouse_at(param, of_integer(scale)) == (of_integer(x), of_integer(y)),
{
    law_points_are_read(x * scale, y * scale, param);
    assert(-0x8000 <= x <= 0x8000 && -0x8000 <= y <= 0x8000) by (nonlinear_arith)
        requires
            0 < scale,
            -0x8000 <= x * scale < 0x8000,
            -0x8000 <= y * scale < 0x8000,
    ;
    law_pixels_scale(x, scale);
    law_pixels_scale(y, scale);
}

} // verus!
