//! Where things stand in the window, and what is drawn there.
//!
//! A place is a number of scaled pixels from an edge or the middle of the window,
//! so that a drawing does not depend on the size of the window or the scale of the
//! screen.

use vstd::prelude::*;
use crate::history::{disk_peak, disk_scale, gpu_peak, gpu_scale, net_peak, net_scale, History, HistoryView};
use crate::metrics::{AppState, Snapshot, SnapshotView};
use crate::num::{num, num_of, Num, EIGHTY, EIGHTY_FIVE, HUNDRED, MINUS_ONE, NINETY, ZERO};
use crate::settings::Mode;

verus! {

// --- Places ------------------------------------------------------------------

/// A place: `s` scaled pixels, `w` half widths and `h` heights of the window.
#[derive(Clone, Copy, Debug, PartialEq, Eq, Structural)]
pub struct Span {
    pub s: i64,
    pub w: i64,
    pub h: i64,
}

pub open spec fn left_spec(s: i64) -> Span {
    Span { s, w: 0, h: 0 }
}

/// `s` scaled pixels from the left or upper edge.
#[verifier::when_used_as_spec(left_spec)]
pub fn left(s: i64) -> (r: Span)
    ensures
        r == left_spec(s),
{
    Span { s, w: 0, h: 0 }
}

pub open spec fn right_spec(s: i64) -> Span {
    Span { s: (-s) as i64, w: 2, h: 0 }
}

/// `s` scaled pixels from the right edge.
#[verifier::when_used_as_spec(right_spec)]
pub fn right(s: i64) -> (r: Span)
    requires
        s > i64::MIN,
    ensures
        r == right_spec(s),
{
    Span { s: -s, w: 2, h: 0 }
}

pub open spec fn middle_spec(s: i64) -> Span {
    Span { s, w: 1, h: 0 }
}

/// `s` scaled pixels right of the middle.
#[verifier::when_used_as_spec(middle_spec)]
pub fn middle(s: i64) -> (r: Span)
    ensures
        r == middle_spec(s),
{
    Span { s, w: 1, h: 0 }
}

pub open spec fn bottom_spec(s: i64) -> Span {
    Span { s: (-s) as i64, w: 0, h: 1 }
}

/// `s` scaled pixels from the lower edge.
#[verifier::when_used_as_spec(bottom_spec)]
pub fn bottom(s: i64) -> (r: Span)
    requires
        s > i64::MIN,
    ensures
        r == bottom_spec(s),
{
    Span { s: -s, w: 0, h: 1 }
}

/// An area by its four edges.
#[derive(Clone, Copy, Debug, PartialEq, Eq, Structural)]
pub struct Area {
    pub l: Span,
    pub t: Span,
    pub r: Span,
    pub b: Span,
}

pub open spec fn area_spec(l: Span, r: Span, y: i64, from: i64, to: i64) -> Area {
    Area { l, t: left_spec((y + from) as i64), r, b: left_spec((y + to) as i64) }
}

/// An area between two places across, and from `y + from` to `y + to` scaled pixels
/// below the upper edge.
#[verifier::when_used_as_spec(area_spec)]
pub fn area(l: Span, r: Span, y: i64, from: i64, to: i64) -> (a: Area)
    requires
        i64::MIN <= y + from <= i64::MAX,
        i64::MIN <= y + to <= i64::MAX,
    ensures
        a == area_spec(l, r, y, from, to),
{
    Area { l, t: left(y + from), r, b: left(y + to) }
}

// --- Drawing -----------------------------------------------------------------

#[derive(Clone, Copy, Debug, PartialEq, Eq, Structural)]
pub enum Brush {
    Bg,
    Card,
    CardHover,
    Border,
    Track,
    Txt,
    Dim,
    Cyan,
    Magenta,
    Amber,
    Violet,
    Green,
    Blue,
    Alert,
}

/// Red, green and blue of a brush.
pub open spec fn rgb_of(brush: Brush) -> (u8, u8, u8) {
    match brush {
        Brush::Bg => (0x0a, 0x0c, 0x14),
        Brush::Card => (0x12, 0x14, 0x1f),
        Brush::CardHover => (0x1a, 0x1e, 0x2e),
        Brush::Border => (0x23, 0x2a, 0x3d),
        Brush::Track => (0x1c, 0x20, 0x30),
        Brush::Txt => (0xe8, 0xec, 0xf4),
        Brush::Dim => (0x8b, 0x93, 0xa7),
        Brush::Cyan => (0x00, 0xff, 0xe5),
        Brush::Magenta => (0xff, 0x2b, 0xd6),
        Brush::Amber => (0xff, 0xb0, 0x20),
        Brush::Violet => (0x9d, 0x6b, 0xff),
        Brush::Green => (0x00, 0xff, 0x88),
        Brush::Blue => (0x00, 0xc8, 0xff),
        Brush::Alert => (0xff, 0x4d, 0x5e),
    }
}

/// Red, green and blue of a brush.
pub fn rgb(brush: Brush) -> (r: (u8, u8, u8))
    ensures
        r == rgb_of(brush),
{
    match brush {
        Brush::Bg => (0x0a, 0x0c, 0x14),
        Brush::Card => (0x12, 0x14, 0x1f),
        Brush::CardHover => (0x1a, 0x1e, 0x2e),
        Brush::Border => (0x23, 0x2a, 0x3d),
        Brush::Track => (0x1c, 0x20, 0x30),
        Brush::Txt => (0xe8, 0xec, 0xf4),
        Brush::Dim => (0x8b, 0x93, 0xa7),
        Brush::Cyan => (0x00, 0xff, 0xe5),
        Brush::Magenta => (0xff, 0x2b, 0xd6),
        Brush::Amber => (0xff, 0xb0, 0x20),
        Brush::Violet => (0x9d, 0x6b, 0xff),
        Brush::Green => (0x00, 0xff, 0x88),
        Brush::Blue => (0x00, 0xc8, 0xff),
        Brush::Alert => (0xff, 0x4d, 0x5e),
    }
}

/// How a text is set: its size, and whether it starts at the left edge (`L`), ends
/// at the right edge (`R`) or is bold (`B`).
#[derive(Clone, Copy, Debug, PartialEq, Eq, Structural)]
pub enum Font {
    Title,
    Big,
    Size11R,
    Size10L,
    Size10R,
    Size10B,
    Size9L,
    Size9R,
    Symbol,
}

/// A value that can be changed by the steppers of the settings.
#[derive(Clone, Copy, Debug, PartialEq, Eq, Structural)]
pub enum Quantity {
    Cpu,
    Ram,
    Gpu,
    Temp,
}

/// A quantity of which the session keeps maximum and average.
#[derive(Clone, Copy, Debug, PartialEq, Eq, Structural)]
pub enum Tally {
    Cpu,
    Ram,
    Gpu,
}

/// What a click asks for.
#[derive(Clone, Copy, Debug, PartialEq, Eq, Structural)]
pub enum Action {
    Pin,
    Mode(Mode),
    Close,
    Kill(u32),
    /// From the small mode to the full one.
    Expand,
    ToggleSettings,
    /// Move a threshold.
    Th(Quantity, i32),
}

/// A fixed text.
#[derive(Clone, Copy, Debug, PartialEq, Eq, Structural)]
pub enum Name {
    Title,
    Cpu,
    CpuTemp,
    Temp,
    Gpu,
    Ram,
    Net,
    Disk,
    CpuPercent,
    TempCelsius,
    RamPercent,
    GpuPercent,
    NetRate,
    DiskReadWrite,
    Traffic,
    TopProcesses,
    Kill,
    Sampling,
    Footer,
}

/// What a text says.
#[derive(Clone, Copy, Debug, PartialEq, Eq, Structural)]
pub enum Label {
    Fixed(Name),
    /// The sign on the button of an action.
    Glyph(Action),
    /// A percentage, rounded to one place.
    Percent(Num),
    /// A percentage as it is, with one place.
    Plain(Num),
    Celsius(Num),
    GpuUse(Num),
    Figure(Num),
    /// Why there is no temperature.
    TempHint,
    GpuDetail,
    Memory,
    Iface,
    /// The two network rates, set wide or close.
    NetRates { wide: bool },
    /// The two disk rates with arrows.
    DiskRates,
    /// The two disk rates with a stroke between.
    DiskPair,
    SessionTitle,
    SessionMax(Tally),
    SessionAvg(Tally),
    NetMax,
    NetAvg,
    ProcName(usize),
    ProcDetail(usize),
}

/// The readings of a chart.
#[derive(Clone, Copy, Debug, PartialEq, Eq, Structural)]
pub enum Series {
    Cpu,
    Temp,
    Ram,
    Gpu,
    Net,
    DiskRead,
    DiskWrite,
}

/// One thing to draw.
#[derive(Clone, Copy, Debug, PartialEq, Eq, Structural)]
pub enum Op {
    /// A line across the window.
    Rule { y: Span, brush: Brush },
    Dot { x: Span, y: Span, radius: Span, brush: Brush },
    /// A framed card; lit when the mouse is over it.
    Card { area: Area, hover: bool },
    Fill { area: Area, radius: Span, brush: Brush },
    Text { label: Label, font: Font, area: Area, brush: Brush },
    /// A bar, filled to a percentage.
    Bar { x: Span, y: Span, width: Span, height: Span, percent: Num, brush: Brush },
    Chart { area: Area, series: Series, top: Num, brush: Brush },
}

pub open spec fn text_spec(label: Label, font: Font, area: Area, brush: Brush) -> Op {
    Op::Text { label, font, area, brush }
}

#[verifier::when_used_as_spec(text_spec)]
fn text(label: Label, font: Font, area: Area, brush: Brush) -> (r: Op)
    ensures
        r == text_spec(label, font, area, brush),
{
    Op::Text { label, font, area, brush }
}

/// A place that answers to clicks.
#[derive(Clone, Copy, Debug, PartialEq, Eq, Structural)]
pub struct Hit {
    pub area: Area,
    pub action: Action,
}

// --- Header ------------------------------------------------------------------

/// The buttons of the header, from the right edge to the left.
pub open spec fn button(k: int) -> Action {
    if k == 0 {
        Action::Close
    } else if k == 1 {
        Action::Mode(Mode::Procs)
    } else if k == 2 {
        Action::Mode(Mode::Charts)
    } else if k == 3 {
        Action::Mode(Mode::Dev)
    } else if k == 4 {
        Action::Mode(Mode::Mini)
    } else {
        Action::Pin
    }
}

pub open spec fn button_area(k: int) -> Area {
    area_spec(right_spec((32 + 28 * k) as i64), right_spec((6 + 28 * k) as i64), 0, 5, 31)
}

/// Whether a button stands for the present mode or pin.
pub open spec fn active(action: Action, mode: Mode, pinned: bool) -> bool {
    match action {
        Action::Pin => pinned,
        Action::Mode(m) => m == mode,
        _ => false,
    }
}

pub open spec fn button_ops(k: int, mode: Mode, pinned: bool, hover: Option<Action>) -> Seq<Op> {
    let on = active(button(k), mode, pinned);
    let label = text_spec(
        Label::Glyph(button(k)),
        Font::Symbol,
        button_area(k),
        if on {
            Brush::Cyan
        } else {
            Brush::Dim
        },
    );
    if on || hover == Some(button(k)) {
        seq![
            Op::Fill {
                area: button_area(k),
                radius: left_spec(5),
                brush: if on {
                    Brush::Border
                } else {
                    Brush::Track
                },
            },
            label,
        ]
    } else {
        seq![label]
    }
}

/// The first `n` buttons.
pub open spec fn buttons_ops(n: nat, mode: Mode, pinned: bool, hover: Option<Action>) -> Seq<Op>
    decreases n,
{
    if n == 0 {
        Seq::empty()
    } else {
        buttons_ops((n - 1) as nat, mode, pinned, hover) + button_ops(n - 1, mode, pinned, hover)
    }
}

pub open spec fn header_ops(mode: Mode, pinned: bool, hover: Option<Action>) -> Seq<Op> {
    seq![
        Op::Rule { y: left_spec(36), brush: Brush::Border },
        Op::Dot { x: left_spec(15), y: left_spec(18), radius: left_spec(3), brush: Brush::Cyan },
        text_spec(
            Label::Fixed(Name::Title),
            Font::Title,
            area_spec(left_spec(24), left_spec(130), 0, 6, 32),
            Brush::Txt,
        ),
    ] + buttons_ops(6, mode, pinned, hover)
}

pub open spec fn header_hits() -> Seq<Hit> {
    Seq::new(6, |k: int| Hit { area: button_area(k), action: button(k) })
}

fn button_at(k: usize) -> (r: Action)
    ensures
        r == button(k as int),
{
    if k == 0 {
        Action::Close
    } else if k == 1 {
        Action::Mode(Mode::Procs)
    } else if k == 2 {
        Action::Mode(Mode::Charts)
    } else if k == 3 {
        Action::Mode(Mode::Dev)
    } else if k == 4 {
        Action::Mode(Mode::Mini)
    } else {
        Action::Pin
    }
}

/// The header: a dot, the title, and six buttons. The button of the present mode
/// and that of a set pin are lit, as is the one that the caller names (`hover`). The
/// messages of the window name none.
pub fn draw_header(mode: Mode, pinned: bool, hover: Option<Action>, hits: &mut Vec<Hit>) -> (r: Vec<Op>)
    ensures
        r@ == header_ops(mode, pinned, hover),
        final(hits)@ == old(hits)@ + header_hits(),
{
    let mut out: Vec<Op> = Vec::new();
    out.push(Op::Rule { y: left(36), brush: Brush::Border });
    out.push(Op::Dot { x: left(15), y: left(18), radius: left(3), brush: Brush::Cyan });
    out.push(
        text(
            Label::Fixed(Name::Title),
            Font::Title,
            area(left(24), left(130), 0, 6, 32),
            Brush::Txt,
        ),
    );
    let ghost start = out@;
    let mut k: usize = 0;
    assert(start + buttons_ops(0, mode, pinned, hover) == start);
    assert(old(hits)@ + header_hits().take(0) == old(hits)@);
    while k < 6
        invariant
            k <= 6,
            out@ == start + buttons_ops(k as nat, mode, pinned, hover),
            hits@ == old(hits)@ + header_hits().take(k as int),
        decreases 6 - k,
    {
        let action = button_at(k);
        let on: bool = match action {
            Action::Pin => pinned,
            Action::Mode(m) => m == mode,
            _ => false,
        };
        let over: bool = match hover {
            Some(a) => a == action,
            None => false,
        };
        let place = area(
            right(32 + 28 * (k as i64)),
            right(6 + 28 * (k as i64)),
            0,
            5,
            31,
        );
        let ghost before = out@;
        if on || over {
            out.push(
                Op::Fill {
                    area: place,
                    radius: left(5),
                    brush: if on {
                        Brush::Border
                    } else {
                        Brush::Track
                    },
                },
            );
        }
        out.push(
            text(
                Label::Glyph(action),
                Font::Symbol,
                place,
                if on {
                    Brush::Cyan
                } else {
                    Brush::Dim
                },
            ),
        );
        assert(out@ == before + button_ops(k as int, mode, pinned, hover));
        assert(start + (buttons_ops(k as nat, mode, pinned, hover) + button_ops(
            k as int,
            mode,
            pinned,
            hover,
        )) == (start + buttons_ops(k as nat, mode, pinned, hover)) + button_ops(
            k as int,
            mode,
            pinned,
            hover,
        ));
        hits.push(Hit { area: place, action });
        assert(header_hits().take(k + 1) == header_hits().take(k as int).push(
            header_hits()[k as int],
        ));
        assert(hits@ == old(hits)@ + header_hits().take(k + 1));
        k = k + 1;
    }
    assert(header_hits().take(6) == header_hits());
    assert(out@ == header_ops(mode, pinned, hover));
    out
}

// --- Full mode ---------------------------------------------------------------

/// A card with a name, a large value and a bar.
pub open spec fn metric_card(
    y: i64,
    name: Name,
    name_to: i64,
    value: Label,
    value_brush: Brush,
    percent: Num,
    brush: Brush,
) -> Seq<Op> {
    seq![
        Op::Card { area: area_spec(left_spec(8), right_spec(8), y, 0, 52), hover: false },
        text_spec(
            Label::Fixed(name),
            Font::Size10L,
            area_spec(left_spec(20), left_spec(name_to), y, 6, 24),
            Brush::Dim,
        ),
        text_spec(
            value,
            Font::Big,
            area_spec(right_spec(118), right_spec(20), y, 4, 30),
            value_brush,
        ),
        Op::Bar {
            x: left_spec(20),
            y: left_spec((y + 34) as i64),
            width: right_spec(40),
            height: left_spec(6),
            percent,
            brush,
        },
    ]
}

/// The line of small print at the foot of a card.
pub open spec fn card_detail(y: i64, label: Label) -> Op {
    text_spec(label, Font::Size9L, area_spec(left_spec(20), right_spec(20), y, 42, 52), Brush::Dim)
}

/// A card with a name and a row of rates.
pub open spec fn rates_card(y: i64, name: Name, rates: Label, brush: Brush) -> Seq<Op> {
    seq![
        Op::Card { area: area_spec(left_spec(8), right_spec(8), y, 0, 44), hover: false },
        text_spec(
            Label::Fixed(name),
            Font::Size10L,
            area_spec(left_spec(20), left_spec(68), y, 6, 24),
            Brush::Dim,
        ),
        text_spec(
            rates,
            Font::Size10R,
            area_spec(right_spec(178), right_spec(20), y, 5, 25),
            brush,
        ),
    ]
}

pub open spec fn dev_ops(snap: SnapshotView) -> Seq<Op> {
    let (zero, hundred) = (num_of(ZERO), num_of(HUNDRED));
    let cpu = snap.cpu.held_within(zero, hundred);
    let ram = snap.memory.percent.held_within(zero, hundred);
    let sensed = num_of(MINUS_ONE).below(snap.cpu_temp);
    let hot = sensed && num_of(EIGHTY).at_most(snap.cpu_temp);
    let counted = num_of(MINUS_ONE).below(snap.gpu);
    metric_card(
        44,
        Name::Cpu,
        68,
        Label::Percent(snap.cpu),
        if num_of(EIGHTY_FIVE).at_most(cpu) {
            Brush::Alert
        } else {
            Brush::Cyan
        },
        cpu,
        Brush::Cyan,
    ) + metric_card(
        104,
        Name::CpuTemp,
        98,
        Label::Celsius(snap.cpu_temp),
        if hot {
            Brush::Alert
        } else {
            Brush::Amber
        },
        if sensed {
            snap.cpu_temp
        } else {
            zero
        },
        Brush::Amber,
    ) + (if sensed {
        Seq::empty()
    } else {
        seq![card_detail(104, Label::TempHint)]
    }) + metric_card(
        164,
        Name::Gpu,
        68,
        Label::GpuUse(snap.gpu),
        Brush::Violet,
        if counted {
            snap.gpu
        } else {
            zero
        },
        Brush::Violet,
    ).push(card_detail(164, Label::GpuDetail)) + metric_card(
        224,
        Name::Ram,
        68,
        Label::Percent(snap.memory.percent),
        Brush::Magenta,
        ram,
        Brush::Magenta,
    ).push(card_detail(224, Label::Memory)) + rates_card(
        284,
        Name::Net,
        Label::NetRates { wide: true },
        Brush::Amber,
    ).insert(
        2,
        text_spec(
            Label::Iface,
            Font::Size9L,
            area_spec(left_spec(68), right_spec(158), 284, 6, 24),
            Brush::Dim,
        ),
    ) + rates_card(336, Name::Disk, Label::DiskRates, Brush::Green)
}

fn push_metric_card(
    out: &mut Vec<Op>,
    y: i64,
    name: Name,
    name_to: i64,
    value: Label,
    value_brush: Brush,
    percent: Num,
    brush: Brush,
)
    requires
        0 <= y <= 1000,
    ensures
        final(out)@ == old(out)@ + metric_card(
            y,
            name,
            name_to,
            value,
            value_brush,
            percent,
            brush,
        ),
{
    out.push(Op::Card { area: area(left(8), right(8), y, 0, 52), hover: false });
    out.push(
        text(
            Label::Fixed(name),
            Font::Size10L,
            area(left(20), left(name_to), y, 6, 24),
            Brush::Dim,
        ),
    );
    out.push(text(value, Font::Big, area(right(118), right(20), y, 4, 30), value_brush));
    out.push(
        Op::Bar {
            x: left(20),
            y: left(y + 34),
            width: right(40),
            height: left(6),
            percent,
            brush,
        },
    );
    assert(out@ == old(out)@ + metric_card(y, name, name_to, value, value_brush, percent, brush));
}

fn detail(y: i64, label: Label) -> (r: Op)
    requires
        0 <= y <= 1000,
    ensures
        r == card_detail(y, label),
{
    text(label, Font::Size9L, area(left(20), right(20), y, 42, 52), Brush::Dim)
}

/// The full mode: cards for CPU, temperature, GPU, memory, network and disk.
pub fn draw_dev(snap: &Snapshot) -> (r: Vec<Op>)
    ensures
        r@ == dev_ops(snap@),
{
    let cpu = snap.cpu.clamp(num(ZERO), num(HUNDRED));
    let ram = snap.memory.percent.clamp(num(ZERO), num(HUNDRED));
    let sensed: bool = snap.cpu_temp.gt(num(MINUS_ONE));
    let hot: bool = sensed && snap.cpu_temp.ge(num(EIGHTY));
    let counted: bool = snap.gpu.gt(num(MINUS_ONE));
    let mut out: Vec<Op> = Vec::new();
    push_metric_card(
        &mut out,
        44,
        Name::Cpu,
        68,
        Label::Percent(snap.cpu),
        if cpu.ge(num(EIGHTY_FIVE)) {
            Brush::Alert
        } else {
            Brush::Cyan
        },
        cpu,
        Brush::Cyan,
    );
    push_metric_card(
        &mut out,
        104,
        Name::CpuTemp,
        98,
        Label::Celsius(snap.cpu_temp),
        if hot {
            Brush::Alert
        } else {
            Brush::Amber
        },
        if sensed {
            snap.cpu_temp
        } else {
            num(ZERO)
        },
        Brush::Amber,
    );
    if !sensed {
        out.push(detail(104, Label::TempHint));
    }
    push_metric_card(
        &mut out,
        164,
        Name::Gpu,
        68,
        Label::GpuUse(snap.gpu),
        Brush::Violet,
        if counted {
            snap.gpu
        } else {
            num(ZERO)
        },
        Brush::Violet,
    );
    out.push(detail(164, Label::GpuDetail));
    push_metric_card(
        &mut out,
        224,
        Name::Ram,
        68,
        Label::Percent(snap.memory.percent),
        Brush::Magenta,
        ram,
        Brush::Magenta,
    );
    out.push(detail(224, Label::Memory));
    out.push(Op::Card { area: area(left(8), right(8), 284, 0, 44), hover: false });
    out.push(
        text(Label::Fixed(Name::Net), Font::Size10L, area(left(20), left(68), 284, 6, 24), Brush::Dim),
    );
    out.push(text(Label::Iface, Font::Size9L, area(left(68), right(158), 284, 6, 24), Brush::Dim));
    out.push(
        text(
            Label::NetRates { wide: true },
            Font::Size10R,
            area(right(178), right(20), 284, 5, 25),
            Brush::Amber,
        ),
    );
    out.push(Op::Card { area: area(left(8), right(8), 336, 0, 44), hover: false });
    out.push(
        text(
            Label::Fixed(Name::Disk),
            Font::Size10L,
            area(left(20), left(68), 336, 6, 24),
            Brush::Dim,
        ),
    );
    out.push(
        text(Label::DiskRates, Font::Size10R, area(right(178), right(20), 336, 5, 25), Brush::Green),
    );
    assert(out@ == dev_ops(snap@));
    out
}

// --- Small mode --------------------------------------------------------------

/// A row with a name, a bar (where there is a reading) and a value.
pub open spec fn mini_row(
    y: i64,
    hover: bool,
    name: Name,
    percent: Option<Num>,
    brush: Brush,
    value: Label,
    value_brush: Brush,
) -> Seq<Op> {
    seq![
        Op::Card { area: area_spec(left_spec(8), right_spec(8), y, 0, 34), hover },
        text_spec(
            Label::Fixed(name),
            Font::Size10L,
            area_spec(left_spec(18), left_spec(54), y, 8, 26),
            Brush::Dim,
        ),
    ] + (match percent {
        Some(p) => seq![
            Op::Bar {
                x: left_spec(56),
                y: left_spec((y + 14) as i64),
                width: right_spec(146),
                height: left_spec(6),
                percent: p,
                brush,
            },
        ],
        None => Seq::empty(),
    }) + seq![
        text_spec(
            value,
            Font::Size11R,
            area_spec(right_spec(82), right_spec(18), y, 7, 27),
            value_brush,
        ),
    ]
}

pub open spec fn mini_ops(snap: SnapshotView, hover: Option<Action>) -> Seq<Op> {
    let (zero, hundred) = (num_of(ZERO), num_of(HUNDRED));
    let cpu = snap.cpu.held_within(zero, hundred);
    let ram = snap.memory.percent.held_within(zero, hundred);
    let lit = hover == Some(Action::Expand);
    mini_row(
        44,
        lit,
        Name::Cpu,
        Some(cpu),
        Brush::Cyan,
        Label::Plain(snap.cpu),
        if num_of(EIGHTY_FIVE).at_most(cpu) {
            Brush::Alert
        } else {
            Brush::Txt
        },
    ) + mini_row(
        84,
        lit,
        Name::Ram,
        Some(ram),
        Brush::Magenta,
        Label::Plain(snap.memory.percent),
        if num_of(NINETY).at_most(ram) {
            Brush::Alert
        } else {
            Brush::Txt
        },
    ) + mini_row(
        124,
        false,
        Name::Temp,
        if num_of(MINUS_ONE).below(snap.cpu_temp) {
            Some(snap.cpu_temp)
        } else {
            None
        },
        Brush::Amber,
        Label::Celsius(snap.cpu_temp),
        Brush::Txt,
    ) + mini_row(
        164,
        false,
        Name::Gpu,
        if num_of(MINUS_ONE).below(snap.gpu) {
            Some(snap.gpu)
        } else {
            None
        },
        Brush::Violet,
        Label::GpuUse(snap.gpu),
        Brush::Txt,
    ) + seq![
        Op::Card { area: area_spec(left_spec(8), right_spec(8), 204, 0, 30), hover: false },
        text_spec(
            Label::Iface,
            Font::Size9L,
            area_spec(left_spec(18), left_spec(128), 204, 7, 24),
            Brush::Dim,
        ),
        text_spec(
            Label::NetRates { wide: false },
            Font::Size10R,
            area_spec(left_spec(128), right_spec(18), 204, 6, 25),
            Brush::Amber,
        ),
    ]
}

/// The first two rows lead to the full mode.
pub open spec fn mini_hits() -> Seq<Hit> {
    seq![
        Hit {
            area: area_spec(left_spec(8), right_spec(8), 44, 0, 34),
            action: Action::Expand,
        },
        Hit {
            area: area_spec(left_spec(8), right_spec(8), 84, 0, 34),
            action: Action::Expand,
        },
    ]
}

fn push_mini_row(
    out: &mut Vec<Op>,
    y: i64,
    hover: bool,
    name: Name,
    percent: Option<Num>,
    brush: Brush,
    value: Label,
    value_brush: Brush,
)
    requires
        0 <= y <= 1000,
    ensures
        final(out)@ == old(out)@ + mini_row(y, hover, name, percent, brush, value, value_brush),
{
    out.push(Op::Card { area: area(left(8), right(8), y, 0, 34), hover });
    out.push(
        text(Label::Fixed(name), Font::Size10L, area(left(18), left(54), y, 8, 26), Brush::Dim),
    );
    match percent {
        Some(p) => {
            out.push(
                Op::Bar {
                    x: left(56),
                    y: left(y + 14),
                    width: right(146),
                    height: left(6),
                    percent: p,
                    brush,
                },
            );
        },
        None => {},
    }
    out.push(text(value, Font::Size11R, area(right(82), right(18), y, 7, 27), value_brush));
    assert(out@ == old(out)@ + mini_row(y, hover, name, percent, brush, value, value_brush));
}

/// The small mode: a row each for CPU, memory, temperature, GPU and network.
pub fn draw_mini(snap: &Snapshot, hover: Option<Action>, hits: &mut Vec<Hit>) -> (r: Vec<Op>)
    ensures
        r@ == mini_ops(snap@, hover),
        final(hits)@ == old(hits)@ + mini_hits(),
{
    let cpu = snap.cpu.clamp(num(ZERO), num(HUNDRED));
    let ram = snap.memory.percent.clamp(num(ZERO), num(HUNDRED));
    let lit: bool = match hover {
        Some(a) => a == Action::Expand,
        None => false,
    };
    let mut out: Vec<Op> = Vec::new();
    push_mini_row(
        &mut out,
        44,
        lit,
        Name::Cpu,
        Some(cpu),
        Brush::Cyan,
        Label::Plain(snap.cpu),
        if cpu.ge(num(EIGHTY_FIVE)) {
            Brush::Alert
        } else {
            Brush::Txt
        },
    );
    hits.push(Hit { area: area(left(8), right(8), 44, 0, 34), action: Action::Expand });
    push_mini_row(
        &mut out,
        84,
        lit,
        Name::Ram,
        Some(ram),
        Brush::Magenta,
        Label::Plain(snap.memory.percent),
        if ram.ge(num(NINETY)) {
            Brush::Alert
        } else {
            Brush::Txt
        },
    );
    hits.push(Hit { area: area(left(8), right(8), 84, 0, 34), action: Action::Expand });
    push_mini_row(
        &mut out,
        124,
        false,
        Name::Temp,
        if snap.cpu_temp.gt(num(MINUS_ONE)) {
            Some(snap.cpu_temp)
        } else {
            None
        },
        Brush::Amber,
        Label::Celsius(snap.cpu_temp),
        Brush::Txt,
    );
    push_mini_row(
        &mut out,
        164,
        false,
        Name::Gpu,
        if snap.gpu.gt(num(MINUS_ONE)) {
            Some(snap.gpu)
        } else {
            None
        },
        Brush::Violet,
        Label::GpuUse(snap.gpu),
        Brush::Txt,
    );
    out.push(Op::Card { area: area(left(8), right(8), 204, 0, 30), hover: false });
    out.push(text(Label::Iface, Font::Size9L, area(left(18), left(128), 204, 7, 24), Brush::Dim));
    out.push(
        text(
            Label::NetRates { wide: false },
            Font::Size10R,
            area(left(128), right(18), 204, 6, 25),
            Brush::Amber,
        ),
    );
    assert(out@ == mini_ops(snap@, hover));
    assert(hits@ == old(hits)@ + mini_hits());
    out
}

// --- Charts ------------------------------------------------------------------

/// The edges of the left and the right column, moved inwards.
pub open spec fn column_left(second: bool, by: i64) -> Span {
    if second {
        middle_spec((4 + by) as i64)
    } else {
        left_spec((8 + by) as i64)
    }
}

pub open spec fn column_right(second: bool, by: i64) -> Span {
    if second {
        right_spec((8 + by) as i64)
    } else {
        middle_spec((-4 - by) as i64)
    }
}

fn column_from(second: bool, by: i64) -> (r: Span)
    requires
        0 <= by <= 1000,
    ensures
        r == column_left(second, by),
{
    if second {
        middle(4 + by)
    } else {
        left(8 + by)
    }
}

fn column_to(second: bool, by: i64) -> (r: Span)
    requires
        0 <= by <= 1000,
    ensures
        r == column_right(second, by),
{
    if second {
        right(8 + by)
    } else {
        middle(-4 - by)
    }
}

/// A card of one column: a name, the latest reading and the line.
pub open spec fn chart_card(
    second: bool,
    y: i64,
    name: Name,
    value: Option<Label>,
    series: Series,
    top: Num,
    brush: Brush,
) -> Seq<Op> {
    seq![
        Op::Card {
            area: area_spec(column_left(second, 0), column_right(second, 0), y, 0, 78),
            hover: false,
        },
        text_spec(
            Label::Fixed(name),
            Font::Size9L,
            area_spec(column_left(second, 8), column_right(second, 50), y, 4, 18),
            Brush::Dim,
        ),
    ] + (match value {
        Some(label) => seq![
            text_spec(
                label,
                Font::Size10R,
                area_spec(
                    Span {
                        s: (column_right(second, 0).s - 60) as i64,
                        ..column_right(second, 0)
                    },
                    column_right(second, 8),
                    y,
                    3,
                    19,
                ),
                brush,
            ),
        ],
        None => Seq::empty(),
    }) + seq![
        Op::Chart {
            area: area_spec(column_left(second, 8), column_right(second, 8), y, 20, 72),
            series,
            top,
            brush,
        },
    ]
}

/// The latest reading of a series.
pub open spec fn latest(series: Seq<Num>) -> Option<Num> {
    if series.len() > 0 {
        Some(series.last())
    } else {
        None
    }
}

pub open spec fn percent_label(v: Option<Num>) -> Option<Label> {
    match v {
        Some(x) => Some(Label::Percent(x)),
        None => None,
    }
}

pub open spec fn celsius_label(v: Option<Num>) -> Option<Label> {
    match v {
        Some(x) => Some(Label::Celsius(x)),
        None => None,
    }
}

pub open spec fn gpu_label(v: Option<Num>) -> Option<Label> {
    match v {
        Some(x) => Some(Label::GpuUse(x)),
        None => None,
    }
}

pub open spec fn wide_card(y: i64, height: i64) -> Op {
    Op::Card { area: area_spec(left_spec(8), right_spec(8), y, 0, height), hover: false }
}

pub open spec fn net_chart(hist: HistoryView) -> Seq<Op> {
    seq![
        wide_card(216, 78),
        text_spec(
            Label::Fixed(Name::NetRate),
            Font::Size9L,
            area_spec(left_spec(16), left_spec(98), 216, 4, 18),
            Brush::Dim,
        ),
    ] + (match latest(hist.net) {
        Some(v) => seq![
            text_spec(
                Label::Figure(v),
                Font::Size10R,
                area_spec(right_spec(78), right_spec(16), 216, 3, 19),
                Brush::Amber,
            ),
        ],
        None => Seq::empty(),
    }) + seq![
        Op::Chart {
            area: area_spec(left_spec(16), right_spec(16), 216, 20, 72),
            series: Series::Net,
            top: net_scale(hist.net),
            brush: Brush::Amber,
        },
    ]
}

pub open spec fn disk_chart(hist: HistoryView) -> Seq<Op> {
    let place = area_spec(left_spec(16), right_spec(16), 302, 20, 72);
    let top = disk_scale(hist.disk_r, hist.disk_w);
    seq![
        wide_card(302, 78),
        text_spec(
            Label::Fixed(Name::DiskReadWrite),
            Font::Size9L,
            area_spec(left_spec(16), left_spec(118), 302, 4, 18),
            Brush::Dim,
        ),
        text_spec(
            Label::DiskPair,
            Font::Size10R,
            area_spec(right_spec(158), right_spec(16), 302, 3, 19),
            Brush::Green,
        ),
        Op::Chart { area: place, series: Series::DiskRead, top, brush: Brush::Green },
        Op::Chart { area: place, series: Series::DiskWrite, top, brush: Brush::Blue },
    ]
}

/// One row of the statistics of the session.
pub open spec fn session_row(y: i64, name: Name, max: Label, avg: Label, brush: Brush) -> Seq<Op> {
    seq![
        text_spec(
            Label::Fixed(name),
            Font::Size9L,
            area_spec(left_spec(18), left_spec(58), y, 0, 16),
            Brush::Dim,
        ),
        text_spec(max, Font::Size9R, area_spec(left_spec(58), left_spec(128), y, 0, 16), brush),
        text_spec(
            avg,
            Font::Size9L,
            area_spec(left_spec(138), right_spec(18), y, 0, 16),
            Brush::Dim,
        ),
    ]
}

pub open spec fn session_ops() -> Seq<Op> {
    seq![
        wide_card(388, 104),
        text_spec(
            Label::SessionTitle,
            Font::Size9L,
            area_spec(left_spec(16), right_spec(16), 388, 4, 18),
            Brush::Dim,
        ),
    ] + session_row(
        408,
        Name::Cpu,
        Label::SessionMax(Tally::Cpu),
        Label::SessionAvg(Tally::Cpu),
        Brush::Cyan,
    ) + session_row(
        428,
        Name::Ram,
        Label::SessionMax(Tally::Ram),
        Label::SessionAvg(Tally::Ram),
        Brush::Magenta,
    ) + session_row(
        448,
        Name::Gpu,
        Label::SessionMax(Tally::Gpu),
        Label::SessionAvg(Tally::Gpu),
        Brush::Violet,
    ) + session_row(468, Name::Traffic, Label::NetMax, Label::NetAvg, Brush::Amber)
}

/// The six charts: CPU and temperature side by side, below them memory and GPU, then
/// the network and the disk.
pub open spec fn six_charts(hist: HistoryView) -> Seq<Op> {
    let hundred = num_of(HUNDRED);
    chart_card(
        false,
        44,
        Name::CpuPercent,
        percent_label(latest(hist.cpu)),
        Series::Cpu,
        hundred,
        Brush::Cyan,
    ) + chart_card(
        true,
        44,
        Name::TempCelsius,
        celsius_label(latest(hist.temp)),
        Series::Temp,
        hundred,
        Brush::Amber,
    ) + chart_card(
        false,
        130,
        Name::RamPercent,
        percent_label(latest(hist.ram)),
        Series::Ram,
        hundred,
        Brush::Magenta,
    ) + chart_card(
        true,
        130,
        Name::GpuPercent,
        gpu_label(latest(hist.gpu)),
        Series::Gpu,
        gpu_scale(hist.gpu),
        Brush::Violet,
    ) + net_chart(hist) + disk_chart(hist)
}

/// The charts, and below them the session.
pub open spec fn charts_ops(hist: HistoryView) -> Seq<Op> {
    six_charts(hist) + session_ops()
}

fn last_of(series: &Vec<Num>) -> (r: Option<Num>)
    ensures
        r == latest(series@),
{
    if series.len() > 0 {
        Some(series[series.len() - 1])
    } else {
        None
    }
}

fn push_chart_card(
    out: &mut Vec<Op>,
    second: bool,
    y: i64,
    name: Name,
    value: Option<Label>,
    series: Series,
    top: Num,
    brush: Brush,
)
    requires
        0 <= y <= 1000,
    ensures
        final(out)@ == old(out)@ + chart_card(second, y, name, value, series, top, brush),
{
    out.push(
        Op::Card { area: area(column_from(second, 0), column_to(second, 0), y, 0, 78), hover: false },
    );
    out.push(
        text(
            Label::Fixed(name),
            Font::Size9L,
            area(column_from(second, 8), column_to(second, 50), y, 4, 18),
            Brush::Dim,
        ),
    );
    match value {
        Some(label) => {
            let edge = column_to(second, 0);
            let from = Span { s: edge.s - 60, w: edge.w, h: edge.h };
            out.push(
                text(label, Font::Size10R, area(from, column_to(second, 8), y, 3, 19), brush),
            );
        },
        None => {},
    }
    out.push(
        Op::Chart {
            area: area(column_from(second, 8), column_to(second, 8), y, 20, 72),
            series,
            top,
            brush,
        },
    );
    assert(out@ == old(out)@ + chart_card(second, y, name, value, series, top, brush));
}

fn push_net_chart(out: &mut Vec<Op>, hist: &History)
    ensures
        final(out)@ == old(out)@ + net_chart(hist@),
{
    out.push(Op::Card { area: area(left(8), right(8), 216, 0, 78), hover: false });
    out.push(
        text(
            Label::Fixed(Name::NetRate),
            Font::Size9L,
            area(left(16), left(98), 216, 4, 18),
            Brush::Dim,
        ),
    );
    match last_of(&hist.net) {
        Some(v) => {
            out.push(
                text(
                    Label::Figure(v),
                    Font::Size10R,
                    area(right(78), right(16), 216, 3, 19),
                    Brush::Amber,
                ),
            );
        },
        None => {},
    }
    out.push(
        Op::Chart {
            area: area(left(16), right(16), 216, 20, 72),
            series: Series::Net,
            top: net_peak(hist),
            brush: Brush::Amber,
        },
    );
    assert(out@ == old(out)@ + net_chart(hist@));
}

fn push_disk_chart(out: &mut Vec<Op>, hist: &History)
    ensures
        final(out)@ == old(out)@ + disk_chart(hist@),
{
    let place = area(left(16), right(16), 302, 20, 72);
    let top = disk_peak(hist);
    out.push(Op::Card { area: area(left(8), right(8), 302, 0, 78), hover: false });
    out.push(
        text(
            Label::Fixed(Name::DiskReadWrite),
            Font::Size9L,
            area(left(16), left(118), 302, 4, 18),
            Brush::Dim,
        ),
    );
    out.push(
        text(Label::DiskPair, Font::Size10R, area(right(158), right(16), 302, 3, 19), Brush::Green),
    );
    out.push(Op::Chart { area: place, series: Series::DiskRead, top, brush: Brush::Green });
    out.push(Op::Chart { area: place, series: Series::DiskWrite, top, brush: Brush::Blue });
    assert(out@ == old(out)@ + disk_chart(hist@));
}

fn push_session_row(out: &mut Vec<Op>, y: i64, name: Name, max: Label, avg: Label, brush: Brush)
    requires
        0 <= y <= 1000,
    ensures
        final(out)@ == old(out)@ + session_row(y, name, max, avg, brush),
{
    out.push(
        text(Label::Fixed(name), Font::Size9L, area(left(18), left(58), y, 0, 16), Brush::Dim),
    );
    out.push(text(max, Font::Size9R, area(left(58), left(128), y, 0, 16), brush));
    out.push(text(avg, Font::Size9L, area(left(138), right(18), y, 0, 16), Brush::Dim));
    assert(out@ == old(out)@ + session_row(y, name, max, avg, brush));
}

/// The mode of the charts, with the statistics of the session below them.
#[verifier::rlimit(40)]
pub fn draw_charts(hist: &History) -> (r: Vec<Op>)
    ensures
        r@ == charts_ops(hist@),
{
    let mut out: Vec<Op> = Vec::new();
    push_chart_card(
        &mut out,
        false,
        44,
        Name::CpuPercent,
        match last_of(&hist.cpu) {
            Some(v) => Some(Label::Percent(v)),
            None => None,
        },
        Series::Cpu,
        num(HUNDRED),
        Brush::Cyan,
    );
    push_chart_card(
        &mut out,
        true,
        44,
        Name::TempCelsius,
        match last_of(&hist.temp) {
            Some(v) => Some(Label::Celsius(v)),
            None => None,
        },
        Series::Temp,
        num(HUNDRED),
        Brush::Amber,
    );
    push_chart_card(
        &mut out,
        false,
        130,
        Name::RamPercent,
        match last_of(&hist.ram) {
            Some(v) => Some(Label::Percent(v)),
            None => None,
        },
        Series::Ram,
        num(HUNDRED),
        Brush::Magenta,
    );
    push_chart_card(
        &mut out,
        true,
        130,
        Name::GpuPercent,
        match last_of(&hist.gpu) {
            Some(v) => Some(Label::GpuUse(v)),
            None => None,
        },
        Series::Gpu,
        gpu_peak(hist),
        Brush::Violet,
    );
    push_net_chart(&mut out, hist);
    push_disk_chart(&mut out, hist);
    let ghost before = out@;
    out.push(Op::Card { area: area(left(8), right(8), 388, 0, 104), hover: false });
    out.push(
        text(
            Label::SessionTitle,
            Font::Size9L,
            area(left(16), right(16), 388, 4, 18),
            Brush::Dim,
        ),
    );
    push_session_row(
        &mut out,
        408,
        Name::Cpu,
        Label::SessionMax(Tally::Cpu),
        Label::SessionAvg(Tally::Cpu),
        Brush::Cyan,
    );
    push_session_row(
        &mut out,
        428,
        Name::Ram,
        Label::SessionMax(Tally::Ram),
        Label::SessionAvg(Tally::Ram),
        Brush::Magenta,
    );
    push_session_row(
        &mut out,
        448,
        Name::Gpu,
        Label::SessionMax(Tally::Gpu),
        Label::SessionAvg(Tally::Gpu),
        Brush::Violet,
    );
    push_session_row(&mut out, 468, Name::Traffic, Label::NetMax, Label::NetAvg, Brush::Amber);
    assert(out@ == before + session_ops());
    assert(out@ == charts_ops(hist@));
    out
}

// --- Processes ---------------------------------------------------------------

/// How far down the row of a process starts.
pub open spec fn row_top(i: int) -> i64 {
    (80 + 48 * i) as i64
}

pub open spec fn row_area(i: int) -> Area {
    area_spec(left_spec(16), right_spec(16), row_top(i), 0, 44)
}

pub open spec fn kill_area(i: int) -> Area {
    area_spec(right_spec(78), right_spec(22), row_top(i), 8, 30)
}

/// The row of a process: its name, its figures and a button to end it.
pub open spec fn row_ops(i: int, cpu: Num, hover: bool) -> Seq<Op> {
    let y = row_top(i);
    (if hover {
        seq![Op::Fill { area: row_area(i), radius: left_spec(5), brush: Brush::CardHover }]
    } else {
        Seq::empty()
    }) + seq![
        text_spec(
            Label::ProcName(i as usize),
            Font::Size10L,
            area_spec(left_spec(24), right_spec(206), y, 5, 22),
            Brush::Txt,
        ),
        text_spec(
            Label::ProcDetail(i as usize),
            Font::Size9L,
            area_spec(left_spec(24), right_spec(206), y, 23, 38),
            Brush::Dim,
        ),
        text_spec(
            Label::Plain(cpu),
            Font::Size11R,
            area_spec(right_spec(201), right_spec(86), y, 5, 25),
            Brush::Cyan,
        ),
        Op::Fill { area: kill_area(i), radius: left_spec(4), brush: Brush::Alert },
        text_spec(
            Label::Fixed(Name::Kill),
            Font::Size9L,
            area_spec(right_spec(70), right_spec(22), y, 11, 30),
            Brush::Txt,
        ),
    ]
}

/// The rows of the first `n` processes, given their CPU use.
pub open spec fn rows_ops(cpus: Seq<Num>, n: nat, hover: Option<usize>) -> Seq<Op>
    decreases n,
{
    if n == 0 {
        Seq::empty()
    } else {
        rows_ops(cpus, (n - 1) as nat, hover) + row_ops(
            n - 1,
            cpus[n - 1],
            hover == Some((n - 1) as usize),
        )
    }
}

/// CPU use of the listed processes.
pub open spec fn cpus_of(state: AppState) -> Seq<Num> {
    Seq::new(state.procs@.len(), |i: int| state.procs@[i].cpu)
}

pub open spec fn procs_ops(cpus: Seq<Num>, hover: Option<usize>) -> Seq<Op> {
    let end = row_top(cpus.len() as int);
    seq![
        Op::Card {
            area: Area {
                l: left_spec(8),
                t: left_spec(44),
                r: right_spec(8),
                b: bottom_spec(8),
            },
            hover: false,
        },
        text_spec(
            Label::Fixed(Name::TopProcesses),
            Font::Size10B,
            area_spec(left_spec(20), left_spec(148), 44, 8, 26),
            Brush::Dim,
        ),
    ] + rows_ops(cpus, cpus.len(), hover) + seq![
        if cpus.len() == 0 {
            text_spec(
                Label::Fixed(Name::Sampling),
                Font::Size10L,
                area_spec(left_spec(20), right_spec(20), end, 10, 30),
                Brush::Dim,
            )
        } else {
            text_spec(
                Label::Fixed(Name::Footer),
                Font::Size9L,
                area_spec(left_spec(20), right_spec(20), end, 4, 20),
                Brush::Dim,
            )
        },
    ]
}

pub open spec fn procs_hits(pids: Seq<u32>) -> Seq<Hit> {
    Seq::new(pids.len(), |i: int| Hit { area: kill_area(i), action: Action::Kill(pids[i]) })
}

/// Numbers of the listed processes.
pub open spec fn pids_of(state: AppState) -> Seq<u32> {
    Seq::new(state.procs@.len(), |i: int| state.procs@[i].pid)
}

pub open spec fn procs_rows(n: nat) -> Seq<Area> {
    Seq::new(n, |i: int| row_area(i))
}

/// Whether the places of so many rows can be told.
pub open spec fn rows_fit(n: nat) -> bool {
    48 * n <= 0x7fff_ffff_ffff_0000
}

/// The mode of the processes: a row for each, with a button to end it.
pub fn draw_procs(
    state: &AppState,
    hover: Option<usize>,
    hits: &mut Vec<Hit>,
    rows: &mut Vec<Area>,
) -> (r: Vec<Op>)
    requires
        rows_fit(state.procs@.len()),
    ensures
        r@ == procs_ops(cpus_of(*state), hover),
        final(hits)@ == old(hits)@ + procs_hits(pids_of(*state)),
        final(rows)@ == old(rows)@ + procs_rows(state.procs@.len()),
{
    let ghost cpus = cpus_of(*state);
    let ghost pids = pids_of(*state);
    let n: usize = state.procs.len();
    let mut out: Vec<Op> = Vec::new();
    out.push(
        Op::Card {
            area: Area { l: left(8), t: left(44), r: right(8), b: bottom(8) },
            hover: false,
        },
    );
    out.push(
        text(
            Label::Fixed(Name::TopProcesses),
            Font::Size10B,
            area(left(20), left(148), 44, 8, 26),
            Brush::Dim,
        ),
    );
    let ghost start = out@;
    let mut y: i64 = 80;
    let mut i: usize = 0;
    assert(start + rows_ops(cpus, 0, hover) == start);
    assert(old(hits)@ + procs_hits(pids).take(0) == old(hits)@);
    assert(old(rows)@ + procs_rows(n as nat).take(0) == old(rows)@);
    while i < n
        invariant
            i <= n,
            n == state.procs.len(),
            rows_fit(n as nat),
            cpus == cpus_of(*state),
            pids == pids_of(*state),
            y == 80 + 48 * i,
            out@ == start + rows_ops(cpus, i as nat, hover),
            hits@ == old(hits)@ + procs_hits(pids).take(i as int),
            rows@ == old(rows)@ + procs_rows(n as nat).take(i as int),
        decreases n - i,
    {
        let p = &state.procs[i];
        let lit: bool = match hover {
            Some(k) => k == i,
            None => false,
        };
        let row = area(left(16), right(16), y, 0, 44);
        let kill = area(right(78), right(22), y, 8, 30);
        let ghost before = out@;
        if lit {
            out.push(Op::Fill { area: row, radius: left(5), brush: Brush::CardHover });
        }
        out.push(
            text(
                Label::ProcName(i),
                Font::Size10L,
                area(left(24), right(206), y, 5, 22),
                Brush::Txt,
            ),
        );
        out.push(
            text(
                Label::ProcDetail(i),
                Font::Size9L,
                area(left(24), right(206), y, 23, 38),
                Brush::Dim,
            ),
        );
        out.push(
            text(
                Label::Plain(p.cpu),
                Font::Size11R,
                area(right(201), right(86), y, 5, 25),
                Brush::Cyan,
            ),
        );
        out.push(Op::Fill { area: kill, radius: left(4), brush: Brush::Alert });
        out.push(
            text(
                Label::Fixed(Name::Kill),
                Font::Size9L,
                area(right(70), right(22), y, 11, 30),
                Brush::Txt,
            ),
        );
        proof {
            let added = row_ops(i as int, cpus[i as int], hover == Some(i));
            assert(out@ == before + added);
            let done = rows_ops(cpus, i as nat, hover);
            assert((start + done) + added == start + (done + added));
            assert(rows_ops(cpus, (i + 1) as nat, hover) == done + added);
        }
        hits.push(Hit { area: kill, action: Action::Kill(p.pid) });
        rows.push(row);
        assert(hits@ == old(hits)@ + procs_hits(pids).take(i + 1));
        assert(rows@ == old(rows)@ + procs_rows(n as nat).take(i + 1));
        y = y + 48;
        i = i + 1;
    }
    assert(procs_hits(pids).take(n as int) == procs_hits(pids));
    assert(procs_rows(n as nat).take(n as int) == procs_rows(n as nat));
    if n == 0 {
        out.push(
            text(
                Label::Fixed(Name::Sampling),
                Font::Size10L,
                area(left(20), right(20), y, 10, 30),
                Brush::Dim,
            ),
        );
    } else {
        out.push(
            text(
                Label::Fixed(Name::Footer),
                Font::Size9L,
                area(left(20), right(20), y, 4, 20),
                Brush::Dim,
            ),
        );
    }
    assert(out@ == procs_ops(cpus, hover));
    out
}

// --- Laws of the layout ------------------------------------------------------

impl Span {
    /// Twice the distance of a place from the left or upper edge, for a window of
    /// the given width and height and the given size of a scaled pixel.
    pub open spec fn twice(self, pixel: int, width: int, height: int) -> int {
        2 * self.s * pixel + self.w * width + 2 * self.h * height
    }
}

/// One area lies beside, above or below the other.
pub open spec fn apart(a: Area, b: Area, pixel: int, width: int, height: int) -> bool {
    let at = |p: Span| p.twice(pixel, width, height);
    at(a.r) <= at(b.l) || at(b.r) <= at(a.l) || at(a.b) <= at(b.t) || at(b.b) <= at(a.t)
}

/// One area lies within the other.
pub open spec fn within(a: Area, b: Area, pixel: int, width: int, height: int) -> bool {
    let at = |p: Span| p.twice(pixel, width, height);
    at(b.l) <= at(a.l) && at(a.r) <= at(b.r) && at(b.t) <= at(a.t) && at(a.b) <= at(b.b)
}

/// The buttons of the header do not overlap, lie in the header, and leave the title
/// free in a window of the usual width.
pub proof fn law_buttons_keep_apart(i: int, j: int, pixel: int, width: int, height: int)
    requires
        0 <= i < j < 6,
        pixel > 0,
    ensures
        apart(button_area(i), button_area(j), pixel, width, height),
        0 <= button_area(i).t.s && button_area(i).b.s <= 36,
        width == 340 * pixel ==> apart(
            button_area(i),
            area_spec(left_spec(24), left_spec(130), 0, 6, 32),
            pixel,
            width,
            height,
        ),
{
    let (a, b) = (button_area(j), button_area(i));
    assert(2 * a.r.s * pixel + 2 * width <= 2 * b.l.s * pixel + 2 * width) by (nonlinear_arith)
        requires
            a.r.s <= b.l.s,
            pixel > 0,
    ;
    assert(a.r.twice(pixel, width, height) <= b.l.twice(pixel, width, height));
    if width == 340 * pixel {
        assert(2 * 130 * pixel <= 2 * b.l.s * pixel + 2 * width) by (nonlinear_arith)
            requires
                b.l.s >= -172,
                width == 340 * pixel,
                pixel > 0,
        ;
    }
}

/// The rows of the processes do not overlap, and the button of each lies in its
/// row.
pub proof fn law_rows_keep_apart(i: int, j: int, pixel: int, width: int, height: int)
    requires
        0 <= i < j,
        rows_fit(j as nat),
        pixel > 0,
    ensures
        apart(row_area(i), row_area(j), pixel, width, height),
        width >= 94 * pixel ==> within(kill_area(i), row_area(i), pixel, width, height),
{
    let (a, b) = (row_area(i), row_area(j));
    assert(a.b.s <= b.t.s);
    assert(2 * a.b.s * pixel <= 2 * b.t.s * pixel) by (nonlinear_arith)
        requires
            a.b.s <= b.t.s,
            pixel > 0,
    ;
    let k = kill_area(i);
    if width >= 94 * pixel {
        assert(2 * a.t.s * pixel <= 2 * k.t.s * pixel && 2 * k.b.s * pixel <= 2 * a.b.s * pixel)
            by (nonlinear_arith)
            requires
                a.t.s <= k.t.s,
                k.b.s <= a.b.s,
                pixel > 0,
        ;
        assert(2 * 16 * pixel <= 2 * (-78) * pixel + 2 * width) by (nonlinear_arith)
            requires
                width >= 94 * pixel,
        ;
        assert(2 * (-22) * pixel <= 2 * (-16) * pixel) by (nonlinear_arith)
            requires
                pixel > 0,
        ;
    }
}

/// How far down a drawing reaches, in scaled pixels.
pub open spec fn lowest(op: Op) -> int {
    match op {
        Op::Rule { y, .. } => y.s as int,
        Op::Dot { y, radius, .. } => y.s + radius.s,
        Op::Card { area, .. } => area.b.s as int,
        Op::Fill { area, .. } => area.b.s as int,
        Op::Text { area, .. } => area.b.s as int,
        Op::Bar { y, height, .. } => y.s + height.s,
        Op::Chart { area, .. } => area.b.s as int,
    }
}

pub open spec fn all_above(ops: Seq<Op>, height: int) -> bool {
    forall|i: int| 0 <= i < ops.len() ==> lowest(#[trigger] ops[i]) <= height
}

proof fn lemma_above_joined(a: Seq<Op>, b: Seq<Op>, height: int)
    requires
        all_above(a, height),
        all_above(b, height),
    ensures
        all_above(a + b, height),
{
    assert forall|i: int| 0 <= i < (a + b).len() implies lowest(#[trigger] (a + b)[i]) <= height by {
        if i < a.len() {
            assert(lowest(a[i]) <= height);
        } else {
            assert(lowest(b[i - a.len()]) <= height);
        }
    }
}

/// Where the cards of the charts lie: those of the six charts, and that of the
/// session.
pub open spec fn chart_place(k: int) -> Area {
    if k < 4 {
        let second = k % 2 == 1;
        area_spec(
            column_left(second, 0),
            column_right(second, 0),
            if k < 2 {
                44
            } else {
                130
            },
            0,
            78,
        )
    } else if k == 4 {
        area_spec(left_spec(8), right_spec(8), 216, 0, 78)
    } else if k == 5 {
        area_spec(left_spec(8), right_spec(8), 302, 0, 78)
    } else {
        area_spec(left_spec(8), right_spec(8), 388, 0, 104)
    }
}

/// Every card lies at one of the places `from..to`.
pub open spec fn cards_placed(ops: Seq<Op>, from: int, to: int) -> bool {
    forall|i: int|
        0 <= i < ops.len() && (#[trigger] ops[i]) is Card ==> exists|k: int|
            from <= k < to && ops[i]->Card_area == #[trigger] chart_place(k)
}

proof fn lemma_placed_joined(a: Seq<Op>, b: Seq<Op>, from: int, middle: int, to: int)
    requires
        cards_placed(a, from, middle),
        cards_placed(b, middle, to),
        from <= middle <= to,
    ensures
        cards_placed(a + b, from, to),
{
    assert forall|i: int| 0 <= i < (a + b).len() && (#[trigger] (a + b)[i]) is Card implies exists|
        k: int,
    |
        from <= k < to && (a + b)[i]->Card_area == #[trigger] chart_place(k) by {
        if i < a.len() {
            assert(a[i] is Card);
            let k = choose|k: int|
                from <= k < middle && a[i]->Card_area == #[trigger] chart_place(k);
            assert((a + b)[i]->Card_area == chart_place(k));
        } else {
            assert(b[i - a.len()] is Card);
            let k = choose|k: int|
                middle <= k < to && b[i - a.len()]->Card_area == #[trigger] chart_place(k);
            assert((a + b)[i]->Card_area == chart_place(k));
        }
    }
}

proof fn lemma_charts_placed(hist: HistoryView)
    ensures
        cards_placed(charts_ops(hist), 0, 7),
{
    let hundred = num_of(HUNDRED);
    let cpu = chart_card(
        false,
        44,
        Name::CpuPercent,
        percent_label(latest(hist.cpu)),
        Series::Cpu,
        hundred,
        Brush::Cyan,
    );
    let temp = chart_card(
        true,
        44,
        Name::TempCelsius,
        celsius_label(latest(hist.temp)),
        Series::Temp,
        hundred,
        Brush::Amber,
    );
    let ram = chart_card(
        false,
        130,
        Name::RamPercent,
        percent_label(latest(hist.ram)),
        Series::Ram,
        hundred,
        Brush::Magenta,
    );
    let gpu = chart_card(
        true,
        130,
        Name::GpuPercent,
        gpu_label(latest(hist.gpu)),
        Series::Gpu,
        gpu_scale(hist.gpu),
        Brush::Violet,
    );
    assert(cards_placed(cpu, 0, 1)) by {
        assert(cpu[0]->Card_area == chart_place(0));
    }
    assert(cards_placed(temp, 1, 2)) by {
        assert(temp[0]->Card_area == chart_place(1));
    }
    assert(cards_placed(ram, 2, 3)) by {
        assert(ram[0]->Card_area == chart_place(2));
    }
    assert(cards_placed(gpu, 3, 4)) by {
        assert(gpu[0]->Card_area == chart_place(3));
    }
    assert(cards_placed(net_chart(hist), 4, 5)) by {
        assert(net_chart(hist)[0]->Card_area == chart_place(4));
    }
    assert(cards_placed(disk_chart(hist), 5, 6)) by {
        assert(disk_chart(hist)[0]->Card_area == chart_place(5));
    }
    assert(cards_placed(session_ops(), 6, 7)) by {
        assert(session_ops()[0]->Card_area == chart_place(6));
    }
    lemma_placed_joined(cpu, temp, 0, 1, 2);
    lemma_placed_joined(cpu + temp, ram, 0, 2, 3);
    lemma_placed_joined(cpu + temp + ram, gpu, 0, 3, 4);
    lemma_placed_joined(cpu + temp + ram + gpu, net_chart(hist), 0, 4, 5);
    lemma_placed_joined(cpu + temp + ram + gpu + net_chart(hist), disk_chart(hist), 0, 5, 6);
    lemma_placed_joined(six_charts(hist), session_ops(), 0, 6, 7);
}

/// The cards of the charts lie at seven places, which do not overlap and end above the
/// lower edge of the window: all six charts and the session can be seen.
pub proof fn law_charts_keep_apart(
    hist: HistoryView,
    i: int,
    j: int,
    pixel: int,
    width: int,
    height: int,
)
    requires
        0 <= i < j < 7,
        pixel > 0,
    ensures
        cards_placed(charts_ops(hist), 0, 7),
        apart(chart_place(i), chart_place(j), pixel, width, height),
        0 < chart_place(i).t.s && chart_place(j).b.s <= 500 - 8,
{
    lemma_charts_placed(hist);
    let (a, b) = (chart_place(i), chart_place(j));
    if a.b.s <= b.t.s {
        assert(2 * a.b.s * pixel <= 2 * b.t.s * pixel) by (nonlinear_arith)
            requires
                a.b.s <= b.t.s,
                pixel > 0,
        ;
    } else {
        assert(a.r == middle_spec((-4) as i64) && b.l == middle_spec(4));
        assert(2 * (-4) * pixel + width <= 2 * 4 * pixel + width) by (nonlinear_arith)
            requires
                pixel > 0,
        ;
    }
}

/// The drawing of every mode ends within the window: at most 500 pixels down, in
/// the small mode at most 245. The list of processes is at most five rows long.
#[verifier::rlimit(40)]
pub proof fn law_drawings_fit_the_window(
    snap: SnapshotView,
    hover: Option<Action>,
    hist: HistoryView,
    rows: int,
)
    requires
        0 <= rows <= 5,
    ensures
        all_above(dev_ops(snap), 500),
        all_above(mini_ops(snap, hover), 245),
        all_above(charts_ops(hist), 500),
        row_top(rows) + 30 <= 500 - 8,
{
    let hundred = num_of(HUNDRED);
    assert(all_above(session_ops(), 500));
    assert(all_above(net_chart(hist), 500));
    assert(all_above(disk_chart(hist), 500));
    let cpu = chart_card(
        false,
        44,
        Name::CpuPercent,
        percent_label(latest(hist.cpu)),
        Series::Cpu,
        hundred,
        Brush::Cyan,
    );
    let temp = chart_card(
        true,
        44,
        Name::TempCelsius,
        celsius_label(latest(hist.temp)),
        Series::Temp,
        hundred,
        Brush::Amber,
    );
    let ram = chart_card(
        false,
        130,
        Name::RamPercent,
        percent_label(latest(hist.ram)),
        Series::Ram,
        hundred,
        Brush::Magenta,
    );
    let gpu = chart_card(
        true,
        130,
        Name::GpuPercent,
        gpu_label(latest(hist.gpu)),
        Series::Gpu,
        gpu_scale(hist.gpu),
        Brush::Violet,
    );
    lemma_above_joined(cpu, temp, 500);
    lemma_above_joined(cpu + temp, ram, 500);
    lemma_above_joined(cpu + temp + ram, gpu, 500);
    lemma_above_joined(cpu + temp + ram + gpu, net_chart(hist), 500);
    lemma_above_joined(cpu + temp + ram + gpu + net_chart(hist), disk_chart(hist), 500);
    lemma_above_joined(six_charts(hist), session_ops(), 500);
}

// --- What is told ------------------------------------------------------------

/// Whether something drawn is a text that says the given label in the given colour.
pub open spec fn tells(op: Op, label: Label, brush: Brush) -> bool {
    op is Text && op->Text_label == label && op->Text_brush == brush
}

/// Whether something drawn is a bar of the given colour, filled to a percentage.
pub open spec fn fills_to(op: Op, percent: Num, brush: Brush) -> bool {
    op is Bar && op->Bar_percent == percent && op->Bar_brush == brush
}

/// Whether something drawn is the chart of a series on a scale.
pub open spec fn charts(op: Op, series: Series, top: Num) -> bool {
    op is Chart && op->Chart_series == series && op->Chart_top == top
}

/// The full mode tells CPU use, temperature, GPU use, memory, network and disk, each
/// under its own name and with a bar of its own. CPU use is lit from 85 percent on, the
/// temperature from 80 degrees. Without a sensor a text says why.
pub proof fn law_full_mode_tells_all(snap: SnapshotView)
    ensures
        ({
            let ops = dev_ops(snap);
            let (zero, hundred) = (num_of(ZERO), num_of(HUNDRED));
            let cpu = snap.cpu.held_within(zero, hundred);
            let ram = snap.memory.percent.held_within(zero, hundred);
            let sensed = num_of(MINUS_ONE).below(snap.cpu_temp);
            let k = if sensed {
                0int
            } else {
                1int
            };
            &&& ops.len() == 25 + k
            &&& tells(ops[1], Label::Fixed(Name::Cpu), Brush::Dim)
            &&& tells(
                ops[2],
                Label::Percent(snap.cpu),
                if num_of(EIGHTY_FIVE).at_most(cpu) {
                    Brush::Alert
                } else {
                    Brush::Cyan
                },
            )
            &&& fills_to(ops[3], cpu, Brush::Cyan)
            &&& tells(ops[5], Label::Fixed(Name::CpuTemp), Brush::Dim)
            &&& tells(
                ops[6],
                Label::Celsius(snap.cpu_temp),
                if num_of(EIGHTY).at_most(snap.cpu_temp) {
                    Brush::Alert
                } else {
                    Brush::Amber
                },
            )
            &&& fills_to(
                ops[7],
                if sensed {
                    snap.cpu_temp
                } else {
                    zero
                },
                Brush::Amber,
            )
            &&& !sensed ==> tells(ops[8], Label::TempHint, Brush::Dim)
            &&& tells(ops[9 + k], Label::Fixed(Name::Gpu), Brush::Dim)
            &&& tells(ops[10 + k], Label::GpuUse(snap.gpu), Brush::Violet)
            &&& fills_to(
                ops[11 + k],
                if num_of(MINUS_ONE).below(snap.gpu) {
                    snap.gpu
                } else {
                    zero
                },
                Brush::Violet,
            )
            &&& tells(ops[12 + k], Label::GpuDetail, Brush::Dim)
            &&& tells(ops[14 + k], Label::Fixed(Name::Ram), Brush::Dim)
            &&& tells(ops[15 + k], Label::Percent(snap.memory.percent), Brush::Magenta)
            &&& fills_to(ops[16 + k], ram, Brush::Magenta)
            &&& tells(ops[17 + k], Label::Memory, Brush::Dim)
            &&& tells(ops[19 + k], Label::Fixed(Name::Net), Brush::Dim)
            &&& tells(ops[20 + k], Label::Iface, Brush::Dim)
            &&& tells(ops[21 + k], Label::NetRates { wide: true }, Brush::Amber)
            &&& tells(ops[23 + k], Label::Fixed(Name::Disk), Brush::Dim)
            &&& tells(ops[24 + k], Label::DiskRates, Brush::Green)
        }),
{
}

/// The small mode tells CPU use, memory, temperature, GPU use and network, each under its
/// own name; without a reading there is no bar. CPU use is lit from 85 percent on,
/// memory from 90.
pub proof fn law_small_mode_tells_the_rest(snap: SnapshotView, hover: Option<Action>)
    ensures
        ({
            let ops = mini_ops(snap, hover);
            let (zero, hundred) = (num_of(ZERO), num_of(HUNDRED));
            let cpu = snap.cpu.held_within(zero, hundred);
            let ram = snap.memory.percent.held_within(zero, hundred);
            let (sensed, counted) = (
                num_of(MINUS_ONE).below(snap.cpu_temp),
                num_of(MINUS_ONE).below(snap.gpu),
            );
            let a = if sensed {
                1int
            } else {
                0int
            };
            let b = a + if counted {
                1int
            } else {
                0int
            };
            &&& ops.len() == 17 + b
            &&& tells(ops[1], Label::Fixed(Name::Cpu), Brush::Dim)
            &&& fills_to(ops[2], cpu, Brush::Cyan)
            &&& tells(
                ops[3],
                Label::Plain(snap.cpu),
                if num_of(EIGHTY_FIVE).at_most(cpu) {
                    Brush::Alert
                } else {
                    Brush::Txt
                },
            )
            &&& tells(ops[5], Label::Fixed(Name::Ram), Brush::Dim)
            &&& fills_to(ops[6], ram, Brush::Magenta)
            &&& tells(
                ops[7],
                Label::Plain(snap.memory.percent),
                if num_of(NINETY).at_most(ram) {
                    Brush::Alert
                } else {
                    Brush::Txt
                },
            )
            &&& tells(ops[9], Label::Fixed(Name::Temp), Brush::Dim)
            &&& sensed ==> fills_to(ops[10], snap.cpu_temp, Brush::Amber)
            &&& tells(ops[10 + a], Label::Celsius(snap.cpu_temp), Brush::Txt)
            &&& tells(ops[12 + a], Label::Fixed(Name::Gpu), Brush::Dim)
            &&& counted ==> fills_to(ops[13 + a], snap.gpu, Brush::Violet)
            &&& tells(ops[13 + b], Label::GpuUse(snap.gpu), Brush::Txt)
            &&& tells(ops[15 + b], Label::Iface, Brush::Dim)
            &&& tells(ops[16 + b], Label::NetRates { wide: false }, Brush::Amber)
        }),
{
}

spec fn one_where(series: Seq<Num>) -> int {
    if series.len() > 0 {
        1
    } else {
        0
    }
}

/// The charts show every series under its own name, with the latest reading where there
/// is one: percentages and degrees up to 100, the others on their own scale. Below them
/// stand maximum and average of the session.
pub proof fn law_charts_show_all(hist: HistoryView)
    ensures
        ({
            let ops = charts_ops(hist);
            let hundred = num_of(HUNDRED);
            let a = if hist.cpu.len() > 0 {
                1int
            } else {
                0int
            };
            let b = a + if hist.temp.len() > 0 {
                1int
            } else {
                0int
            };
            let c = b + if hist.ram.len() > 0 {
                1int
            } else {
                0int
            };
            let d = c + if hist.gpu.len() > 0 {
                1int
            } else {
                0int
            };
            let e = d + if hist.net.len() > 0 {
                1int
            } else {
                0int
            };
            &&& ops.len() == 34 + e
            &&& tells(ops[1], Label::Fixed(Name::CpuPercent), Brush::Dim)
            &&& hist.cpu.len() > 0 ==> tells(ops[2], Label::Percent(hist.cpu.last()), Brush::Cyan)
            &&& charts(ops[2 + a], Series::Cpu, hundred)
            &&& tells(ops[4 + a], Label::Fixed(Name::TempCelsius), Brush::Dim)
            &&& hist.temp.len() > 0 ==> tells(
                ops[5 + a],
                Label::Celsius(hist.temp.last()),
                Brush::Amber,
            )
            &&& charts(ops[5 + b], Series::Temp, hundred)
            &&& tells(ops[7 + b], Label::Fixed(Name::RamPercent), Brush::Dim)
            &&& hist.ram.len() > 0 ==> tells(
                ops[8 + b],
                Label::Percent(hist.ram.last()),
                Brush::Magenta,
            )
            &&& charts(ops[8 + c], Series::Ram, hundred)
            &&& tells(ops[10 + c], Label::Fixed(Name::GpuPercent), Brush::Dim)
            &&& hist.gpu.len() > 0 ==> tells(
                ops[11 + c],
                Label::GpuUse(hist.gpu.last()),
                Brush::Violet,
            )
            &&& charts(ops[11 + d], Series::Gpu, gpu_scale(hist.gpu))
            &&& tells(ops[13 + d], Label::Fixed(Name::NetRate), Brush::Dim)
            &&& hist.net.len() > 0 ==> tells(
                ops[14 + d],
                Label::Figure(hist.net.last()),
                Brush::Amber,
            )
            &&& charts(ops[14 + e], Series::Net, net_scale(hist.net))
            &&& tells(ops[16 + e], Label::Fixed(Name::DiskReadWrite), Brush::Dim)
            &&& tells(ops[17 + e], Label::DiskPair, Brush::Green)
            &&& charts(ops[18 + e], Series::DiskRead, disk_scale(hist.disk_r, hist.disk_w))
            &&& charts(ops[19 + e], Series::DiskWrite, disk_scale(hist.disk_r, hist.disk_w))
            &&& tells(ops[21 + e], Label::SessionTitle, Brush::Dim)
            &&& tells(ops[22 + e], Label::Fixed(Name::Cpu), Brush::Dim)
            &&& tells(ops[23 + e], Label::SessionMax(Tally::Cpu), Brush::Cyan)
            &&& tells(ops[24 + e], Label::SessionAvg(Tally::Cpu), Brush::Dim)
            &&& tells(ops[25 + e], Label::Fixed(Name::Ram), Brush::Dim)
            &&& tells(ops[26 + e], Label::SessionMax(Tally::Ram), Brush::Magenta)
            &&& tells(ops[27 + e], Label::SessionAvg(Tally::Ram), Brush::Dim)
            &&& tells(ops[28 + e], Label::Fixed(Name::Gpu), Brush::Dim)
            &&& tells(ops[29 + e], Label::SessionMax(Tally::Gpu), Brush::Violet)
            &&& tells(ops[30 + e], Label::SessionAvg(Tally::Gpu), Brush::Dim)
            &&& tells(ops[31 + e], Label::Fixed(Name::Traffic), Brush::Dim)
            &&& tells(ops[32 + e], Label::NetMax, Brush::Amber)
            &&& tells(ops[33 + e], Label::NetAvg, Brush::Dim)
        }),
{
    let (a, b, c, d, e) = (
        one_where(hist.cpu),
        one_where(hist.temp),
        one_where(hist.ram),
        one_where(hist.gpu),
        one_where(hist.net),
    );
    let hundred = num_of(HUNDRED);
    let p = chart_card(
        false,
        44,
        Name::CpuPercent,
        percent_label(latest(hist.cpu)),
        Series::Cpu,
        hundred,
        Brush::Cyan,
    );
    let q = chart_card(
        true,
        44,
        Name::TempCelsius,
        celsius_label(latest(hist.temp)),
        Series::Temp,
        hundred,
        Brush::Amber,
    );
    let r = chart_card(
        false,
        130,
        Name::RamPercent,
        percent_label(latest(hist.ram)),
        Series::Ram,
        hundred,
        Brush::Magenta,
    );
    let s = chart_card(
        true,
        130,
        Name::GpuPercent,
        gpu_label(latest(hist.gpu)),
        Series::Gpu,
        gpu_scale(hist.gpu),
        Brush::Violet,
    );
    let (n, m, t) = (net_chart(hist), disk_chart(hist), session_ops());
    assert(p.len() == 3 + a && q.len() == 3 + b && r.len() == 3 + c && s.len() == 3 + d && n.len()
        == 3 + e && m.len() == 5 && t.len() == 14);
    let ops = charts_ops(hist);
    assert(ops == p + q + r + s + n + m + t);
    let k1 = p.len() as int;
    let k2 = k1 + q.len();
    let k3 = k2 + r.len();
    let k4 = k3 + s.len();
    let k5 = k4 + n.len();
    let k6 = k5 + m.len();
    assert forall|i: int| 0 <= i < p.len() implies ops[i] == #[trigger] p[i] by {}
    assert forall|i: int| 0 <= i < q.len() implies ops[k1 + i] == #[trigger] q[i] by {}
    assert forall|i: int| 0 <= i < r.len() implies ops[k2 + i] == #[trigger] r[i] by {}
    assert forall|i: int| 0 <= i < s.len() implies ops[k3 + i] == #[trigger] s[i] by {}
    assert forall|i: int| 0 <= i < n.len() implies ops[k4 + i] == #[trigger] n[i] by {}
    assert forall|i: int| 0 <= i < m.len() implies ops[k5 + i] == #[trigger] m[i] by {}
    assert forall|i: int| 0 <= i < t.len() implies ops[k6 + i] == #[trigger] t[i] by {}
    assert(p[1] == ops[1] && p[2] == ops[2] && p[2 + a] == ops[2 + a]);
    assert(q[1] == ops[4 + a] && q[2] == ops[5 + a] && q[2 + b] == ops[5 + a + b]);
    assert(r[1] == ops[7 + a + b] && r[2] == ops[8 + a + b] && r[2 + c] == ops[8 + a + b + c]);
    assert(s[1] == ops[10 + a + b + c] && s[2] == ops[11 + a + b + c] && s[2 + d] == ops[11 + a + b
        + c + d]);
    let z = a + b + c + d;
    assert(n[1] == ops[13 + z] && n[2] == ops[14 + z] && n[2 + e] == ops[14 + z + e]);
    assert(m[1] == ops[16 + z + e] && m[2] == ops[17 + z + e] && m[3] == ops[18 + z + e] && m[4]
        == ops[19 + z + e]);
    assert(t[1] == ops[21 + z + e] && t[2] == ops[22 + z + e] && t[3] == ops[23 + z + e] && t[4]
        == ops[24 + z + e] && t[5] == ops[25 + z + e] && t[6] == ops[26 + z + e] && t[7] == ops[27
        + z + e] && t[8] == ops[28 + z + e] && t[9] == ops[29 + z + e] && t[10] == ops[30 + z + e]
        && t[11] == ops[31 + z + e] && t[12] == ops[32 + z + e] && t[13] == ops[33 + z + e]);
}

proof fn lemma_rows_hold(cpus: Seq<Num>, n: nat, hover: Option<usize>, i: int, op: Op)
    requires
        0 <= i < n <= cpus.len(),
        row_ops(i, cpus[i], hover == Some(i as usize)).contains(op),
    ensures
        rows_ops(cpus, n, hover).contains(op),
    decreases n,
{
    let before = rows_ops(cpus, (n - 1) as nat, hover);
    let row = row_ops(n - 1, cpus[n - 1], hover == Some((n - 1) as usize));
    if i == n - 1 {
        let j = row.index_of(op);
        assert((before + row)[before.len() + j] == op);
    } else {
        lemma_rows_hold(cpus, (n - 1) as nat, hover, i, op);
        let j = before.index_of(op);
        assert((before + row)[j] == op);
    }
}

/// The list of processes has for each of them, in its own row, the name, the details, CPU
/// use and a button to end it, where a click ends that process and no other.
pub proof fn law_list_tells_of_every_process(
    cpus: Seq<Num>,
    pids: Seq<u32>,
    hover: Option<usize>,
    i: int,
)
    requires
        0 <= i < cpus.len(),
        cpus.len() == pids.len(),
    ensures
        ({
            let ops = procs_ops(cpus, hover);
            let y = row_top(i);
            &&& exists|j: int|
                0 <= j < ops.len() && tells(
                    #[trigger] ops[j],
                    Label::ProcName(i as usize),
                    Brush::Txt,
                ) && ops[j]->Text_area.t == left_spec((y + 5) as i64)
            &&& exists|j: int|
                0 <= j < ops.len() && tells(
                    #[trigger] ops[j],
                    Label::ProcDetail(i as usize),
                    Brush::Dim,
                ) && ops[j]->Text_area.t == left_spec((y + 23) as i64)
            &&& exists|j: int|
                0 <= j < ops.len() && tells(#[trigger] ops[j], Label::Plain(cpus[i]), Brush::Cyan)
                    && ops[j]->Text_area.t == left_spec((y + 5) as i64)
            &&& ops.contains(
                Op::Fill {
                    area: procs_hits(pids)[i].area,
                    radius: left_spec(4),
                    brush: Brush::Alert,
                },
            )
            &&& procs_hits(pids).len() == pids.len()
            &&& procs_hits(pids)[i].action == Action::Kill(pids[i])
            &&& hover == Some(i as usize) ==> ops.contains(
                Op::Fill {
                    area: procs_rows(cpus.len())[i],
                    radius: left_spec(5),
                    brush: Brush::CardHover,
                },
            )
        }),
{
    let ops = procs_ops(cpus, hover);
    let lit = hover == Some(i as usize);
    let row = row_ops(i, cpus[i], lit);
    let rows = rows_ops(cpus, cpus.len(), hover);
    let k = if lit {
        1int
    } else {
        0int
    };
    assert forall|op: Op| #[trigger] row.contains(op) implies ops.contains(op) by {
        lemma_rows_hold(cpus, cpus.len(), hover, i, op);
        let j = rows.index_of(op);
        assert(ops[2 + j] == op);
    }
    let (name, detail, cpu, button) = (row[k], row[k + 1], row[k + 2], row[k + 3]);
    assert(row.contains(name) && row.contains(detail) && row.contains(cpu) && row.contains(button));
    let (a, b, c) = (ops.index_of(name), ops.index_of(detail), ops.index_of(cpu));
    assert(ops[a] == name && ops[b] == detail && ops[c] == cpu);
    if lit {
        assert(row.contains(row[0]));
    }
}

/// The header has a sign for each of its buttons, where the button answers to clicks,
/// and the signs of the present mode and of a set pin are lit.
pub proof fn law_header_shows_its_buttons(mode: Mode, pinned: bool, hover: Option<Action>, k: int)
    requires
        0 <= k < 6,
    ensures
        ({
            let ops = header_ops(mode, pinned, hover);
            let hit = header_hits()[k];
            let on = hit.action == Action::Mode(mode) || (hit.action == Action::Pin && pinned);
            header_hits().len() == 6 && exists|j: int|
                0 <= j < ops.len() && tells(
                    #[trigger] ops[j],
                    Label::Glyph(hit.action),
                    if on {
                        Brush::Cyan
                    } else {
                        Brush::Dim
                    },
                ) && ops[j]->Text_area == hit.area
        }),
{
    let j = lemma_button_drawn(6, mode, pinned, hover, k);
    assert(header_ops(mode, pinned, hover)[3 + j] == buttons_ops(6, mode, pinned, hover)[j]);
}

proof fn lemma_button_drawn(n: nat, mode: Mode, pinned: bool, hover: Option<Action>, k: int) -> (j:
    int)
    requires
        0 <= k < n,
    ensures
        0 <= j < buttons_ops(n, mode, pinned, hover).len(),
        tells(
            buttons_ops(n, mode, pinned, hover)[j],
            Label::Glyph(button(k)),
            if active(button(k), mode, pinned) {
                Brush::Cyan
            } else {
                Brush::Dim
            },
        ),
        buttons_ops(n, mode, pinned, hover)[j]->Text_area == button_area(k),
    decreases n,
{
    let before = buttons_ops((n - 1) as nat, mode, pinned, hover);
    let last = button_ops(n - 1, mode, pinned, hover);
    if k == n - 1 {
        let j = last.len() - 1;
        assert((before + last)[before.len() + j] == last[j]);
        before.len() + j
    } else {
        let j = lemma_button_drawn((n - 1) as nat, mode, pinned, hover, k);
        assert((before + last)[j] == before[j]);
        j
    }
}

} // verus!
