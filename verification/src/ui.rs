//! The state of the window's contents, drawing it, and what lies under the mouse.
//! Places on the screen are binary32 numbers.

use vstd::prelude::*;
use vstd::string::StringExecFns;
use crate::arith::{integer, of_integer};
use crate::digits::{decimal, decimal_text};
use crate::figures::{fixed, fixed_text};
use crate::format::{exe_path, exe_path_text};
use crate::history::{no_history, History, HistoryView, TWO};
use crate::layout::{charts_ops, cpus_of, dev_ops, draw_charts, draw_dev, draw_header, draw_mini, draw_procs, header_hits, header_ops, mini_hits, mini_ops, pids_of, procs_hits, procs_ops, procs_rows, rows_fit, Action, Area, Hit, Op, Span};
use crate::metrics::{AppState, ProcInfo, ProcView};
use crate::num::{num, num_of, Num, ONE};
use crate::settings::Mode;
use crate::single::law_integer_single;
use crate::text::chars_of;

verus! {

// --- Places on the screen ----------------------------------------------------

/// The scale of the screen, and the size of the window in pixels.
#[derive(Clone, Copy, Debug, PartialEq, Eq, Structural)]
pub struct Screen {
    pub scale: Num,
    pub w: Num,
    pub h: Num,
}

impl Screen {
    /// Where a place lies.
    pub open spec fn at(self, place: Span) -> Num {
        of_integer(place.s as int).product32(self.scale).sum32(
            of_integer(place.w as int).product32(self.w).quotient32(num_of(TWO)),
        ).sum32(of_integer(place.h as int).product32(self.h))
    }

    /// The window in logical pixels, of which the scale makes pixels.
    pub open spec fn logical(self) -> Screen {
        Screen {
            scale: num_of(ONE),
            w: self.w.quotient32(self.scale),
            h: self.h.quotient32(self.scale),
        }
    }

    pub open spec fn rect(self, area: Area) -> RECT_F {
        RECT_F { l: self.at(area.l), t: self.at(area.t), r: self.at(area.r), b: self.at(area.b) }
    }

    /// Where a place lies.
    pub fn place(&self, place: Span) -> (r: Num)
        ensures
            r == self.at(place),
    {
        integer(place.s).times32(self.scale).plus32(
            integer(place.w).times32(self.w).over32(num(TWO)),
        ).plus32(integer(place.h).times32(self.h))
    }

    fn in_logical(&self) -> (r: Screen)
        ensures
            r == self.logical(),
    {
        Screen { scale: num(ONE), w: self.w.over32(self.scale), h: self.h.over32(self.scale) }
    }

    /// Where an area lies.
    pub fn place_area(&self, area: &Area) -> (r: RECT_F)
        ensures
            r == self.rect(*area),
    {
        RECT_F {
            l: self.place(area.l),
            t: self.place(area.t),
            r: self.place(area.r),
            b: self.place(area.b),
        }
    }
}

/// A rectangle; its right and lower edges do not belong to it.
#[allow(non_camel_case_types)]
#[derive(Clone, Copy, Debug, PartialEq, Eq, Structural)]
pub struct RECT_F {
    pub l: Num,
    pub t: Num,
    pub r: Num,
    pub b: Num,
}

impl RECT_F {
    pub open spec fn holds(self, x: Num, y: Num) -> bool {
        self.l.at_most(x) && x.below(self.r) && self.t.at_most(y) && y.below(self.b)
    }

    /// Whether a point lies in the rectangle.
    pub fn contains(&self, x: Num, y: Num) -> (r: bool)
        ensures
            r == self.holds(x, y),
    {
        x.ge(self.l) && x.lt(self.r) && y.ge(self.t) && y.lt(self.b)
    }
}

/// A rectangle that answers to clicks, in logical pixels as the mouse.
#[derive(Clone, Copy, Debug, PartialEq, Eq, Structural)]
pub struct HitRect {
    pub rect: RECT_F,
    pub action: Action,
}

pub open spec fn hit_rects(hits: Seq<Hit>, screen: Screen) -> Seq<HitRect> {
    hits.map_values(|h: Hit| HitRect { rect: screen.rect(h.area), action: h.action })
}

pub open spec fn row_rects(rows: Seq<Area>, screen: Screen) -> Seq<RECT_F> {
    rows.map_values(|a: Area| screen.rect(a))
}

// --- State -------------------------------------------------------------------

/// What the window shows, and what answers to the mouse in the last drawing.
pub struct UiState {
    pub mode: Mode,
    pub pinned: bool,
    pub hover_btn: Option<Action>,
    pub hover_row: Option<usize>,
    pub history: History,
    pub hits: Vec<HitRect>,
    /// The rows of the processes, in logical pixels.
    pub rows: Vec<RECT_F>,
    pub show_settings: bool,
}

impl UiState {
    /// Nothing has been drawn and nothing lies under the mouse.
    pub open spec fn blank(self) -> bool {
        &&& self.hover_btn is None
        &&& self.hover_row is None
        &&& self.history@ == no_history()
        &&& self.hits@.len() == 0
        &&& self.rows@.len() == 0
        &&& !self.show_settings
    }
}

impl Default for UiState {
    fn default() -> (r: UiState)
        ensures
            r.mode == Mode::Dev,
            r.pinned,
            r.blank(),
    {
        UiState {
            mode: Mode::Dev,
            pinned: true,
            hover_btn: None,
            hover_row: None,
            history: History::new(),
            hits: Vec::new(),
            rows: Vec::new(),
            show_settings: false,
        }
    }
}

// --- Drawing -----------------------------------------------------------------

pub open spec fn body_ops(
    state: AppState,
    mode: Mode,
    hover_btn: Option<Action>,
    hover_row: Option<usize>,
    hist: HistoryView,
) -> Seq<Op> {
    match mode {
        Mode::Mini => mini_ops(state.snapshot@, hover_btn),
        Mode::Charts => charts_ops(hist),
        Mode::Procs => procs_ops(cpus_of(state), hover_row),
        Mode::Dev => dev_ops(state.snapshot@),
    }
}

/// What answers to clicks in a drawing.
pub open spec fn frame_hits(state: AppState, mode: Mode) -> Seq<Hit> {
    header_hits() + (match mode {
        Mode::Mini => mini_hits(),
        Mode::Procs => procs_hits(pids_of(state)),
        _ => Seq::empty(),
    })
}

/// The rows of processes in a drawing.
pub open spec fn frame_rows(state: AppState, mode: Mode) -> Seq<Area> {
    if mode == Mode::Procs {
        procs_rows(state.procs@.len())
    } else {
        Seq::empty()
    }
}

fn place_hits(hits: &Vec<Hit>, screen: &Screen) -> (r: Vec<HitRect>)
    ensures
        r@ == hit_rects(hits@, *screen),
{
    let mut out: Vec<HitRect> = Vec::new();
    let mut i: usize = 0;
    while i < hits.len()
        invariant
            i <= hits.len(),
            out@ == hit_rects(hits@, *screen).take(i as int),
        decreases hits.len() - i,
    {
        out.push(HitRect { rect: screen.place_area(&hits[i].area), action: hits[i].action });
        assert(out@ == hit_rects(hits@, *screen).take(i + 1));
        i = i + 1;
    }
    assert(hit_rects(hits@, *screen).take(i as int) == hit_rects(hits@, *screen));
    out
}

fn place_rows(rows: &Vec<Area>, screen: &Screen) -> (r: Vec<RECT_F>)
    ensures
        r@ == row_rects(rows@, *screen),
{
    let mut out: Vec<RECT_F> = Vec::new();
    let mut i: usize = 0;
    while i < rows.len()
        invariant
            i <= rows.len(),
            out@ == row_rects(rows@, *screen).take(i as int),
        decreases rows.len() - i,
    {
        out.push(screen.place_area(&rows[i]));
        assert(out@ == row_rects(rows@, *screen).take(i + 1));
        i = i + 1;
    }
    assert(row_rects(rows@, *screen).take(i as int) == row_rects(rows@, *screen));
    out
}

/// Draws the window: the header and, below it, the present mode. What answers to
/// the mouse is that of this drawing alone, in logical pixels.
pub fn draw(state: &AppState, ui: &mut UiState, screen: &Screen) -> (r: Vec<Op>)
    requires
        rows_fit(state.procs@.len()),
    ensures
        r@ == header_ops(old(ui).mode, old(ui).pinned, old(ui).hover_btn) + body_ops(
            *state,
            old(ui).mode,
            old(ui).hover_btn,
            old(ui).hover_row,
            old(ui).history@,
        ),
        final(ui).hits@ == hit_rects(frame_hits(*state, old(ui).mode), screen.logical()),
        final(ui).rows@ == row_rects(frame_rows(*state, old(ui).mode), screen.logical()),
        *final(ui) == (UiState { hits: final(ui).hits, rows: final(ui).rows, ..*old(ui) }),
{
    let mut hits: Vec<Hit> = Vec::new();
    let mut rows: Vec<Area> = Vec::new();
    let mut out = draw_header(ui.mode, ui.pinned, ui.hover_btn, &mut hits);
    let ghost before = out@;
    let mut body = match ui.mode {
        Mode::Mini => draw_mini(&state.snapshot, ui.hover_btn, &mut hits),
        Mode::Charts => draw_charts(&ui.history),
        Mode::Procs => draw_procs(state, ui.hover_row, &mut hits, &mut rows),
        Mode::Dev => draw_dev(&state.snapshot),
    };
    assert(hits@ == frame_hits(*state, ui.mode));
    assert(rows@ == frame_rows(*state, ui.mode));
    let ghost added = body@;
    out.append(&mut body);
    assert(out@ == before + added);
    let logical = screen.in_logical();
    ui.hits = place_hits(&hits, &logical);
    ui.rows = place_rows(&rows, &logical);
    out
}

// --- Under the mouse ---------------------------------------------------------

/// The action of the first rectangle that holds a point.
pub open spec fn action_at(hits: Seq<HitRect>, x: Num, y: Num) -> Option<Action>
    decreases hits.len(),
{
    if hits.len() == 0 {
        None
    } else if hits[0].rect.holds(x, y) {
        Some(hits[0].action)
    } else {
        action_at(hits.drop_first(), x, y)
    }
}

/// What a click at a point asks for.
pub fn hit(ui: &UiState, x: Num, y: Num) -> (r: Option<Action>)
    ensures
        r == action_at(ui.hits@, x, y),
{
    let mut i: usize = 0;
    assert(ui.hits@.skip(0) == ui.hits@);
    while i < ui.hits.len()
        invariant
            i <= ui.hits.len(),
            action_at(ui.hits@, x, y) == action_at(ui.hits@.skip(i as int), x, y),
        decreases ui.hits.len() - i,
    {
        assert(ui.hits@.skip(i as int)[0] == ui.hits@[i as int]);
        assert(ui.hits@.skip(i as int).drop_first() == ui.hits@.skip(i + 1));
        if ui.hits[i].rect.contains(x, y) {
            return Some(ui.hits[i].action);
        }
        i = i + 1;
    }
    None
}

/// The first row that holds a point.
pub open spec fn row_at(rows: Seq<RECT_F>, x: Num, y: Num, from: int) -> Option<int>
    decreases rows.len() - from,
{
    if from < 0 || from >= rows.len() {
        None
    } else if rows[from].holds(x, y) {
        Some(from)
    } else {
        row_at(rows, x, y, from + 1)
    }
}

/// The row of the processes under a point.
pub fn row_under(ui: &UiState, x: Num, y: Num) -> (r: Option<usize>)
    ensures
        match r {
            Some(i) => row_at(ui.rows@, x, y, 0) == Some(i as int),
            None => row_at(ui.rows@, x, y, 0) is None,
        },
{
    let mut i: usize = 0;
    while i < ui.rows.len()
        invariant
            i <= ui.rows.len(),
            row_at(ui.rows@, x, y, 0) == row_at(ui.rows@, x, y, i as int),
        decreases ui.rows.len() - i,
    {
        if ui.rows[i].contains(x, y) {
            return Some(i);
        }
        i = i + 1;
    }
    None
}

/// Whether another button lies under the mouse than the one remembered.
pub fn hover_changed(ui: &UiState, x: Num, y: Num) -> (r: bool)
    ensures
        r == (action_at(ui.hits@, x, y) != ui.hover_btn),
{
    match (hit(ui, x, y), ui.hover_btn) {
        (Some(a), Some(b)) => a != b,
        (None, None) => false,
        _ => true,
    }
}

// --- Tooltip -----------------------------------------------------------------

/// The box of a tooltip beside the mouse, which is given in logical pixels: to the
/// right of it and below, or on the other side where it would leave the window.
pub open spec fn tip_box(mouse: (Num, Num), screen: Screen) -> RECT_F {
    let px = |n: int| of_integer(n).product32(screen.scale);
    let mouse = (mouse.0.product32(screen.scale), mouse.1.product32(screen.scale));
    let (w, h) = (px(230), px(66));
    let (right, below) = (mouse.0.sum32(px(12)), mouse.1.sum32(px(12)));
    let x = if screen.w.below(right.sum32(w)) {
        mouse.0.difference32(w).difference32(px(8))
    } else {
        right
    };
    let y = if screen.h.below(below.sum32(h)) {
        mouse.1.difference32(h).difference32(px(8))
    } else {
        below
    };
    RECT_F { l: x, t: y, r: x.sum32(w), b: y.sum32(h) }
}

/// Where the `k`-th line of a tooltip starts.
pub open spec fn tip_top(shape: RECT_F, screen: Screen, k: nat) -> Num
    decreases k,
{
    if k == 0 {
        shape.t.sum32(of_integer(6).product32(screen.scale))
    } else {
        tip_top(shape, screen, (k - 1) as nat).sum32(of_integer(15).product32(screen.scale))
    }
}

pub open spec fn tip_line(shape: RECT_F, screen: Screen, k: nat) -> RECT_F {
    let px = |n: int| of_integer(n).product32(screen.scale);
    RECT_F {
        l: shape.l.sum32(px(8)),
        t: tip_top(shape, screen, k),
        r: shape.l.sum32(px(230)).difference32(px(6)),
        b: tip_top(shape, screen, k).sum32(px(15)),
    }
}

/// The four lines of the tooltip of a process.
pub open spec fn tip_words(p: ProcView, k: int) -> Seq<char> {
    if k == 0 {
        if p.name.len() == 0 {
            "PID "@ + decimal(p.pid as nat)
        } else {
            p.name
        }
    } else if k == 1 {
        "PID: "@ + decimal(p.pid as nat)
    } else if k == 2 {
        exe_path_text(p.exe)
    } else {
        "CPU: "@ + fixed_text(p.cpu, 1) + "%  ·  RAM: "@ + fixed_text(p.mem, 1) + "%"@
    }
}

/// One line of a tooltip; the first is set bold.
pub struct TipLine {
    pub text: String,
    pub rect: RECT_F,
}

pub struct Tooltip {
    pub shape: RECT_F,
    pub lines: Vec<TipLine>,
}

fn tip_text(p: &ProcInfo, k: usize) -> (r: String)
    ensures
        r@ == tip_words(p@, k as int),
{
    if k == 0 {
        if chars_of(p.name.as_str()).len() == 0 {
            let mut out = "PID ".to_owned();
            out.append(decimal_text(p.pid as u64).as_str());
            out
        } else {
            p.name.clone()
        }
    } else if k == 1 {
        let mut out = "PID: ".to_owned();
        out.append(decimal_text(p.pid as u64).as_str());
        out
    } else if k == 2 {
        match &p.exe {
            Some(path) => exe_path(Some(path.as_str())),
            None => exe_path(None),
        }
    } else {
        let mut out = "CPU: ".to_owned();
        out.append(fixed(p.cpu, 1).as_str());
        out.append("%  ·  RAM: ");
        out.append(fixed(p.mem, 1).as_str());
        out.append("%");
        out
    }
}

/// The process whose tooltip is shown.
pub open spec fn tip_process(state: AppState, row: Option<usize>) -> Option<ProcView> {
    match row {
        Some(i) if i < state.procs@.len() => Some(state.procs@[i as int]@),
        _ => None,
    }
}

/// The tooltip of the process under the mouse, which is given in logical pixels.
pub fn draw_tooltip(state: &AppState, ui: &UiState, screen: &Screen, mouse: (Num, Num)) -> (r:
    Option<Tooltip>)
    ensures
        match r {
            Some(tip) => {
                &&& tip_process(*state, ui.hover_row) is Some
                &&& tip.shape == tip_box(mouse, *screen)
                &&& tip.lines@.len() == 4
                &&& forall|k: int|
                    0 <= k < 4 ==> {
                        &&& (#[trigger] tip.lines@[k]).text@ == tip_words(
                            tip_process(*state, ui.hover_row)->0,
                            k,
                        )
                        &&& tip.lines@[k].rect == tip_line(tip.shape, *screen, k as nat)
                    }
            },
            None => tip_process(*state, ui.hover_row) is None,
        },
{
    let i: usize = match ui.hover_row {
        Some(i) => i,
        None => {
            return None;
        },
    };
    if i >= state.procs.len() {
        return None;
    }
    let p = &state.procs[i];
    let s = screen.scale;
    let at = (mouse.0.times32(s), mouse.1.times32(s));
    let w = integer(230).times32(s);
    let h = integer(66).times32(s);
    let mut x = at.0.plus32(integer(12).times32(s));
    let mut y = at.1.plus32(integer(12).times32(s));
    if x.plus32(w).gt(screen.w) {
        x = at.0.minus32(w).minus32(integer(8).times32(s));
    }
    if y.plus32(h).gt(screen.h) {
        y = at.1.minus32(h).minus32(integer(8).times32(s));
    }
    let shape = RECT_F { l: x, t: y, r: x.plus32(w), b: y.plus32(h) };
    let mut lines: Vec<TipLine> = Vec::new();
    let mut top = y.plus32(integer(6).times32(s));
    let mut k: usize = 0;
    while k < 4
        invariant
            k <= 4,
            lines@.len() == k,
            i < state.procs@.len(),
            *p == state.procs@[i as int],
            s == screen.scale,
            shape == tip_box(mouse, *screen),
            x == shape.l,
            w == of_integer(230).product32(s),
            top == tip_top(shape, *screen, k as nat),
            forall|j: int|
                0 <= j < k ==> {
                    &&& (#[trigger] lines@[j]).text@ == tip_words(p@, j)
                    &&& lines@[j].rect == tip_line(shape, *screen, j as nat)
                },
        decreases 4 - k,
    {
        let rect = RECT_F {
            l: x.plus32(integer(8).times32(s)),
            t: top,
            r: x.plus32(w).minus32(integer(6).times32(s)),
            b: top.plus32(integer(15).times32(s)),
        };
        lines.push(TipLine { text: tip_text(p, k), rect });
        top = top.plus32(integer(15).times32(s));
        k = k + 1;
    }
    Some(Tooltip { shape, lines })
}

/// On a screen of a whole scale, a place lies as many times the scale from the edge as it
/// has pixels, and as many half widths and heights of the window further.
pub proof fn law_places(place: Span, scale: int, half: int, height: int)
    requires
        0 < scale <= 64,
        0 < half <= 0x1000,
        0 < height <= 0x2000,
        -0x1000 <= place.s <= 0x1000,
        0 <= place.w <= 2,
        0 <= place.h <= 1,
    ensures
        (Screen {
            scale: of_integer(scale),
            w: of_integer(2 * half),
            h: of_integer(height),
        }).at(place) == of_integer(place.s * scale + place.w * half + place.h * height),
{
    let (s, w, h) = (place.s as int, place.w as int, place.h as int);
    lemma_two();
    assert(-0x40000 <= s * scale <= 0x40000) by (nonlinear_arith)
        requires
            -0x1000 <= s <= 0x1000,
            0 < scale <= 64,
    ;
    assert(w * (2 * half) == (w * half) * 2 && 0 <= w * half <= 0x2000) by (nonlinear_arith)
        requires
            0 <= w <= 2,
            0 < half <= 0x1000,
    ;
    assert(0 <= h * height <= 0x2000) by (nonlinear_arith)
        requires
            0 <= h <= 1,
            0 < height <= 0x2000,
    ;
    law_integer_single(s, scale);
    law_integer_single(w, 2 * half);
    law_integer_single(w * half, 2);
    law_integer_single(s * scale, w * half);
    law_integer_single(h, height);
    law_integer_single(s * scale + w * half, h * height);
}

proof fn lemma_two()
    ensures
        num_of(TWO) == of_integer(2),
{
    vstd::arithmetic::power2::lemma2_to64();
    vstd::arithmetic::power2::lemma2_to64_rest();
    vstd::arithmetic::power2::lemma_pow2_pos(1074);
    vstd::arithmetic::power2::lemma_pow2_adds(52, 1023);
    vstd::arithmetic::power2::lemma_pow2_unfold(1075);
    assert(TWO as int / 0x10_0000_0000_0000 == 1024 && TWO as int % 0x10_0000_0000_0000 == 0);
    crate::arith::lemma_whole_unique(num_of(TWO), 2);
}

/// A rectangle holds its upper left corner and what lies inside, but not its right and
/// lower edges, nor what lies outside.
pub proof fn law_rectangles(rect: RECT_F, x: Num, y: Num)
    requires
        rect.l.below(rect.r),
        rect.t.below(rect.b),
    ensures
        rect.holds(rect.l, rect.t),
        !rect.holds(rect.r, y),
        !rect.holds(x, rect.b),
        x.below(rect.l) || y.below(rect.t) || rect.r.below(x) || rect.b.below(y) ==> !rect.holds(
            x,
            y,
        ),
        rect.l.below(x) && x.below(rect.r) && rect.t.below(y) && y.below(rect.b) ==> rect.holds(
            x,
            y,
        ),
{
}

/// A click asks for the action of the first rectangle that holds its point, and for
/// nothing where none does.
pub proof fn law_first_rectangle_answers(hits: Seq<HitRect>, x: Num, y: Num, i: int)
    ensures
        0 <= i < hits.len() && hits[i].rect.holds(x, y) && (forall|j: int|
            0 <= j < i ==> !(#[trigger] hits[j]).rect.holds(x, y)) ==> action_at(hits, x, y)
            == Some(hits[i].action),
        (forall|j: int| 0 <= j < hits.len() ==> !(#[trigger] hits[j]).rect.holds(x, y))
            ==> action_at(hits, x, y) is None,
    decreases hits.len(),
{
    if hits.len() > 0 {
        let rest = hits.drop_first();
        law_first_rectangle_answers(rest, x, y, i - 1);
        assert forall|j: int| 0 <= j < rest.len() implies #[trigger] rest[j] == hits[j + 1] by {}
    }
}

/// The row under the mouse is the first that holds its point.
pub proof fn law_first_row_answers(rows: Seq<RECT_F>, x: Num, y: Num)
    ensures
        match row_at(rows, x, y, 0) {
            Some(i) => 0 <= i < rows.len() && rows[i].holds(x, y) && forall|j: int|
                0 <= j < i ==> !(#[trigger] rows[j]).holds(x, y),
            None => forall|j: int| 0 <= j < rows.len() ==> !(#[trigger] rows[j]).holds(x, y),
        },
{
    lemma_row_at(rows, x, y, 0);
}

proof fn lemma_row_at(rows: Seq<RECT_F>, x: Num, y: Num, from: int)
    requires
        0 <= from <= rows.len(),
    ensures
        match row_at(rows, x, y, from) {
            Some(i) => from <= i < rows.len() && rows[i].holds(x, y) && forall|j: int|
                from <= j < i ==> !(#[trigger] rows[j]).holds(x, y),
            None => forall|j: int| from <= j < rows.len() ==> !(#[trigger] rows[j]).holds(x, y),
        },
    decreases rows.len() - from,
{
    if from < rows.len() && !rows[from].holds(x, y) {
        lemma_row_at(rows, x, y, from + 1);
    }
}

/// A drawing answers to clicks where its own mode has something to click: the six
/// buttons of the header in every mode, two rows in the small one, and one button for
/// every process in the list, which ends that process.
pub proof fn law_drawings_answer(state: AppState, mode: Mode, i: int)
    ensures
        ({
            let hits = frame_hits(state, mode);
            &&& hits.len() == 6 + (if mode == Mode::Mini {
                2
            } else if mode == Mode::Procs {
                state.procs@.len() as int
            } else {
                0
            })
            &&& hits[0].action == Action::Close
            &&& hits[1].action == Action::Mode(Mode::Procs)
            &&& hits[2].action == Action::Mode(Mode::Charts)
            &&& hits[3].action == Action::Mode(Mode::Dev)
            &&& hits[4].action == Action::Mode(Mode::Mini)
            &&& hits[5].action == Action::Pin
            &&& mode == Mode::Mini ==> hits[6].action == Action::Expand && hits[7].action
                == Action::Expand
            &&& mode == Mode::Procs && 0 <= i < state.procs@.len() ==> hits[6 + i].action
                == Action::Kill(state.procs@[i]@.pid)
            &&& frame_rows(state, mode).len() == (if mode == Mode::Procs {
                state.procs@.len() as int
            } else {
                0
            })
        }),
{
}

/// On a screen of a whole scale, the box of a tooltip is 230 wide and 66 high. It lies
/// 12 to the right of the mouse and below it, or, where it would leave the window on that
/// side, ends 8 before the mouse.
pub proof fn law_tooltips_stay_inside(x: int, y: int, scale: int, w: int, h: int)
    requires
        0 < scale <= 64,
        0 <= x <= 0x1000,
        0 <= y <= 0x1000,
        0 < w <= 0x40000,
        0 < h <= 0x40000,
    ensures
        ({
            let screen = Screen { scale: of_integer(scale), w: of_integer(w), h: of_integer(h) };
            let shape = tip_box((of_integer(x), of_integer(y)), screen);
            let left = if (x + 12 + 230) * scale > w {
                (x - 230 - 8) * scale
            } else {
                (x + 12) * scale
            };
            let top = if (y + 12 + 66) * scale > h {
                (y - 66 - 8) * scale
            } else {
                (y + 12) * scale
            };
            shape == (RECT_F {
                l: of_integer(left),
                t: of_integer(top),
                r: of_integer(left + 230 * scale),
                b: of_integer(top + 66 * scale),
            })
        }),
{
    lemma_tip_side(x, 230, scale, w);
    lemma_tip_side(y, 66, scale, h);
}

proof fn lemma_tip_side(x: int, size: int, scale: int, w: int)
    requires
        0 < scale <= 64,
        0 <= x <= 0x1000,
        0 < size <= 230,
        0 < w <= 0x40000,
    ensures
        ({
            let (s, n) = (of_integer(scale), of_integer(size).product32(of_integer(scale)));
            let at = of_integer(x).product32(s);
            let far = at.sum32(of_integer(12).product32(s));
            let near = at.difference32(n).difference32(of_integer(8).product32(s));
            &&& n == of_integer(size * scale)
            &&& far == of_integer((x + 12) * scale)
            &&& near == of_integer((x - size - 8) * scale)
            &&& of_integer(w).below(far.sum32(n)) <==> (x + 12 + size) * scale > w
            &&& far.sum32(n) == of_integer((x + 12) * scale + size * scale)
            &&& near.sum32(n) == of_integer((x - size - 8) * scale + size * scale)
        }),
{
    assert(0 <= x * scale <= 0x40000 && 0 < size * scale <= 0x4000 && (x + 12) * scale == x * scale
        + 12 * scale && (x - size - 8) * scale == x * scale - size * scale - 8 * scale && (x + 12
        + size) * scale == x * scale + 12 * scale + size * scale) by (nonlinear_arith)
        requires
            0 < scale <= 64,
            0 <= x <= 0x1000,
            0 < size <= 230,
    ;
    law_integer_single(x, scale);
    law_integer_single(12, scale);
    law_integer_single(8, scale);
    law_integer_single(size, scale);
    law_integer_single(x * scale, 12 * scale);
    law_integer_single(x * scale, size * scale);
    law_integer_single(x * scale - size * scale, 8 * scale);
    let far = (x + 12) * scale;
    law_integer_single(far, size * scale);
    law_integer_single((x - size - 8) * scale, size * scale);
    lemma_integer_order(w, far + size * scale);
}

/// Whole numbers are ordered as readings as they are.
pub proof fn lemma_integer_order(a: int, b: int)
    requires
        -0x100_0000 < a < 0x100_0000,
        -0x100_0000 < b < 0x100_0000,
    ensures
        of_integer(a).below(of_integer(b)) <==> a < b,
        of_integer(a).at_most(of_integer(b)) <==> a <= b,
{
    crate::arith::lemma_integer_exact(a);
    crate::arith::lemma_integer_exact(b);
    crate::num::law_order_is_numeric(of_integer(a), of_integer(b));
    let u = crate::arith::unit();
    vstd::arithmetic::power2::lemma_pow2_pos(1074);
    assert((a < b <==> a * u < b * u) && (a <= b <==> a * u <= b * u)) by (nonlinear_arith)
        requires
            u > 0,
    ;
}

/// A tooltip tells the name of its process, or its number where it has none, then the
/// number, the path, and whole CPU and memory percentages as they are.
pub proof fn law_tooltips_tell(p: ProcView, cpu: nat, mem: nat)
    requires
        cpu < 0x1_0000_0000,
        mem < 0x1_0000_0000,
        p.cpu == of_integer(cpu as int),
        p.mem == of_integer(mem as int),
    ensures
        p.name.len() > 0 ==> tip_words(p, 0) == p.name,
        p.name.len() == 0 ==> tip_words(p, 0) == "PID "@ + decimal(p.pid as nat),
        tip_words(p, 1) == "PID: "@ + decimal(p.pid as nat),
        tip_words(p, 2) == exe_path_text(p.exe),
        tip_words(p, 3) == "CPU: "@ + (decimal(cpu) + seq!['.', '0']) + "%  ·  RAM: "@ + (decimal(
            mem,
        ) + seq!['.', '0']) + "%"@,
{
    crate::figures::law_whole_numbers_are_written(cpu);
    crate::figures::law_whole_numbers_are_written(mem);
}

/// Each mode shows what it is named for.
pub proof fn law_modes_show_their_own(
    state: AppState,
    button: Option<Action>,
    row: Option<usize>,
    hist: HistoryView,
)
    ensures
        body_ops(state, Mode::Dev, button, row, hist) == dev_ops(state.snapshot@),
        body_ops(state, Mode::Mini, button, row, hist) == mini_ops(state.snapshot@, button),
        body_ops(state, Mode::Charts, button, row, hist) == charts_ops(hist),
        body_ops(state, Mode::Procs, button, row, hist) == procs_ops(cpus_of(state), row),
        cpus_of(state).len() == state.procs@.len(),
        forall|i: int|
            0 <= i < state.procs@.len() ==> #[trigger] cpus_of(state)[i] == state.procs@[i]@.cpu,
{
}

/// What answers to the mouse lies where it is drawn, with its own action, in logical
/// pixels.
pub proof fn law_answers_lie_where_drawn(
    hits: Seq<Hit>,
    rows: Seq<Area>,
    screen: Screen,
    i: int,
    scale: int,
    w: int,
    h: int,
)
    requires
        0 < scale <= 64,
        0 < w <= 0x1000,
        0 < h <= 0x1000,
    ensures
        hit_rects(hits, screen).len() == hits.len(),
        row_rects(rows, screen).len() == rows.len(),
        0 <= i < hits.len() ==> hit_rects(hits, screen)[i].action == hits[i].action && hit_rects(
            hits,
            screen,
        )[i].rect == (RECT_F {
            l: screen.at(hits[i].area.l),
            t: screen.at(hits[i].area.t),
            r: screen.at(hits[i].area.r),
            b: screen.at(hits[i].area.b),
        }),
        0 <= i < rows.len() ==> row_rects(rows, screen)[i] == (RECT_F {
            l: screen.at(rows[i].l),
            t: screen.at(rows[i].t),
            r: screen.at(rows[i].r),
            b: screen.at(rows[i].b),
        }),
        (Screen {
            scale: of_integer(scale),
            w: of_integer(w * scale),
            h: of_integer(h * scale),
        }).logical() == (Screen { scale: of_integer(1), w: of_integer(w), h: of_integer(h) }),
{
    assert(0 < w * scale <= 0x40000 && 0 < h * scale <= 0x40000) by (nonlinear_arith)
        requires
            0 < scale <= 64,
            0 < w <= 0x1000,
            0 < h <= 0x1000,
    ;
    law_integer_single(w, scale);
    law_integer_single(h, scale);
    crate::arith::lemma_named_wholes();
}

/// The lines of a tooltip stand one below the other, 15 high, from 6 below its upper edge
/// on, 8 from its left edge and 6 from its right.
pub proof fn law_tooltip_lines(l: int, t: int, scale: int, k: nat, shape: RECT_F, screen: Screen)
    requires
        0 < scale <= 64,
        -0x1_0000 <= l <= 0x10_0000,
        -0x1_0000 <= t <= 0x10_0000,
        k < 4,
        shape.l == of_integer(l),
        shape.t == of_integer(t),
        screen.scale == of_integer(scale),
    ensures
        tip_line(shape, screen, k) == (RECT_F {
            l: of_integer(l + 8 * scale),
            t: of_integer(t + (6 + 15 * k) * scale),
            r: of_integer(l + (230 - 6) * scale),
            b: of_integer(t + (6 + 15 * k + 15) * scale),
        }),
{
    lemma_tip_top(t, scale, k, shape, screen);
    law_integer_single(8, scale);
    law_integer_single(6, scale);
    law_integer_single(15, scale);
    law_integer_single(230, scale);
    law_integer_single(l, 8 * scale);
    law_integer_single(l, 230 * scale);
    law_integer_single(l + 230 * scale, 6 * scale);
    let top = t + (6 + 15 * k) * scale;
    assert((6 + 15 * k + 15) * scale == (6 + 15 * k) * scale + 15 * scale && 0 <= (6 + 15 * k)
        * scale <= 64 * 64 && (230 - 6) * scale == 230 * scale - 6 * scale) by (nonlinear_arith)
        requires
            k < 4,
            0 < scale <= 64,
    ;
    law_integer_single(top, 15 * scale);
}

proof fn lemma_tip_top(t: int, scale: int, k: nat, shape: RECT_F, screen: Screen)
    requires
        0 < scale <= 64,
        -0x1_0000 <= t <= 0x10_0000,
        k < 4,
        shape.t == of_integer(t),
        screen.scale == of_integer(scale),
    ensures
        tip_top(shape, screen, k) == of_integer(t + (6 + 15 * k) * scale),
    decreases k,
{
    law_integer_single(6, scale);
    law_integer_single(15, scale);
    assert((6 + 15 * k) * scale == (6 + 15 * (k - 1)) * scale + 15 * scale && 0 <= (6 + 15 * k)
        * scale <= 64 * 64) by (nonlinear_arith)
        requires
            k < 4,
            0 < scale <= 64,
    ;
    if k == 0 {
        law_integer_single(t, 6 * scale);
    } else {
        lemma_tip_top(t, scale, (k - 1) as nat, shape, screen);
        assert(-0x1000 <= (6 + 15 * (k - 1)) * scale <= 0x1000) by (nonlinear_arith)
            requires
                k < 4,
                0 < scale <= 64,
        ;
        law_integer_single(t + (6 + 15 * (k - 1)) * scale, 15 * scale);
    }
}

} // verus!
