//! What the window's page can ask for, and what becomes of the window.

use vstd::prelude::*;
use crate::arith::{lemma_named_wholes, lemma_whole_exact, of_whole};
use crate::format::{law_rounding_keeps_whole_numbers, rounded_to};
use crate::metrics::{average, law_session_maxima, law_session_maxima_were_read, law_steady_session, round1, stats_of, AppState, Sample, SessionStats, MINI_H, WIDGET_H, WIDGET_W};
use crate::num::{num_of, Num, HUNDRED, HUNDRED_TWENTY, ONE, TEN, THIRTY, ZERO};
use crate::settings::{law_mode_names, law_set_changes_one, mode_of, mode_text, Mode, Settings, SettingsView, Thresholds};
use crate::text::same_text;

verus! {

/// What is to be done, in the order of a list.
#[derive(Clone, Copy, Debug, PartialEq, Eq, Structural)]
pub enum Effect {
    ShowWindow,
    FocusWindow,
    HideWindow,
    SetAlwaysOnTop { pinned: bool },
    SetSize { width: u32, height: u32 },
    SetPosition { x: i32, y: i32 },
    SaveSettings,
    /// Tell the page whether the window can be seen.
    EmitVisibility { visible: bool },
    /// Tell the page the display mode.
    EmitMode { mode: Mode },
    /// Tell the page the thresholds.
    EmitThresholds { thresholds: Thresholds },
    Exit,
}

// --- Visibility --------------------------------------------------------------

/// The state with the window shown or hidden.
pub open spec fn shown_as(state: AppState, visible: bool) -> AppState {
    AppState { visible, ..state }
}

/// What changes a visibility, for a program that has its window or has it not.
pub open spec fn visibility_effects(visible: bool, window: bool) -> Seq<Effect> {
    let told = seq![Effect::EmitVisibility { visible }];
    if !window {
        told
    } else if visible {
        seq![Effect::ShowWindow, Effect::FocusWindow] + told
    } else {
        seq![Effect::HideWindow] + told
    }
}

fn set_visible_state(state: &mut AppState, visible: bool, window: bool) -> (r: Vec<Effect>)
    ensures
        *final(state) == shown_as(*old(state), visible),
        r@ == visibility_effects(visible, window),
{
    state.visible = visible;
    let mut out: Vec<Effect> = Vec::new();
    if window {
        if visible {
            out.push(Effect::ShowWindow);
            out.push(Effect::FocusWindow);
        } else {
            out.push(Effect::HideWindow);
        }
    }
    out.push(Effect::EmitVisibility { visible });
    assert(out@ == visibility_effects(visible, window));
    out
}

/// Shows a hidden window and hides a visible one. The state decides, not the
/// window.
pub fn toggle_widget(state: &mut AppState, window: bool) -> (r: Vec<Effect>)
    ensures
        *final(state) == shown_as(*old(state), !old(state).visible),
        r@ == visibility_effects(!old(state).visible, window),
{
    let show: bool = !state.visible;
    set_visible_state(state, show, window)
}

/// Hides the window; it stays in the tray.
pub fn hide_widget(state: &mut AppState, window: bool) -> (r: Vec<Effect>)
    ensures
        *final(state) == shown_as(*old(state), false),
        r@ == visibility_effects(false, window),
{
    set_visible_state(state, false, window)
}

/// Shows the window.
pub fn show_widget(state: &mut AppState, window: bool) -> (r: Vec<Effect>)
    ensures
        *final(state) == shown_as(*old(state), true),
        r@ == visibility_effects(true, window),
{
    set_visible_state(state, true, window)
}

/// A second start of the program brings the window to the front, where there is
/// one.
pub fn second_start(state: &mut AppState, window: bool) -> (r: Vec<Effect>)
    ensures
        *final(state) == (if window {
            shown_as(*old(state), true)
        } else {
            *old(state)
        }),
        r@ == (if window {
            visibility_effects(true, true)
        } else {
            Seq::empty()
        }),
{
    if window {
        set_visible_state(state, true, true)
    } else {
        Vec::new()
    }
}

/// What an entry of the tray menu does: `toggle` shows or hides the window, `quit`
/// ends the program.
pub fn tray_menu_event(state: &mut AppState, id: &str, window: bool) -> (r: Vec<Effect>)
    ensures
        *final(state) == (if id@ == "toggle"@ {
            shown_as(*old(state), !old(state).visible)
        } else {
            *old(state)
        }),
        r@ == (if id@ == "toggle"@ {
            visibility_effects(!old(state).visible, window)
        } else if id@ == "quit"@ {
            seq![Effect::Exit]
        } else {
            Seq::empty()
        }),
{
    if same_text(id, "toggle") {
        toggle_widget(state, window)
    } else if same_text(id, "quit") {
        let mut out: Vec<Effect> = Vec::new();
        out.push(Effect::Exit);
        assert(out@ == seq![Effect::Exit]);
        out
    } else {
        Vec::new()
    }
}

/// How often the page is told of the visibility.
pub open spec fn times_told(effects: Seq<Effect>) -> nat
    decreases effects.len(),
{
    if effects.len() == 0 {
        0
    } else {
        times_told(effects.drop_last()) + if effects.last() is EmitVisibility {
            1nat
        } else {
            0nat
        }
    }
}

/// Every change of the visibility is told to the page once, as the last thing, with
/// the new value, whether or not there is a window.
pub proof fn law_visibility_is_told_once(visible: bool, window: bool)
    ensures
        times_told(visibility_effects(visible, window)) == 1,
        visibility_effects(visible, window).last() == (Effect::EmitVisibility { visible }),
{
    reveal_with_fuel(times_told, 4);
    let told = seq![Effect::EmitVisibility { visible }];
    assert(visibility_effects(visible, window).last() == told[0]);
    let before = visibility_effects(visible, window).drop_last();
    if window {
        if visible {
            assert(before == seq![Effect::ShowWindow, Effect::FocusWindow]);
            assert(before.drop_last() == seq![Effect::ShowWindow]);
        } else {
            assert(before == seq![Effect::HideWindow]);
        }
        assert(times_told(before) == 0);
    } else {
        assert(before == Seq::<Effect>::empty());
    }
}

/// Two toggles bring the state back, and hiding or showing twice is as once.
pub proof fn law_visibility_transitions(state: AppState)
    ensures
        ({
            let once = shown_as(state, !state.visible);
            shown_as(once, !once.visible) == state
        }),
        forall|a: bool, b: bool| #[trigger]
            shown_as(shown_as(state, a), b) == shown_as(state, b),
{
}

/// Showing and hiding changes the visibility and nothing else of the state. The window,
/// where there is one, is shown and brought to the front, or hidden.
pub proof fn law_visibility_alone_changes(state: AppState, visible: bool, window: bool)
    ensures
        ({
            let next = shown_as(state, visible);
            let effects = visibility_effects(visible, window);
            &&& next.visible == visible
            &&& (AppState { visible: state.visible, ..next }) == state
            &&& effects.contains(Effect::ShowWindow) <==> visible && window
            &&& effects.contains(Effect::FocusWindow) <==> visible && window
            &&& effects.contains(Effect::HideWindow) <==> !visible && window
            &&& forall|e: Effect|
                effects.contains(e) ==> e == Effect::ShowWindow || e == Effect::FocusWindow || e
                    == Effect::HideWindow || e == (Effect::EmitVisibility { visible })
        }),
{
    let told = seq![Effect::EmitVisibility { visible }];
    let effects = visibility_effects(visible, window);
    if window && visible {
        assert(effects =~= seq![
            Effect::ShowWindow,
            Effect::FocusWindow,
            Effect::EmitVisibility { visible },
        ]);
        assert(effects[0] == Effect::ShowWindow && effects[1] == Effect::FocusWindow);
    } else if window {
        assert(effects =~= seq![Effect::HideWindow, Effect::EmitVisibility { visible }]);
        assert(effects[0] == Effect::HideWindow);
    } else {
        assert(effects =~= told);
    }
}

// --- Always on top -----------------------------------------------------------

/// The state with the pin set or not, and remembered.
pub open spec fn pinned_as(state: AppState, pinned: bool) -> AppState {
    AppState { pinned, settings: Settings { pinned, ..state.settings }, ..state }
}

/// Turns the pin over. The answer is the new value, for the page and the window.
pub fn toggle_always_on_top(state: &mut AppState, window: bool) -> (r: (bool, Vec<Effect>))
    ensures
        r.0 == !old(state).pinned,
        *final(state) == pinned_as(*old(state), !old(state).pinned),
        r.1@ == (if window {
            seq![Effect::SetAlwaysOnTop { pinned: r.0 }, Effect::SaveSettings]
        } else {
            seq![Effect::SaveSettings]
        }),
{
    let pinned: bool = !state.pinned;
    state.pinned = pinned;
    state.settings.pinned = pinned;
    let mut out: Vec<Effect> = Vec::new();
    if window {
        out.push(Effect::SetAlwaysOnTop { pinned });
    }
    out.push(Effect::SaveSettings);
    (pinned, out)
}

/// Turning the pin over changes the pin, in force and remembered, and nothing else;
/// turning it over twice brings it back.
pub proof fn law_pin_alone_changes(state: AppState, pinned: bool)
    ensures
        ({
            let next = pinned_as(state, pinned);
            &&& next.pinned == pinned
            &&& next.settings.pinned == pinned
            &&& next.settings == (Settings { pinned, ..state.settings })
            &&& (AppState { pinned: state.pinned, settings: state.settings, ..next }) == state
        }),
        state.pinned == state.settings.pinned ==> pinned_as(
            pinned_as(state, !state.pinned),
            state.pinned,
        ) == state,
{
}

// --- Display mode ------------------------------------------------------------

/// Size of the window in logical pixels.
pub open spec fn size_of(mode: Mode) -> (u32, u32) {
    if mode == Mode::Mini {
        (WIDGET_W, MINI_H)
    } else {
        (WIDGET_W, WIDGET_H)
    }
}

/// Size of the window in logical pixels, by the name of the mode.
pub fn mode_size(mode: &str) -> (r: (u32, u32))
    ensures
        r == (if mode@ == "mini"@ {
            (WIDGET_W, MINI_H)
        } else {
            (WIDGET_W, WIDGET_H)
        }),
{
    if same_text(mode, "mini") {
        (WIDGET_W, MINI_H)
    } else {
        (WIDGET_W, WIDGET_H)
    }
}

/// The mode that a request names.
pub open spec fn asked_mode(name: Option<&str>) -> Option<Mode> {
    match name {
        Some(n) => mode_of(n@),
        None => None,
    }
}

pub open spec fn mode_effects(current: Mode, mode: Mode, window: bool) -> Seq<Effect> {
    if current == mode {
        Seq::empty()
    } else {
        let (width, height) = size_of(mode);
        let told = seq![Effect::EmitMode { mode }];
        if window {
            seq![Effect::SaveSettings, Effect::SetSize { width, height }] + told
        } else {
            seq![Effect::SaveSettings] + told
        }
    }
}

/// The state in a mode, which is remembered too.
pub open spec fn mode_entered(state: AppState, mode: Mode, next: AppState) -> bool {
    &&& next.mode == mode
    &&& next.settings@ == (if state.mode == mode {
        state.settings@
    } else {
        SettingsView { mode: mode_text(mode), ..state.settings@ }
    })
    &&& (AppState { mode: state.mode, settings: state.settings, ..next }) == state
}

/// Sets the display mode by its name. An unknown name is refused (`Invalid mode`)
/// and changes nothing; the present mode changes nothing either.
pub fn set_widget_mode(state: &mut AppState, name: Option<&str>, window: bool) -> (r: (
    Result<Mode, &'static str>,
    Vec<Effect>,
))
    ensures
        match asked_mode(name) {
            Some(mode) => {
                &&& r.0 == Ok::<Mode, &'static str>(mode)
                &&& r.1@ == mode_effects(old(state).mode, mode, window)
                &&& mode_entered(*old(state), mode, *final(state))
            },
            None => {
                &&& r.0 is Err
                &&& r.0->Err_0@ == "Invalid mode"@
                &&& r.1@.len() == 0
                &&& *final(state) == *old(state)
            },
        },
{
    let known = match name {
        Some(n) => Mode::named(n),
        None => None,
    };
    match known {
        Some(mode) => {
            let mut out: Vec<Effect> = Vec::new();
            if state.mode == mode {
                return (Ok(mode), out);
            }
            state.mode = mode;
            state.settings.mode = mode.name().to_owned();
            out.push(Effect::SaveSettings);
            if window {
                let (width, height) = mode_size(mode.name());
                proof {
                    law_mode_names(mode, "mini"@);
                    law_mode_names(Mode::Mini, "mini"@);
                }
                out.push(Effect::SetSize { width, height });
            }
            out.push(Effect::EmitMode { mode });
            assert(out@ == mode_effects(old(state).mode, mode, window));
            (Ok(mode), out)
        },
        None => (Err("Invalid mode"), Vec::new()),
    }
}

/// Setting a mode a second time has no effects: the page is told of each change
/// once.
pub proof fn law_mode_is_told_once(mode: Mode, window: bool)
    ensures
        mode_effects(mode, mode, window).len() == 0,
        forall|current: Mode|
            current != mode ==> (#[trigger] mode_effects(current, mode, window)).last() == (
            Effect::EmitMode { mode }),
{
    assert forall|current: Mode| current != mode implies (#[trigger] mode_effects(
        current,
        mode,
        window,
    )).last() == (Effect::EmitMode { mode }) by {
        let told = seq![Effect::EmitMode { mode }];
        assert(told.last() == (Effect::EmitMode { mode }));
    }
}

/// A change of the mode is remembered, makes the window 340 wide and 500 high, in the
/// small mode 245, and is told to the page. Nothing but the mode changes.
pub proof fn law_mode_changes(state: AppState, mode: Mode, next: AppState, window: bool)
    requires
        state.mode != mode,
        mode_entered(state, mode, next),
    ensures
        ({
            let height: u32 = if mode == Mode::Mini {
                245
            } else {
                500
            };
            let effects = mode_effects(state.mode, mode, window);
            &&& effects.contains(Effect::SaveSettings)
            &&& effects.contains(Effect::EmitMode { mode })
            &&& effects.contains(Effect::SetSize { width: 340, height }) <==> window
            &&& effects.len() == if window {
                3nat
            } else {
                2nat
            }
            &&& next.mode == mode
            &&& mode_of(next.settings.mode@) == Some(mode)
            &&& next.settings.pinned == state.settings.pinned
            &&& next.settings.x == state.settings.x
            &&& next.settings.y == state.settings.y
            &&& next.settings.thresholds == state.settings.thresholds
            &&& next.visible == state.visible
            &&& next.pinned == state.pinned
        }),
{
    law_mode_names(mode, mode_text(mode));
    let effects = mode_effects(state.mode, mode, window);
    let view = next.settings@;
    assert(view.pinned == state.settings@.pinned && view.x == state.settings@.x && view.y
        == state.settings@.y && view.thresholds == state.settings@.thresholds);
    assert(effects[0] == Effect::SaveSettings);
    assert(effects[effects.len() - 1] == (Effect::EmitMode { mode }));
    if window {
        assert(effects[1] is SetSize);
    }
}

// --- Thresholds --------------------------------------------------------------

#[derive(Clone, Copy, Debug, PartialEq, Eq, Structural)]
pub enum ThresholdChange {
    /// The value is the new threshold.
    Absolute,
    /// The value is added to the threshold.
    Delta,
}

/// The thresholds that a request asks for, before they are held in their ranges, or
/// why there are none.
pub open spec fn asked_thresholds(
    current: Thresholds,
    kind: Option<&str>,
    value: Option<Num>,
    change: ThresholdChange,
) -> Result<Thresholds, Seq<char>> {
    if kind is None || current.named(kind->0@) is None {
        Err("Invalid kind"@)
    } else if value is None || !value->0.finite() {
        Err("Invalid value"@)
    } else {
        let target = match change {
            ThresholdChange::Absolute => value->0,
            ThresholdChange::Delta => current.named(kind->0@)->0.sum(value->0),
        };
        Ok(current.with(kind->0@, target)->0)
    }
}

/// Puts a threshold to a value, or moves it by one, held in its range. An unknown
/// name or a value that is not finite is refused and changes nothing.
pub fn apply_threshold(
    state: &mut AppState,
    kind: Option<&str>,
    value: Option<Num>,
    change: ThresholdChange,
) -> (r: (Result<Thresholds, &'static str>, Vec<Effect>))
    ensures
        match asked_thresholds(old(state).settings.thresholds, kind, value, change) {
            Ok(asked) => {
                &&& r.0 == Ok::<Thresholds, &'static str>(asked.held())
                &&& r.1@ == seq![
                    Effect::SaveSettings,
                    Effect::EmitThresholds { thresholds: asked.held() },
                ]
                &&& final(state).settings.thresholds == asked.held()
                &&& *final(state) == (AppState {
                    settings: Settings {
                        thresholds: asked.held(),
                        ..old(state).settings
                    },
                    ..*old(state)
                })
            },
            Err(why) => {
                &&& r.0 is Err
                &&& r.0->Err_0@ == why
                &&& r.1@.len() == 0
                &&& *final(state) == *old(state)
            },
        },
{
    let (name, current) = match kind {
        Some(k) => match state.settings.thresholds.get(k) {
            Some(current) => (k, current),
            None => {
                return (Err("Invalid kind"), Vec::new());
            },
        },
        None => {
            return (Err("Invalid kind"), Vec::new());
        },
    };
    let amount = match value {
        Some(v) => {
            if !v.is_finite() {
                return (Err("Invalid value"), Vec::new());
            }
            v
        },
        None => {
            return (Err("Invalid value"), Vec::new());
        },
    };
    let target = match change {
        ThresholdChange::Absolute => amount,
        ThresholdChange::Delta => current.plus(amount),
    };
    let mut thresholds = state.settings.thresholds;
    thresholds.set(name, target);
    state.settings.thresholds = thresholds;
    let mut out: Vec<Effect> = Vec::new();
    out.push(Effect::SaveSettings);
    out.push(Effect::EmitThresholds { thresholds });
    assert(out@ == seq![Effect::SaveSettings, Effect::EmitThresholds { thresholds }]);
    (Ok(thresholds), out)
}

/// Whatever a request asks for, sensible thresholds stay sensible, and no threshold
/// but the named one moves.
pub proof fn law_requests_keep_thresholds_sensible(
    current: Thresholds,
    kind: Option<&str>,
    value: Option<Num>,
    change: ThresholdChange,
    other: Seq<char>,
)
    requires
        current.sensible(),
        asked_thresholds(current, kind, value, change) is Ok,
    ensures
        asked_thresholds(current, kind, value, change)->Ok_0.held().sensible(),
        other != kind->0@ ==> asked_thresholds(current, kind, value, change)->Ok_0.held().named(
            other,
        ) == current.named(other),
{
    let target = match change {
        ThresholdChange::Absolute => value->0,
        ThresholdChange::Delta => current.named(kind->0@)->0.sum(value->0),
    };
    law_set_changes_one(current, kind->0@, other, target);
}

/// A request names one of the four thresholds and a finite value, or is refused. Within
/// the range the value becomes the threshold, or is added to it.
pub proof fn law_threshold_requests(
    current: Thresholds,
    kind: Option<&str>,
    value: Option<Num>,
    change: ThresholdChange,
)
    requires
        current.sensible(),
    ensures
        ({
            let asked = asked_thresholds(current, kind, value, change);
            let known = kind is Some && (kind->0@ == "cpu"@ || kind->0@ == "ram"@ || kind->0@
                == "gpu"@ || kind->0@ == "temp"@);
            &&& !known <==> asked == Err::<Thresholds, Seq<char>>("Invalid kind"@)
            &&& known && (value is None || !value->0.finite()) <==> asked == Err::<
                Thresholds,
                Seq<char>,
            >("Invalid value"@)
            &&& known && value is Some && value->0.finite() <==> asked is Ok
            &&& asked is Ok ==> {
                let before = if kind->0@ == "cpu"@ {
                    current.cpu
                } else if kind->0@ == "ram"@ {
                    current.ram
                } else if kind->0@ == "gpu"@ {
                    current.gpu
                } else {
                    current.temp
                };
                let now = if kind->0@ == "cpu"@ {
                    asked->Ok_0.held().cpu
                } else if kind->0@ == "ram"@ {
                    asked->Ok_0.held().ram
                } else if kind->0@ == "gpu"@ {
                    asked->Ok_0.held().gpu
                } else {
                    asked->Ok_0.held().temp
                };
                let target = if change == ThresholdChange::Absolute {
                    value->0
                } else {
                    before.sum(value->0)
                };
                let (low, high) = if kind->0@ == "temp"@ {
                    (num_of(THIRTY), num_of(HUNDRED_TWENTY))
                } else {
                    (num_of(ONE), num_of(HUNDRED))
                };
                &&& low.at_most(target) && target.at_most(high) ==> now == target
                &&& target.below(low) ==> now == low
                &&& high.below(target) ==> now == high
            }
        }),
{
    reveal_strlit("cpu");
    reveal_strlit("ram");
    reveal_strlit("gpu");
    reveal_strlit("temp");
    reveal_strlit("Invalid kind");
    reveal_strlit("Invalid value");
    assert("cpu"@[0] == 'c' && "ram"@[0] == 'r' && "gpu"@[0] == 'g' && "temp"@[0] == 't');
    assert("Invalid kind"@.len() != "Invalid value"@.len());
}

// --- Session -----------------------------------------------------------------

/// Maximum and average of one quantity, with one place.
#[derive(Clone, Copy, Debug, PartialEq, Eq, Structural)]
pub struct MaxAvg {
    pub max: Num,
    pub avg: Num,
}

pub open spec fn max_avg(max: Num, sum: Num, n: u64) -> MaxAvg {
    MaxAvg {
        max: rounded_to(max, num_of(TEN)),
        avg: rounded_to(average(sum, n), num_of(TEN)),
    }
}

/// The statistics of the session, as the page shows them.
#[derive(Clone, Copy, Debug, PartialEq, Eq, Structural)]
pub struct SessionReply {
    pub samples: u64,
    pub cpu: MaxAvg,
    pub mem: MaxAvg,
    pub gpu: MaxAvg,
    pub net: MaxAvg,
}

pub open spec fn session_reply(s: SessionStats) -> SessionReply {
    SessionReply {
        samples: s.samples,
        cpu: max_avg(s.cpu_max, s.cpu_sum, s.samples),
        mem: max_avg(s.mem_max, s.mem_sum, s.samples),
        gpu: max_avg(s.gpu_max, s.gpu_sum, s.gpu_samples),
        net: max_avg(s.net_max, s.net_sum, s.samples),
    }
}

/// The statistics of the session: maxima and averages with one place.
pub fn get_session_stats(s: &SessionStats) -> (r: SessionReply)
    ensures
        r == session_reply(*s),
{
    SessionReply {
        samples: s.samples,
        cpu: MaxAvg { max: round1(s.cpu_max), avg: round1(s.cpu_avg()) },
        mem: MaxAvg { max: round1(s.mem_max), avg: round1(s.mem_avg()) },
        gpu: MaxAvg { max: round1(s.gpu_max), avg: round1(s.gpu_avg()) },
        net: MaxAvg { max: round1(s.net_max), avg: round1(s.net_avg()) },
    }
}

/// A session of one whole reading each of CPU use, memory and network, `n` times over,
/// has those readings as its maxima and averages; as does the GPU, where it was read.
pub proof fn law_steady_session_is_told(
    samples: Seq<Sample>,
    cpu: nat,
    mem: nat,
    gpu: nat,
    net: nat,
)
    requires
        0 < samples.len() < 0x10_0000,
        cpu < 0x1_0000_0000 && mem < 0x1_0000_0000 && gpu < 0x1_0000_0000 && net < 0x1_0000_0000,
        forall|i: int|
            0 <= i < samples.len() ==> (#[trigger] samples[i]) == (Sample {
                cpu: of_whole(cpu),
                mem: of_whole(mem),
                gpu: of_whole(gpu),
                net_bps: of_whole(net),
            }),
    ensures
        session_reply(stats_of(samples)) == (SessionReply {
            samples: samples.len() as u64,
            cpu: MaxAvg { max: of_whole(cpu), avg: of_whole(cpu) },
            mem: MaxAvg { max: of_whole(mem), avg: of_whole(mem) },
            gpu: MaxAvg { max: of_whole(gpu), avg: of_whole(gpu) },
            net: MaxAvg { max: of_whole(net), avg: of_whole(net) },
        }),
{
    let s = stats_of(samples);
    let n = samples.len();
    assert(n * cpu < 0x20_0000_0000_0000 && n * mem < 0x20_0000_0000_0000 && n * gpu
        < 0x20_0000_0000_0000 && n * net < 0x20_0000_0000_0000) by (nonlinear_arith)
        requires
            n < 0x10_0000,
            cpu < 0x1_0000_0000,
            mem < 0x1_0000_0000,
            gpu < 0x1_0000_0000,
            net < 0x1_0000_0000,
    ;
    lemma_whole_exact(cpu);
    lemma_whole_exact(mem);
    lemma_whole_exact(gpu);
    lemma_whole_exact(net);
    law_steady_session(samples, cpu, mem, gpu, net);
    law_session_maxima(samples, 0);
    law_session_maxima_were_read(samples);
    assert(s.gpu_samples > 0) by {
        samples.lemma_filter_contains(|s: Sample| num_of(ZERO).at_most(s.gpu), 0);
    }
    law_session_is_told(cpu, s.cpu_sum, s.samples, cpu);
    law_session_is_told(mem, s.mem_sum, s.samples, mem);
    law_session_is_told(gpu, s.gpu_sum, s.gpu_samples, gpu);
    law_session_is_told(net, s.net_sum, s.samples, net);
}

/// Whole maxima and averages are shown as they are, each in its own place.
pub proof fn law_session_is_told(max: nat, sum: Num, n: u64, avg: nat)
    requires
        max * 10 < 0x20_0000_0000_0000,
        avg * 10 < 0x20_0000_0000_0000,
        average(sum, n) == of_whole(avg),
    ensures
        max_avg(of_whole(max), sum, n) == (MaxAvg { max: of_whole(max), avg: of_whole(avg) }),
{
    lemma_named_wholes();
    law_rounding_keeps_whole_numbers(max, 10);
    law_rounding_keeps_whole_numbers(avg, 10);
}

// --- Start and position ------------------------------------------------------

/// The state with the settings taken over at the start.
pub open spec fn restored(state: AppState, loaded: Settings) -> AppState {
    AppState { pinned: loaded.pinned, settings: loaded, ..state }
}

/// Takes the settings over at the start: the pin and, where there is one, the
/// position go to the window. The mode is left to the page, which asks for the one
/// in the settings.
pub fn restore(state: &mut AppState, loaded: Settings, window: bool) -> (r: Vec<Effect>)
    ensures
        *final(state) == restored(*old(state), loaded),
        r@ == (if !window {
            Seq::empty()
        } else {
            let pin = seq![Effect::SetAlwaysOnTop { pinned: loaded.pinned }];
            match (loaded.x, loaded.y) {
                (Some(x), Some(y)) => pin.push(Effect::SetPosition { x, y }),
                _ => pin,
            }
        }),
{
    let mut out: Vec<Effect> = Vec::new();
    if window {
        out.push(Effect::SetAlwaysOnTop { pinned: loaded.pinned });
        match (loaded.x, loaded.y) {
            (Some(x), Some(y)) => {
                out.push(Effect::SetPosition { x, y });
            },
            _ => {},
        }
    }
    state.pinned = loaded.pinned;
    state.settings = loaded;
    out
}

/// Remembers where the window was moved to.
pub fn moved(state: &mut AppState, x: i32, y: i32) -> (r: Vec<Effect>)
    ensures
        *final(state) == (AppState {
            settings: Settings { x: Some(x), y: Some(y), ..old(state).settings },
            ..*old(state)
        }),
        r@ == seq![Effect::SaveSettings],
{
    state.settings.x = Some(x);
    state.settings.y = Some(y);
    let mut out: Vec<Effect> = Vec::new();
    out.push(Effect::SaveSettings);
    assert(out@ == seq![Effect::SaveSettings]);
    out
}

/// The preferences to be remembered are those in force.
pub open spec fn remembered(state: AppState) -> bool {
    &&& mode_of(state.settings.mode@) == Some(state.mode)
    &&& state.settings.pinned == state.pinned
}

/// From the start on, the pin in force is the one to be remembered. The mode is too
/// once the page has asked for the mode in the settings.
pub proof fn law_restored_preferences(state: AppState, loaded: Settings, mode: Mode, next: AppState)
    requires
        mode_of(loaded.mode@) == Some(mode),
        mode_entered(restored(state, loaded), mode, next),
    ensures
        restored(state, loaded).pinned == restored(state, loaded).settings.pinned,
        remembered(next),
        next.mode == mode,
        next.pinned == loaded.pinned,
{
    law_mode_names(mode, mode_text(mode));
    let start = restored(state, loaded);
    assert(next.settings@.pinned == start.settings@.pinned);
    assert(next.settings@.mode == (if start.mode == mode {
        start.settings@.mode
    } else {
        mode_text(mode)
    }));
}

/// Where mode and pin in force are those to be remembered, no request brings the two
/// apart, so that they outlive the program.
pub proof fn law_preferences_are_remembered(state: AppState, mode: Mode, next: AppState)
    requires
        remembered(state),
    ensures
        forall|visible: bool| remembered(#[trigger] shown_as(state, visible)),
        forall|pinned: bool| remembered(#[trigger] pinned_as(state, pinned)),
        mode_entered(state, mode, next) ==> remembered(next),
{
    law_mode_names(mode, mode_text(mode));
    if mode_entered(state, mode, next) {
        assert(next.settings@.pinned == state.settings@.pinned);
        assert(next.settings@.mode == (if state.mode == mode {
            state.settings@.mode
        } else {
            mode_text(mode)
        }));
    }
}

} // verus!
