use sysmon_core::guardian::Alert;
use sysmon_core::history::{bar_fill, chart, disk_peak, gpu_peak, net_peak, Frame, History, MAX_POINTS};
use sysmon_core::layout::{
    area, bottom, draw_charts, draw_dev, draw_header, draw_mini, draw_procs, left, middle, rgb, right, Action, Brush, Font, Label,
    Name, Op, Quantity, Tally,
};
use sysmon_core::num::{num, Num};
use sysmon_core::settings::{Mode, Settings};
use sysmon_core::ui::{draw, draw_tooltip, hit, hover_changed, row_under, HitRect, Screen, UiState, RECT_F};
use sysmon_core::window::{
    drag_ended, early_reply, handle_action, kill_answered, logical_to_physical, menu_chosen, message, persist, point_in, set_mode,
    set_visible, settled, snap_edge, start_mode, start_position, surface_size, tracking_started, wndproc, App, Command, Message,
    Reply, WindowRect,
};
use sysmon_core::words::label_text;
use sysmon_core::{AppState, GpuInfo, ProcInfo};

fn n(x: f64) -> Num {
    num(x.to_bits())
}

fn f(x: Num) -> f64 {
    f64::from_bits(x.bits)
}

fn app() -> App {
    App::start(Settings::default(), n(1.0))
}

fn screen() -> Screen {
    Screen { scale: n(1.0), w: n(340.0), h: n(500.0) }
}

fn proc_info(pid: u32, name: &str, cpu: f64) -> ProcInfo {
    ProcInfo { pid, name: name.to_string(), cpu: n(cpu), mem: n(1.25), exe: Some("C:\\a\\b\\c\\x.exe".to_string()) }
}

/// A point as the parameter of a message holds it.
fn at(x: i16, y: i16) -> u64 {
    ((y as u16 as u64) << 16) | (x as u16 as u64)
}

fn send(app: &mut App, m: Message, wparam: u64, lparam: u64) -> Vec<Command> {
    let (reply, commands) = wndproc(app, m, wparam, lparam, (0, 0), 1_000);
    assert_eq!(reply, if m == Message::Other { Reply::Default } else { Reply::Done });
    commands
}

// --- History -----------------------------------------------------------------

#[test]
fn a_series_holds_the_last_twenty_readings() {
    let mut h = History::new();
    let mut state = AppState::default();
    for i in 0..50 {
        state.snapshot.cpu = n(i as f64);
        h.push_metrics(&state.snapshot);
    }
    assert_eq!(h.cpu.len(), MAX_POINTS);
    assert_eq!(h.cpu.iter().map(|v| f(*v)).collect::<Vec<_>>(), (30..50).map(|i| i as f64).collect::<Vec<_>>());
    for series in [&h.temp, &h.ram, &h.gpu, &h.net, &h.disk_r, &h.disk_w] {
        assert_eq!(series.len(), MAX_POINTS);
    }
}

#[test]
fn no_data_becomes_a_gap() {
    let mut h = History::new();
    let mut state = AppState::default();
    state.snapshot.cpu_temp = n(-1.0);
    h.push_metrics(&state.snapshot);
    assert!(h.temp[0].is_nan() && h.gpu[0].is_nan() && h.disk_r[0].is_nan() && h.disk_w[0].is_nan());
    state.snapshot.cpu_temp = n(55.5);
    state.snapshot.gpu = n(12.0);
    state.snapshot.cpu = n(130.0);
    state.snapshot.memory.percent = n(-2.0);
    state.snapshot.disk.read_bytes_sec = n(2048.0);
    state.snapshot.disk.write_bytes_sec = n(0.0);
    state.snapshot.network.rx_bytes_sec = n(1024.0);
    state.snapshot.network.tx_bytes_sec = n(512.0);
    h.push_metrics(&state.snapshot);
    let last = [h.cpu[1], h.temp[1], h.ram[1], h.gpu[1], h.net[1], h.disk_r[1], h.disk_w[1]].map(f);
    assert_eq!(last, [100.0, 55.5, 0.0, 12.0, 1.5, 2.0, 0.0]);
}

#[test]
fn scales_follow_the_readings() {
    let mut h = History::new();
    assert_eq!((f(gpu_peak(&h)), f(net_peak(&h)), f(disk_peak(&h))), ((10.0f64 * 1.2) as f32 as f64, 64.0, 64.0));
    h.gpu = vec![n(-1.0), n(f64::NAN), n(50.0), n(20.0)];
    h.net = vec![n(f64::NAN), n(3.0), n(100.5)];
    h.disk_r = vec![n(70.0), n(f64::NAN)];
    h.disk_w = vec![n(-1.0), n(90.0)];
    assert_eq!((f(gpu_peak(&h)), f(net_peak(&h)), f(disk_peak(&h))), ((50.0f64 * 1.2) as f32 as f64, 100.5, 90.0));
    h.net.push(n(100.6));
    assert_eq!(f(net_peak(&h)), 100.6f32 as f64);
}

#[test]
fn the_line_of_a_chart_has_gaps() {
    let frame = Frame { l: n(10.0), t: n(20.0), r: n(210.0), b: n(122.0) };
    let data = vec![n(0.0), n(50.0), n(f64::NAN), n(100.0), n(200.0), n(25.0)];
    let line = chart(&frame, &data, n(100.0));
    let got: Vec<[f64; 4]> = line.iter().map(|s| [f(s.x1), f(s.y1), f(s.x2), f(s.y2)]).collect();
    assert_eq!(
        got,
        vec![[15.0, 121.0, 25.0, 71.0], [45.0, 21.0, 55.0, 21.0], [55.0, 21.0, 65.0, 96.0]]
    );
    // The places are those of binary32.
    let third = Frame { l: n(0.0), t: n(0.0), r: n(100.0), b: n(50.0) };
    let line = chart(&third, &vec![n(1.0), n(0.1)], n(3.0));
    let y = |v: f32| (50.0f32 - (v / 3.0).clamp(0.0, 1.0) * 48.0 - 1.0) as f64;
    assert_eq!([f(line[0].y1), f(line[0].y2)], [y(1.0), y(0.1)]);
    assert!(chart(&frame, &Vec::new(), n(100.0)).is_empty());
    assert!(chart(&frame, &vec![n(1.0)], n(100.0)).is_empty());
}

#[test]
fn bars_are_filled_by_percent() {
    assert_eq!(bar_fill(n(300.0), n(50.0)).map(f), Some(150.0));
    assert_eq!(bar_fill(n(300.0), n(150.0)).map(f), Some(300.0));
    assert_eq!(bar_fill(n(300.0), n(0.1)), None);
    assert_eq!(bar_fill(n(300.0), n(-4.0)), None);
    assert_eq!(bar_fill(n(300.0), n(f64::NAN)), None);
    assert_eq!(bar_fill(n(50.0), n(1.0)), None);
}

// --- Places ------------------------------------------------------------------

#[test]
fn places_follow_the_window() {
    let s = Screen { scale: n(1.5), w: n(510.0), h: n(750.0) };
    assert_eq!(f(s.place(left(8))), 12.0);
    assert_eq!(f(s.place(right(8))), 498.0);
    assert_eq!(f(s.place(middle(4))), 261.0);
    assert_eq!(f(s.place(bottom(8))), 738.0);
    let r = s.place_area(&area(left(8), right(8), 44, 0, 52));
    assert_eq!([r.l, r.t, r.r, r.b].map(f), [12.0, 66.0, 498.0, 144.0]);
}

#[test]
fn rectangles_do_not_hold_their_far_edges() {
    let r = RECT_F { l: n(1.0), t: n(2.0), r: n(3.0), b: n(4.0) };
    assert!(r.contains(n(1.0), n(2.0)));
    assert!(r.contains(n(2.999), n(3.999)));
    assert!(!r.contains(n(3.0), n(3.0)));
    assert!(!r.contains(n(2.0), n(4.0)));
    assert!(!r.contains(n(0.999), n(3.0)));
    assert!(!r.contains(n(f64::NAN), n(3.0)));
}

#[test]
fn brushes_have_their_colours() {
    assert_eq!(rgb(Brush::Bg), (0x0a, 0x0c, 0x14));
    assert_eq!(rgb(Brush::Cyan), (0, 0xff, 0xe5));
    assert_eq!(rgb(Brush::Alert), (0xff, 0x4d, 0x5e));
}

// --- Drawing -----------------------------------------------------------------

fn labels(ops: &[Op]) -> Vec<Label> {
    ops.iter()
        .filter_map(|op| match op {
            Op::Text { label, .. } => Some(*label),
            _ => None,
        })
        .collect()
}

fn cards(ops: &[Op]) -> Vec<(f64, f64)> {
    ops.iter()
        .filter_map(|op| match op {
            Op::Card { area, .. } => {
                let r = screen().place_area(area);
                Some((f(r.t), f(r.b)))
            }
            _ => None,
        })
        .collect()
}

#[test]
fn the_header_lights_mode_pin_and_mouse() {
    let mut hits = Vec::new();
    let ops = draw_header(Mode::Charts, true, Some(Action::Close), &mut hits);
    let actions: Vec<Action> = hits.iter().map(|h| h.action).collect();
    assert_eq!(
        actions,
        vec![
            Action::Close,
            Action::Mode(Mode::Procs),
            Action::Mode(Mode::Charts),
            Action::Mode(Mode::Dev),
            Action::Mode(Mode::Mini),
            Action::Pin
        ]
    );
    let fills: Vec<Brush> = ops
        .iter()
        .filter_map(|op| match op {
            Op::Fill { brush, .. } => Some(*brush),
            _ => None,
        })
        .collect();
    assert_eq!(fills, vec![Brush::Track, Brush::Border, Brush::Border]);
    let first = screen().place_area(&hits[0].area);
    assert_eq!([first.l, first.t, first.r, first.b].map(f), [308.0, 5.0, 334.0, 31.0]);
    let last = screen().place_area(&hits[5].area);
    assert_eq!([last.l, last.r].map(f), [168.0, 194.0]);
    assert_eq!(ops[0], Op::Rule { y: left(36), brush: Brush::Border });
}

#[test]
fn buttons_do_not_overlap() {
    let mut hits = Vec::new();
    draw_header(Mode::Dev, false, None, &mut hits);
    let rects: Vec<RECT_F> = hits.iter().map(|h| screen().place_area(&h.area)).collect();
    for i in 0..rects.len() {
        for j in 0..i {
            assert!(f(rects[i].r) <= f(rects[j].l));
        }
        assert!(f(rects[i].l) >= 130.0 && f(rects[i].b) <= 36.0);
    }
}

#[test]
fn the_full_mode_has_six_cards() {
    let mut state = AppState::default();
    state.snapshot.cpu = n(85.0);
    state.snapshot.cpu_temp = n(-1.0);
    let ops = draw_dev(&state.snapshot);
    assert_eq!(cards(&ops), vec![(44.0, 96.0), (104.0, 156.0), (164.0, 216.0), (224.0, 276.0), (284.0, 328.0), (336.0, 380.0)]);
    assert_eq!(
        labels(&ops),
        vec![
            Label::Fixed(Name::Cpu),
            Label::Percent(n(85.0)),
            Label::Fixed(Name::CpuTemp),
            Label::Celsius(n(-1.0)),
            Label::TempHint,
            Label::Fixed(Name::Gpu),
            Label::GpuUse(n(-1.0)),
            Label::GpuDetail,
            Label::Fixed(Name::Ram),
            Label::Percent(n(0.0)),
            Label::Memory,
            Label::Fixed(Name::Net),
            Label::Iface,
            Label::NetRates { wide: true },
            Label::Fixed(Name::Disk),
            Label::DiskRates
        ]
    );
    // CPU use from 85 percent on is set in the colour of alerts.
    assert_eq!(
        ops[2],
        Op::Text {
            label: Label::Percent(n(85.0)),
            font: Font::Big,
            area: area(right(118), right(20), 44, 4, 30),
            brush: Brush::Alert
        }
    );
    assert_eq!(
        ops[3],
        Op::Bar { x: left(20), y: left(78), width: right(40), height: left(6), percent: n(85.0), brush: Brush::Cyan }
    );
    state.snapshot.cpu_temp = n(80.0);
    let ops = draw_dev(&state.snapshot);
    assert!(!labels(&ops).contains(&Label::TempHint));
}

#[test]
fn before_the_first_sample_there_is_no_temperature() {
    let state = AppState::default();
    assert_eq!(state.snapshot.cpu_temp, n(-1.0));
    assert_eq!(label_text(Label::Celsius(state.snapshot.cpu_temp), &state), "n/a");
    assert!(labels(&draw_dev(&state.snapshot)).contains(&Label::TempHint));
    let mut h = History::new();
    h.push_metrics(&state.snapshot);
    assert!(h.temp[0].is_nan());
}

#[test]
fn the_small_mode_leads_to_the_full_one() {
    let mut state = AppState::default();
    state.snapshot.gpu = n(3.0);
    state.snapshot.cpu_temp = n(-1.0);
    let mut hits = Vec::new();
    let ops = draw_mini(&state.snapshot, Some(Action::Expand), &mut hits);
    assert_eq!(cards(&ops), vec![(44.0, 78.0), (84.0, 118.0), (124.0, 158.0), (164.0, 198.0), (204.0, 234.0)]);
    assert_eq!(hits.iter().map(|h| h.action).collect::<Vec<_>>(), vec![Action::Expand, Action::Expand]);
    // No bar without a reading: CPU, memory and GPU have one.
    let bars = ops.iter().filter(|op| matches!(op, Op::Bar { .. })).count();
    assert_eq!(bars, 3);
    assert_eq!(ops[0], Op::Card { area: area(left(8), right(8), 44, 0, 34), hover: true });
}

#[test]
fn the_charts_show_the_latest_readings() {
    let mut h = History::new();
    let empty = draw_charts(&h);
    h.cpu = vec![n(1.0), n(42.0)];
    h.net = vec![n(7.5)];
    let ops = draw_charts(&h);
    assert_eq!(ops.len(), empty.len() + 2);
    assert!(labels(&ops).contains(&Label::Percent(n(42.0))));
    assert!(labels(&ops).contains(&Label::Figure(n(7.5))));
    assert!(labels(&ops).contains(&Label::SessionAvg(Tally::Gpu)));
    let charts = ops.iter().filter(|op| matches!(op, Op::Chart { .. })).count();
    assert_eq!(charts, 7);
    assert_eq!(
        cards(&ops),
        vec![(44.0, 122.0), (44.0, 122.0), (130.0, 208.0), (130.0, 208.0), (216.0, 294.0), (302.0, 380.0), (388.0, 492.0)]
    );
    // Nothing reaches below the window.
    for op in &ops {
        if let Op::Card { area, .. } | Op::Text { area, .. } | Op::Chart { area, .. } = op {
            assert!(f(screen().place_area(area).b) <= 500.0);
        }
    }
    // No card lies over another.
    let places: Vec<RECT_F> = ops
        .iter()
        .filter_map(|op| match op {
            Op::Card { area, .. } => Some(screen().place_area(area)),
            _ => None,
        })
        .collect();
    for (i, a) in places.iter().enumerate() {
        for b in &places[..i] {
            assert!(f(b.r) <= f(a.l) || f(a.r) <= f(b.l) || f(b.b) <= f(a.t) || f(a.b) <= f(b.t));
        }
    }
}

#[test]
fn every_process_has_a_row_and_a_button() {
    let mut state = AppState::default();
    let (mut hits, mut rows) = (Vec::new(), Vec::new());
    let ops = draw_procs(&state, None, &mut hits, &mut rows);
    assert_eq!(labels(&ops), vec![Label::Fixed(Name::TopProcesses), Label::Fixed(Name::Sampling)]);
    assert!(hits.is_empty() && rows.is_empty());
    state.procs = vec![proc_info(10, "a", 5.0), proc_info(11, "b", 4.0)];
    let ops = draw_procs(&state, Some(1), &mut hits, &mut rows);
    assert_eq!(hits.iter().map(|h| h.action).collect::<Vec<_>>(), vec![Action::Kill(10), Action::Kill(11)]);
    assert_eq!(
        labels(&ops),
        vec![
            Label::Fixed(Name::TopProcesses),
            Label::ProcName(0),
            Label::ProcDetail(0),
            Label::Plain(n(5.0)),
            Label::Fixed(Name::Kill),
            Label::ProcName(1),
            Label::ProcDetail(1),
            Label::Plain(n(4.0)),
            Label::Fixed(Name::Kill),
            Label::Fixed(Name::Footer)
        ]
    );
    let row = screen().place_area(&rows[1]);
    assert_eq!([row.l, row.t, row.r, row.b].map(f), [16.0, 128.0, 324.0, 172.0]);
    let kill = screen().place_area(&hits[1].area);
    assert_eq!([kill.l, kill.t, kill.r, kill.b].map(f), [262.0, 136.0, 318.0, 158.0]);
    // Only the row under the mouse is lit.
    let lit = ops.iter().filter(|op| matches!(op, Op::Fill { brush: Brush::CardHover, .. })).count();
    assert_eq!(lit, 1);
}

#[test]
fn a_drawing_tells_what_answers_to_the_mouse() {
    let mut state = AppState::default();
    state.procs = vec![proc_info(10, "a", 5.0)];
    let mut ui = UiState::default();
    ui.mode = Mode::Procs;
    draw(&state, &mut ui, &screen());
    assert_eq!((ui.hits.len(), ui.rows.len()), (7, 1));
    assert_eq!(hit(&ui, n(320.0), n(20.0)), Some(Action::Close));
    assert_eq!(hit(&ui, n(290.0), n(100.0)), Some(Action::Kill(10)));
    assert_eq!(hit(&ui, n(100.0), n(100.0)), None);
    assert_eq!(row_under(&ui, n(100.0), n(100.0)), Some(0));
    assert_eq!(row_under(&ui, n(100.0), n(124.0)), None);
    assert!(hover_changed(&ui, n(320.0), n(20.0)));
    assert!(!hover_changed(&ui, n(100.0), n(100.0)));
    ui.mode = Mode::Dev;
    let ops = draw(&state, &mut ui, &screen());
    assert_eq!((ui.hits.len(), ui.rows.len()), (6, 0));
    assert!(ops.len() > 30);
}

#[test]
fn labels_have_their_words() {
    let mut state = AppState::default();
    let say = |label: Label, state: &AppState| label_text(label, state);
    assert_eq!(say(Label::Fixed(Name::Title), &state), "SYS MONITOR");
    assert_eq!(say(Label::Fixed(Name::DiskReadWrite), &state), "DISCO L/W");
    assert_eq!(say(Label::Fixed(Name::Footer), &state), "muestreo cada 10 s · top 5 por CPU");
    assert_eq!(say(Label::Glyph(Action::Close), &state), "✕");
    assert_eq!(say(Label::Glyph(Action::Pin), &state), "📌");
    assert_eq!(say(Label::TempHint, &state), "sin sensor térmico accesible en este equipo");
    state.snapshot.temp_status = "admin".to_string();
    assert_eq!(say(Label::TempHint, &state), "⚠ requiere ejecutar como administrador");
    assert_eq!(say(Label::GpuDetail, &state), "--");
    state.gpu_info.info = GpuInfo { ok: true, model: "GTX".into(), vendor: String::new(), vram_mb: Some(4095), driver: String::new() };
    assert_eq!(say(Label::GpuDetail, &state), "GTX · 4095 MB");
    state.gpu_info.info.vram_mb = None;
    assert_eq!(say(Label::GpuDetail, &state), "GTX");
    state.snapshot.memory.used_gb = n(7.25);
    state.snapshot.memory.total_gb = n(15.9);
    assert_eq!(say(Label::Memory, &state), "7.25 / 15.90 GB");
    state.snapshot.network.rx_bytes_sec = n(2097152.0);
    assert_eq!(say(Label::NetRates { wide: true }, &state), "▼2.00 MB/s  |  ▲0.0 KB/s");
    assert_eq!(say(Label::NetRates { wide: false }, &state), "▼2.00 MB/s | ▲0.0 KB/s");
    state.snapshot.disk.read_bytes_sec = n(512.0);
    assert_eq!(say(Label::DiskRates, &state), "▼0.5 KB/s  |  ▲n/a");
    assert_eq!(say(Label::DiskPair, &state), "0.5 KB/s / n/a");
    state.session.record(n(10.0), n(20.0), n(30.0), n(2048.0));
    state.session.record(n(20.0), n(40.0), n(-1.0), n(1024.0));
    assert_eq!(say(Label::SessionTitle, &state), "SESIÓN — MÁX / PROM · 2 muestras");
    assert_eq!(say(Label::SessionMax(Tally::Ram), &state), "40.0%");
    assert_eq!(say(Label::SessionAvg(Tally::Cpu), &state), "prom 15.0%");
    assert_eq!(say(Label::SessionAvg(Tally::Gpu), &state), "prom 30.0%");
    assert_eq!(say(Label::NetMax, &state), "2.0 KB/s");
    assert_eq!(say(Label::NetAvg, &state), "prom 1.5 KB/s");
    state.procs = vec![proc_info(10, "a", 5.0), proc_info(11, "", 4.0)];
    assert_eq!(say(Label::ProcName(0), &state), "a");
    assert_eq!(say(Label::ProcName(1), &state), "…");
    assert_eq!(say(Label::ProcDetail(0), &state), "#10 · 5.0% cpu · 1.25% ram");
    assert_eq!(say(Label::ProcName(7), &state), "");
    assert_eq!(say(Label::Plain(n(12.34)), &state), "12.3%");
    assert_eq!(say(Label::Percent(n(12.35)), &state), "12.4%");
    assert_eq!(say(Label::Celsius(n(60.0)), &state), "60°C");
    assert_eq!(say(Label::GpuUse(n(-1.0)), &state), "n/a");
    assert_eq!(say(Label::Figure(n(1.25)), &state), "1.2");
    assert_eq!(say(Label::Iface, &state), "");
}

#[test]
fn tooltips_stay_in_the_window() {
    let mut state = AppState::default();
    state.procs = vec![proc_info(10, "", 5.04)];
    let mut ui = UiState::default();
    assert!(draw_tooltip(&state, &ui, &screen(), (n(0.0), n(0.0))).is_none());
    ui.hover_row = Some(1);
    assert!(draw_tooltip(&state, &ui, &screen(), (n(0.0), n(0.0))).is_none());
    ui.hover_row = Some(0);
    let tip = draw_tooltip(&state, &ui, &screen(), (n(20.0), n(90.0))).unwrap();
    let b = tip.shape;
    assert_eq!([b.l, b.t, b.r, b.b].map(f), [32.0, 102.0, 262.0, 168.0]);
    let words: Vec<&str> = tip.lines.iter().map(|l| l.text.as_str()).collect();
    assert_eq!(words, vec!["PID 10", "PID: 10", "…\\c\\x.exe", "CPU: 5.0%  ·  RAM: 1.2%"]);
    let second = tip.lines[1].rect;
    assert_eq!([second.l, second.t, second.r, second.b].map(f), [40.0, 123.0, 256.0, 138.0]);
    // At twice the size everything about the tooltip is twice as large.
    let twice = Screen { scale: n(2.0), w: n(680.0), h: n(1000.0) };
    let large = draw_tooltip(&state, &ui, &twice, (n(20.0), n(90.0))).unwrap();
    let b = large.shape;
    assert_eq!([b.l, b.t, b.r, b.b].map(f), [64.0, 204.0, 524.0, 336.0]);
    let tip = draw_tooltip(&state, &ui, &screen(), (n(300.0), n(480.0))).unwrap();
    assert_eq!([tip.shape.l, tip.shape.t].map(f), [300.0 - 230.0 - 8.0, 480.0 - 66.0 - 8.0]);
}

// --- Messages ----------------------------------------------------------------

#[test]
fn messages_are_known_by_their_numbers() {
    let known = [
        (0x14, Message::EraseBackground),
        (0x84, Message::HitTest),
        (0x0f, Message::Paint),
        (0x05, Message::Size),
        (0x113, Message::Timer),
        (0x312, Message::Hotkey),
        (0x200, Message::MouseMove),
        (0x2a3, Message::MouseLeave),
        (0x201, Message::ButtonDown),
        (0x10, Message::Close),
        (0x232, Message::DragEnded),
        (0x02, Message::Destroy),
        (0x8001, Message::Tray),
        (0x400, Message::Other),
    ];
    for (number, m) in known {
        assert_eq!(message(number), m);
    }
    assert_eq!(early_reply(Message::EraseBackground), Reply::Erased);
    assert_eq!(early_reply(Message::HitTest), Reply::Client);
    assert_eq!(early_reply(Message::Paint), Reply::Default);
}

#[test]
fn points_have_signs() {
    assert_eq!(point_in(at(10, 20)), (10, 20));
    assert_eq!(point_in(at(-1, -32768)), (-1, -32768));
    assert_eq!(point_in(0xffff_ffff_8000_7fff), (32767, -32768));
    assert_eq!(surface_size(0, -5), (1, 1));
    assert_eq!(surface_size(340, 500), (340, 500));
}

#[test]
fn the_header_drags_the_window() {
    let mut a = App::start(Settings::default(), n(1.5));
    assert_eq!(wndproc(&mut a, Message::HitTest, 0, 0, (400, 53), 0).0, Reply::Caption);
    assert_eq!(wndproc(&mut a, Message::HitTest, 0, 0, (400, 54), 0).0, Reply::Client);
    assert_eq!(wndproc(&mut a, Message::HitTest, 0, 0, (7, -3), 0).0, Reply::Caption);
    a.ui.show_settings = true;
    assert_eq!(wndproc(&mut a, Message::HitTest, 0, 0, (7, 10), 0).0, Reply::Client);
    assert_eq!(wndproc(&mut a, Message::EraseBackground, 0, 0, (0, 0), 0).0, Reply::Erased);
}

#[test]
fn plain_messages_give_their_commands() {
    let mut a = app();
    assert_eq!(send(&mut a, Message::Paint, 0, 0), vec![Command::Paint]);
    assert_eq!(send(&mut a, Message::Size, 0, 0), vec![Command::ResizeSurface, Command::Invalidate]);
    assert_eq!(send(&mut a, Message::DragEnded, 0, 0), vec![Command::LookAtWindow]);
    assert_eq!(send(&mut a, Message::Destroy, 0, 0), vec![Command::RemoveTray, Command::PostQuit]);
    assert!(send(&mut a, Message::Other, 0, 0).is_empty());
}

#[test]
fn closing_hides_and_the_hotkey_shows() {
    let mut a = app();
    assert_eq!(send(&mut a, Message::Close, 0, 0), vec![Command::Hide]);
    assert!(!a.state.visible);
    // While hidden, the timer rests.
    assert!(send(&mut a, Message::Timer, 1, 0).is_empty());
    assert_eq!(a.ui.history.cpu.len(), 0);
    assert_eq!(send(&mut a, Message::Hotkey, 0, 0), vec![Command::Show, Command::Foreground, Command::Invalidate]);
    assert!(a.state.visible);
    assert_eq!(a.ui.history.cpu.len(), 1);
    assert_eq!(set_visible(&mut a, false), vec![Command::Hide]);
}

#[test]
fn the_timer_records_and_warns() {
    let mut a = app();
    a.state.snapshot.cpu = n(99.0);
    assert_eq!(wndproc(&mut a, Message::Timer, 1, 0, (0, 0), 1_000).1, vec![Command::Invalidate]);
    let commands = wndproc(&mut a, Message::Timer, 1, 0, (0, 0), 3_500).1;
    assert_eq!(
        commands,
        vec![Command::Notify { alert: Alert::Cpu { percent: n(99.0), threshold: n(85.0) } }, Command::Invalidate]
    );
    assert_eq!(a.ui.history.cpu.len(), 2);
    // Another timer is not ours.
    assert!(send(&mut a, Message::Timer, 2, 0).is_empty());
    assert_eq!(a.ui.history.cpu.len(), 2);
}

#[test]
fn the_mouse_is_tracked_and_lights_rows() {
    let mut a = App::start(Settings::default(), n(2.0));
    a.ui.rows = vec![RECT_F { l: n(0.0), t: n(80.0), r: n(100.0), b: n(124.0) }];
    a.ui.hits = vec![HitRect { rect: RECT_F { l: n(0.0), t: n(0.0), r: n(10.0), b: n(10.0) }, action: Action::Pin }];
    assert_eq!(send(&mut a, Message::MouseMove, 0, at(100, 200)), vec![Command::TrackLeave, Command::Invalidate]);
    assert_eq!((f(a.mouse.0), f(a.mouse.1)), (50.0, 100.0));
    assert_eq!(a.ui.hover_row, Some(0));
    assert!(!a.tracking);
    tracking_started(&mut a);
    assert!(a.tracking);
    assert!(send(&mut a, Message::MouseMove, 0, at(102, 202)).is_empty());
    assert_eq!(send(&mut a, Message::MouseMove, 0, at(-5, 4)), vec![Command::Invalidate]);
    assert_eq!(a.ui.hover_row, None);
    assert_eq!(send(&mut a, Message::MouseLeave, 0, 0), vec![Command::Invalidate]);
    assert!(!a.tracking && a.ui.hover_btn.is_none());
}

#[test]
fn clicks_do_what_the_drawing_says() {
    let mut a = app();
    draw(&a.state, &mut a.ui, &screen());
    assert_eq!(
        send(&mut a, Message::ButtonDown, 0, at(265, 15)),
        vec![Command::SaveSettings, Command::Resize { width: 340, height: 500 }, Command::Invalidate]
    );
    assert_eq!(a.ui.mode, Mode::Charts);
    assert!(send(&mut a, Message::ButtonDown, 0, at(60, 300)).is_empty());
    assert_eq!((f(a.mouse.0), f(a.mouse.1)), (60.0, 300.0));
    assert_eq!(send(&mut a, Message::ButtonDown, 0, at(320, 15)), vec![Command::Hide]);
}

#[test]
fn buttons_work_at_every_scale() {
    for scale in [1.0, 1.25, 1.5, 2.0, 3.0] {
        let mut a = App::start(Settings::default(), n(scale));
        let wide = Screen { scale: n(scale), w: n(340.0 * scale), h: n(500.0 * scale) };
        a.ui.mode = Mode::Procs;
        a.state.procs = vec![proc_info(10, "a", 5.0)];
        let ops = draw(&a.state, &mut a.ui, &wide);
        // Every button answers where its fill or its sign is drawn.
        for op in &ops {
            let (area, action) = match op {
                Op::Text { label: Label::Glyph(action), area, .. } => (area, *action),
                Op::Fill { area, brush: Brush::Alert, .. } => (area, Action::Kill(10)),
                _ => continue,
            };
            let r = wide.place_area(area);
            for (x, y) in [(f(r.l).ceil(), f(r.t).ceil()), (f(r.r).ceil() - 1.0, f(r.b).ceil() - 1.0)] {
                assert_eq!(hit(&a.ui, n(x / scale), n(y / scale)), Some(action), "{} at {}", scale, x);
                let reply = wndproc(&mut a, Message::HitTest, 0, 0, (x as i32, y as i32), 0).0;
                assert_eq!(reply, Reply::Client);
            }
        }
        // Beside the buttons the header drags the window.
        let title = ((50.0 * scale) as i32, (10.0 * scale) as i32);
        assert_eq!(wndproc(&mut a, Message::HitTest, 0, 0, title, 0).0, Reply::Caption);
        let (x, y) = ((320.0 * scale) as i16, (15.0 * scale) as i16);
        assert_eq!(send(&mut a, Message::ButtonDown, 0, at(x, y)), vec![Command::Hide]);
    }
}

#[test]
fn actions_change_the_state() {
    let mut a = app();
    assert_eq!(
        handle_action(&mut a, Action::Pin),
        vec![Command::Topmost { pinned: false }, Command::SaveSettings, Command::Invalidate]
    );
    assert!(!a.state.pinned && !a.ui.pinned && !a.state.settings.pinned);
    assert_eq!(
        handle_action(&mut a, Action::Mode(Mode::Mini)),
        vec![Command::SaveSettings, Command::Resize { width: 340, height: 245 }, Command::Invalidate]
    );
    assert_eq!((a.state.mode, a.state.settings.mode.as_str()), (Mode::Mini, "mini"));
    assert_eq!(a.ui.history.cpu.len(), 0);
    assert_eq!(handle_action(&mut a, Action::Expand).len(), 3);
    assert_eq!(a.ui.mode, Mode::Dev);
    assert_eq!(a.ui.history.cpu.len(), 1);
    assert!(set_mode(&mut a, Mode::Dev).is_empty());
    assert_eq!(handle_action(&mut a, Action::Kill(77)), vec![Command::ConfirmKill { pid: 77 }]);
    assert_eq!(handle_action(&mut a, Action::ToggleSettings), vec![Command::Invalidate]);
    assert!(a.ui.show_settings);
    for _ in 0..4 {
        assert_eq!(
            handle_action(&mut a, Action::Th(Quantity::Temp, 5)),
            vec![Command::SaveSettings, Command::Invalidate]
        );
    }
    assert_eq!(a.state.settings.thresholds.temp, n(100.0));
    handle_action(&mut a, Action::Th(Quantity::Cpu, -500));
    handle_action(&mut a, Action::Th(Quantity::Ram, 5));
    handle_action(&mut a, Action::Th(Quantity::Gpu, 50));
    let t = a.state.settings.thresholds;
    assert_eq!((t.cpu, t.ram, t.gpu), (n(1.0), n(95.0), n(100.0)));
    assert_eq!(handle_action(&mut a, Action::Close), vec![Command::Hide]);
}

#[test]
fn ending_a_process_is_confirmed() {
    assert_eq!(kill_answered(7, true), vec![Command::KillProcess { pid: 7 }, Command::Invalidate]);
    assert!(kill_answered(7, false).is_empty());
}

#[test]
fn the_tray_answers_to_both_buttons() {
    let mut a = app();
    assert_eq!(send(&mut a, Message::Tray, 0, 0x0202), vec![Command::Hide]);
    assert_eq!(send(&mut a, Message::Tray, 0, 0x0205), vec![Command::OpenMenu]);
    assert!(send(&mut a, Message::Tray, 0, 0x0200).is_empty());
    assert!(!a.state.visible);
    assert_eq!(menu_chosen(&mut a, 1), vec![Command::Show, Command::Foreground, Command::Invalidate]);
    assert_eq!(menu_chosen(&mut a, 2), vec![Command::DestroyWindow]);
    assert!(menu_chosen(&mut a, 0).is_empty());
}

#[test]
fn sizes_follow_the_scale() {
    assert_eq!(logical_to_physical(340, n(1.0)), 340);
    assert_eq!(logical_to_physical(245, n(1.5)), 368);
    assert_eq!(logical_to_physical(500, n(1.25)), 625);
    assert_eq!(logical_to_physical(1, n(0.5)), 1);
}

#[test]
fn windows_snap_to_the_edges() {
    let at_place = |l: i32, t: i32| WindowRect { left: l, top: t, right: l + 340, bottom: t + 500 };
    assert_eq!(snap_edge(&at_place(16, -16), 1920, 1080), (0, 0));
    assert_eq!(snap_edge(&at_place(17, 100), 1920, 1080), (17, 100));
    assert_eq!(snap_edge(&at_place(1570, 570), 1920, 1080), (1580, 580));
    assert_eq!(snap_edge(&at_place(1600, 597), 1920, 1080), (1600, 597));
    // Where both edges are near, the far one wins.
    assert_eq!(snap_edge(&WindowRect { left: 10, top: 0, right: 95, bottom: 50 }, 100, 1080), (15, 0));
    assert_eq!(drag_ended(&at_place(5, 100), 1920, 1080), vec![Command::MoveTo { x: 0, y: 100 }, Command::ReadPosition]);
    assert_eq!(drag_ended(&at_place(500, 100), 1920, 1080), vec![Command::ReadPosition]);
    // At rest, a window moves no more.
    assert_eq!(drag_ended(&at_place(0, 580), 1920, 1080), vec![Command::ReadPosition]);
}

#[test]
fn positions_and_preferences_are_remembered() {
    let mut a = app();
    assert_eq!(settled(&mut a, -7, 12), vec![Command::SaveSettings]);
    assert_eq!((a.state.settings.x, a.state.settings.y), (Some(-7), Some(12)));
    a.ui.mode = Mode::Procs;
    a.state.pinned = false;
    assert_eq!(persist(&mut a), vec![Command::SaveSettings]);
    assert_eq!((a.state.settings.mode.as_str(), a.state.settings.pinned), ("procs", false));
}

#[test]
fn preferences_survive_a_restart() {
    let mut a = app();
    handle_action(&mut a, Action::Pin);
    handle_action(&mut a, Action::Mode(Mode::Charts));
    handle_action(&mut a, Action::Th(Quantity::Gpu, -5));
    settled(&mut a, 40, 50);
    let b = App::start(a.state.settings.clone().sanitized(), n(1.0));
    assert_eq!(b.ui.mode, Mode::Charts);
    assert_eq!(b.state.mode, Mode::Charts);
    assert!(!b.state.pinned && !b.ui.pinned);
    assert_eq!(b.state.settings.thresholds, a.state.settings.thresholds);
    assert_eq!(start_position(&b.state.settings, 1920, 340), (40, 50));
}

#[test]
fn the_window_starts_in_the_corner() {
    assert_eq!(start_position(&Settings::default(), 1920, 340), (1556, 96));
    let half = Settings { x: Some(3), ..Default::default() };
    assert_eq!(start_position(&half, 1920, 510), (1386, 96));
    assert_eq!(start_mode("mini"), Mode::Mini);
    assert_eq!(start_mode("charts"), Mode::Charts);
    assert_eq!(start_mode("procs"), Mode::Procs);
    assert_eq!(start_mode("nonsense"), Mode::Dev);
}
