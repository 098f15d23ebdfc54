//! The texts of a drawing.

use vstd::prelude::*;
use vstd::string::StringExecFns;
use crate::arith::{lemma_whole_exact, of_whole};
use crate::digits::{decimal, decimal_text};
use crate::figures::{fixed, fixed_text, law_whole_numbers_are_written};
use crate::format::{disk_speed, disk_speed_text, figure, gpu, gpu_text, law_rates_are_told, law_readings_are_told, pct, pct_text, speed, speed_text, temp, temp_text, with_unit};
use crate::layout::{Action, Label, Name, Tally};
use crate::metrics::{average, AppState, GpuInfo, GpuInfoView, ProcInfo, ProcView, SessionStats};
use crate::num::Num;
use crate::settings::Mode;
use crate::text::{chars_of, same_text};

verus! {

pub open spec fn name_words(name: Name) -> Seq<char> {
    match name {
        Name::Title => "SYS MONITOR"@,
        Name::Cpu => "CPU"@,
        Name::CpuTemp => "CPU TEMP"@,
        Name::Temp => "TEMP"@,
        Name::Gpu => "GPU"@,
        Name::Ram => "RAM"@,
        Name::Net => "NET"@,
        Name::Disk => "DISK"@,
        Name::CpuPercent => "CPU %"@,
        Name::TempCelsius => "TEMP °C"@,
        Name::RamPercent => "RAM %"@,
        Name::GpuPercent => "GPU %"@,
        Name::NetRate => "NET KB/s"@,
        Name::DiskReadWrite => "DISCO L/W"@,
        Name::Traffic => "RED"@,
        Name::TopProcesses => "TOP 5 PROCESSES"@,
        Name::Kill => "KILL"@,
        Name::Sampling => "muestreando procesos…"@,
        Name::Footer => "muestreo cada 10 s · top 5 por CPU"@,
    }
}

fn name_text(name: Name) -> (r: &'static str)
    ensures
        r@ == name_words(name),
{
    match name {
        Name::Title => "SYS MONITOR",
        Name::Cpu => "CPU",
        Name::CpuTemp => "CPU TEMP",
        Name::Temp => "TEMP",
        Name::Gpu => "GPU",
        Name::Ram => "RAM",
        Name::Net => "NET",
        Name::Disk => "DISK",
        Name::CpuPercent => "CPU %",
        Name::TempCelsius => "TEMP °C",
        Name::RamPercent => "RAM %",
        Name::GpuPercent => "GPU %",
        Name::NetRate => "NET KB/s",
        Name::DiskReadWrite => "DISCO L/W",
        Name::Traffic => "RED",
        Name::TopProcesses => "TOP 5 PROCESSES",
        Name::Kill => "KILL",
        Name::Sampling => "muestreando procesos…",
        Name::Footer => "muestreo cada 10 s · top 5 por CPU",
    }
}

pub open spec fn glyph_words(action: Action) -> Seq<char> {
    match action {
        Action::Close => "\u{2715}"@,
        Action::Mode(Mode::Procs) => "\u{2630}"@,
        Action::Mode(Mode::Charts) => "\u{25D4}"@,
        Action::Mode(Mode::Dev) => "\u{25A6}"@,
        Action::Mode(Mode::Mini) => "\u{25A1}"@,
        Action::Pin => "\u{1F4CC}"@,
        _ => ""@,
    }
}

fn glyph_text(action: Action) -> (r: &'static str)
    ensures
        r@ == glyph_words(action),
{
    match action {
        Action::Close => "\u{2715}",
        Action::Mode(Mode::Procs) => "\u{2630}",
        Action::Mode(Mode::Charts) => "\u{25D4}",
        Action::Mode(Mode::Dev) => "\u{25A6}",
        Action::Mode(Mode::Mini) => "\u{25A1}",
        Action::Pin => "\u{1F4CC}",
        _ => "",
    }
}

pub open spec fn hint_words(status: Seq<char>) -> Seq<char> {
    if status == "admin"@ {
        "\u{26A0} requiere ejecutar como administrador"@
    } else {
        "sin sensor térmico accesible en este equipo"@
    }
}

pub open spec fn gpu_detail_words(info: GpuInfoView) -> Seq<char> {
    if !info.ok {
        "--"@
    } else {
        match info.vram_mb {
            Some(mb) => info.model + " · "@ + decimal(mb as nat) + " MB"@,
            None => info.model,
        }
    }
}

fn gpu_detail(info: &GpuInfo) -> (r: String)
    ensures
        r@ == gpu_detail_words(info@),
{
    if !info.ok {
        return "--".to_owned();
    }
    let mut out = info.model.clone();
    match info.vram_mb {
        Some(mb) => {
            out.append(" · ");
            out.append(decimal_text(mb).as_str());
            out.append(" MB");
        },
        None => {},
    }
    out
}

pub open spec fn session_max(s: SessionStats, of: Tally) -> Num {
    match of {
        Tally::Cpu => s.cpu_max,
        Tally::Ram => s.mem_max,
        Tally::Gpu => s.gpu_max,
    }
}

pub open spec fn session_avg(s: SessionStats, of: Tally) -> Num {
    match of {
        Tally::Cpu => average(s.cpu_sum, s.samples),
        Tally::Ram => average(s.mem_sum, s.samples),
        Tally::Gpu => average(s.gpu_sum, s.gpu_samples),
    }
}

pub open spec fn proc_name_words(p: ProcView) -> Seq<char> {
    if p.name.len() == 0 {
        "…"@
    } else {
        p.name
    }
}

pub open spec fn proc_detail_words(p: ProcView) -> Seq<char> {
    "#"@ + decimal(p.pid as nat) + " · "@ + fixed_text(p.cpu, 1) + "% cpu · "@ + fixed_text(
        p.mem,
        2,
    ) + "% ram"@
}

fn proc_name(p: &ProcInfo) -> (r: String)
    ensures
        r@ == proc_name_words(p@),
{
    if chars_of(p.name.as_str()).len() == 0 {
        "…".to_owned()
    } else {
        p.name.clone()
    }
}

fn proc_detail(p: &ProcInfo) -> (r: String)
    ensures
        r@ == proc_detail_words(p@),
{
    let mut out = "#".to_owned();
    out.append(decimal_text(p.pid as u64).as_str());
    out.append(" · ");
    out.append(fixed(p.cpu, 1).as_str());
    out.append("% cpu · ");
    out.append(fixed(p.mem, 2).as_str());
    out.append("% ram");
    out
}

/// A text before, between and after two others.
pub open spec fn pair_words(
    before: Seq<char>,
    first: Seq<char>,
    between: Seq<char>,
    second: Seq<char>,
) -> Seq<char> {
    before + first + between + second
}

fn pair(before: &str, first: String, between: &str, second: String) -> (r: String)
    ensures
        r@ == pair_words(before@, first@, between@, second@),
{
    let mut out = before.to_owned();
    out.append(first.as_str());
    out.append(between);
    out.append(second.as_str());
    out
}

/// What a label says.
pub open spec fn label_words(label: Label, state: AppState) -> Seq<char> {
    let snap = state.snapshot@;
    match label {
        Label::Fixed(name) => name_words(name),
        Label::Glyph(action) => glyph_words(action),
        Label::Percent(v) => pct_text(v),
        Label::Plain(v) => with_unit(v, 1, "%"@),
        Label::Celsius(v) => temp_text(v),
        Label::GpuUse(v) => gpu_text(v),
        Label::Figure(v) => fixed_text(v, 1),
        Label::TempHint => hint_words(snap.temp_status),
        Label::GpuDetail => gpu_detail_words(state.gpu_info.info@),
        Label::Memory => pair_words(
            ""@,
            fixed_text(snap.memory.used_gb, 2),
            " / "@,
            with_unit(snap.memory.total_gb, 2, " GB"@),
        ),
        Label::Iface => snap.iface,
        Label::NetRates { wide } => pair_words(
            "\u{25BC}"@,
            speed_text(snap.rx_bytes_sec),
            if wide {
                "  |  \u{25B2}"@
            } else {
                " | \u{25B2}"@
            },
            speed_text(snap.tx_bytes_sec),
        ),
        Label::DiskRates => pair_words(
            "\u{25BC}"@,
            disk_speed_text(snap.disk.read_bytes_sec),
            "  |  \u{25B2}"@,
            disk_speed_text(snap.disk.write_bytes_sec),
        ),
        Label::DiskPair => pair_words(
            ""@,
            disk_speed_text(snap.disk.read_bytes_sec),
            " / "@,
            disk_speed_text(snap.disk.write_bytes_sec),
        ),
        Label::SessionTitle => "SESIÓN — MÁX / PROM · "@ + decimal(state.session.samples as nat)
            + " muestras"@,
        Label::SessionMax(of) => with_unit(session_max(state.session, of), 1, "%"@),
        Label::SessionAvg(of) => "prom "@ + with_unit(session_avg(state.session, of), 1, "%"@),
        Label::NetMax => speed_text(state.session.net_max),
        Label::NetAvg => "prom "@ + speed_text(
            average(state.session.net_sum, state.session.samples),
        ),
        Label::ProcName(i) => if i < state.procs@.len() {
            proc_name_words(state.procs@[i as int]@)
        } else {
            ""@
        },
        Label::ProcDetail(i) => if i < state.procs@.len() {
            proc_detail_words(state.procs@[i as int]@)
        } else {
            ""@
        },
    }
}

/// What a label says.
pub fn label_text(label: Label, state: &AppState) -> (r: String)
    ensures
        r@ == label_words(label, *state),
{
    let snap = &state.snapshot;
    let s = &state.session;
    match label {
        Label::Fixed(name) => name_text(name).to_owned(),
        Label::Glyph(action) => glyph_text(action).to_owned(),
        Label::Percent(v) => pct(v),
        Label::Plain(v) => figure(v, 1, "%"),
        Label::Celsius(v) => temp(v),
        Label::GpuUse(v) => gpu(v),
        Label::Figure(v) => fixed(v, 1),
        Label::TempHint => if same_text(snap.temp_status.as_str(), "admin") {
            "\u{26A0} requiere ejecutar como administrador".to_owned()
        } else {
            "sin sensor térmico accesible en este equipo".to_owned()
        },
        Label::GpuDetail => gpu_detail(&state.gpu_info.info),
        Label::Memory => pair(
            "",
            fixed(snap.memory.used_gb, 2),
            " / ",
            figure(snap.memory.total_gb, 2, " GB"),
        ),
        Label::Iface => snap.network.iface.clone(),
        Label::NetRates { wide } => pair(
            "\u{25BC}",
            speed(snap.network.rx_bytes_sec),
            if wide {
                "  |  \u{25B2}"
            } else {
                " | \u{25B2}"
            },
            speed(snap.network.tx_bytes_sec),
        ),
        Label::DiskRates => pair(
            "\u{25BC}",
            disk_speed(snap.disk.read_bytes_sec),
            "  |  \u{25B2}",
            disk_speed(snap.disk.write_bytes_sec),
        ),
        Label::DiskPair => pair(
            "",
            disk_speed(snap.disk.read_bytes_sec),
            " / ",
            disk_speed(snap.disk.write_bytes_sec),
        ),
        Label::SessionTitle => {
            let mut out = "SESIÓN — MÁX / PROM · ".to_owned();
            out.append(decimal_text(s.samples).as_str());
            out.append(" muestras");
            out
        },
        Label::SessionMax(of) => figure(
            match of {
                Tally::Cpu => s.cpu_max,
                Tally::Ram => s.mem_max,
                Tally::Gpu => s.gpu_max,
                    },
            1,
            "%",
        ),
        Label::SessionAvg(of) => {
            let avg = match of {
                Tally::Cpu => s.cpu_avg(),
                Tally::Ram => s.mem_avg(),
                Tally::Gpu => s.gpu_avg(),
            };
            let mut out = "prom ".to_owned();
            out.append(figure(avg, 1, "%").as_str());
            out
        },
        Label::NetMax => speed(s.net_max),
        Label::NetAvg => {
            let mut out = "prom ".to_owned();
            out.append(speed(s.net_avg()).as_str());
            out
        },
        Label::ProcName(i) => if i < state.procs.len() {
            proc_name(&state.procs[i])
        } else {
            "".to_owned()
        },
        Label::ProcDetail(i) => if i < state.procs.len() {
            proc_detail(&state.procs[i])
        } else {
            "".to_owned()
        },
    }
}

/// The rates of network and disk are told one behind the other, what comes in first:
/// whole numbers of MB/s as they are.
pub proof fn law_rates_in_words(state: AppState, a: nat, b: nat)
    requires
        1 <= a < 0x1_0000_0000,
        1 <= b < 0x1_0000_0000,
    ensures
        ({
            let snap = state.snapshot@;
            let (first, second) = (
                decimal(a) + seq!['.', '0', '0'] + " MB/s"@,
                decimal(b) + seq!['.', '0', '0'] + " MB/s"@,
            );
            let (x, y) = (of_whole(a * 0x10_0000), of_whole(b * 0x10_0000));
            &&& snap.rx_bytes_sec == x && snap.tx_bytes_sec == y ==> label_words(
                Label::NetRates { wide: true },
                state,
            ) == "\u{25BC}"@ + first + "  |  \u{25B2}"@ + second && label_words(
                Label::NetRates { wide: false },
                state,
            ) == "\u{25BC}"@ + first + " | \u{25B2}"@ + second
            &&& snap.disk.read_bytes_sec == x && snap.disk.write_bytes_sec == y ==> label_words(
                Label::DiskRates,
                state,
            ) == "\u{25BC}"@ + first + "  |  \u{25B2}"@ + second && label_words(
                Label::DiskPair,
                state,
            ) == ""@ + first + " / "@ + second
        }),
{
    law_rates_are_told(of_whole(a * 0x10_0000), a);
    law_rates_are_told(of_whole(b * 0x10_0000), b);
    lemma_whole_exact(a * 0x10_0000);
    lemma_whole_exact(b * 0x10_0000);
}

/// Memory, the maxima and averages of the session and the figures of a process are told
/// by their own numbers.
pub proof fn law_figures_in_words(state: AppState, a: nat, b: nat, i: usize)
    requires
        a < 0x1_0000_0000,
        b < 0x1_0000_0000,
    ensures
        ({
            let snap = state.snapshot@;
            let s = state.session;
            let one = decimal(a) + seq!['.', '0'];
            let two = decimal(a) + seq!['.', '0', '0'];
            &&& snap.memory.used_gb == of_whole(a) && snap.memory.total_gb == of_whole(b)
                ==> label_words(Label::Memory, state) == ""@ + two + " / "@ + (decimal(b) + seq![
                '.',
                '0',
                '0',
            ] + " GB"@)
            &&& s.cpu_max == of_whole(a) ==> label_words(Label::SessionMax(Tally::Cpu), state)
                == one + "%"@
            &&& s.mem_max == of_whole(a) ==> label_words(Label::SessionMax(Tally::Ram), state)
                == one + "%"@
            &&& s.gpu_max == of_whole(a) ==> label_words(Label::SessionMax(Tally::Gpu), state)
                == one + "%"@
            &&& average(s.cpu_sum, s.samples) == of_whole(a) ==> label_words(
                Label::SessionAvg(Tally::Cpu),
                state,
            ) == "prom "@ + (one + "%"@)
            &&& average(s.mem_sum, s.samples) == of_whole(a) ==> label_words(
                Label::SessionAvg(Tally::Ram),
                state,
            ) == "prom "@ + (one + "%"@)
            &&& average(s.gpu_sum, s.gpu_samples) == of_whole(a) ==> label_words(
                Label::SessionAvg(Tally::Gpu),
                state,
            ) == "prom "@ + (one + "%"@)
            &&& a >= 1 && s.net_max == of_whole(a * 0x10_0000) ==> label_words(
                Label::NetMax,
                state,
            ) == two + " MB/s"@
            &&& a >= 1 && average(s.net_sum, s.samples) == of_whole(a * 0x10_0000) ==> label_words(
                Label::NetAvg,
                state,
            ) == "prom "@ + (two + " MB/s"@)
            &&& i < state.procs@.len() && state.procs@[i as int]@.cpu == of_whole(a)
                && state.procs@[i as int]@.mem == of_whole(b) ==> label_words(
                Label::ProcDetail(i),
                state,
            ) == "#"@ + decimal(state.procs@[i as int]@.pid as nat) + " · "@ + one + "% cpu · "@ + (
            decimal(b) + seq!['.', '0', '0']) + "% ram"@
            &&& i < state.procs@.len() && state.procs@[i as int]@.name.len() > 0 ==> label_words(
                Label::ProcName(i),
                state,
            ) == state.procs@[i as int]@.name
            &&& label_words(Label::Iface, state) == snap.iface
        }),
{
    law_whole_numbers_are_written(a);
    law_whole_numbers_are_written(b);
    law_readings_are_told(of_whole(a), b);
    law_rates_are_told(of_whole(a), a);
}

/// The readings of a drawing are told as they are where they are whole numbers; why there
/// is no temperature depends on its state, and what is known of the graphics card is told.
pub proof fn law_readings_in_words(state: AppState, a: nat)
    requires
        a < 0x1_0000_0000,
    ensures
        label_words(Label::Percent(of_whole(a)), state) == decimal(a) + seq!['.', '0'] + "%"@,
        label_words(Label::Plain(of_whole(a)), state) == decimal(a) + seq!['.', '0'] + "%"@,
        label_words(Label::Celsius(of_whole(a)), state) == decimal(a) + "°C"@,
        label_words(Label::GpuUse(of_whole(a)), state) == decimal(a) + "%"@,
        label_words(Label::Figure(of_whole(a)), state) == decimal(a) + seq!['.', '0'],
        state.snapshot@.temp_status == "admin"@ ==> label_words(Label::TempHint, state)
            == "\u{26A0} requiere ejecutar como administrador"@,
        state.snapshot@.temp_status != "admin"@ ==> label_words(Label::TempHint, state)
            == "sin sensor térmico accesible en este equipo"@,
        ({
            let info = state.gpu_info.info@;
            let told = label_words(Label::GpuDetail, state);
            &&& !info.ok ==> told == "--"@
            &&& info.ok && info.vram_mb is None ==> told == info.model
            &&& info.ok && info.vram_mb is Some ==> told == info.model + " · "@ + decimal(
                info.vram_mb->0 as nat,
            ) + " MB"@
        }),
        label_words(Label::SessionTitle, state) == "SESIÓN — MÁX / PROM · "@ + decimal(
            state.session.samples as nat,
        ) + " muestras"@,
{
    law_whole_numbers_are_written(a);
    law_readings_are_told(of_whole(a), a);
}

} // verus!
