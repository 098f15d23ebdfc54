//! The guardian: warns when a reading stays above its threshold.

use vstd::prelude::*;
use vstd::string::StringExecFns;
use crate::arith::{law_whole_part, of_whole};
use crate::digits::{decimal, decimal_text};
use crate::figures::{fixed, fixed_text, law_whole_numbers_are_written};
use crate::metrics::{AppState, Snapshot, SnapshotView};
use crate::num::{num, num_of, Num, HUNDRED, ZERO};
use crate::settings::Thresholds;

verus! {

/// Readings in a row above the threshold before an alert.
pub const STREAK_NEEDED: u32 = 2;

/// Milliseconds between two alerts of one channel.
pub const COOLDOWN: u64 = 60_000;

// --- One channel -------------------------------------------------------------

/// What the guardian remembers of one channel.
#[derive(Clone, Copy, Debug, PartialEq, Eq, Structural)]
pub struct Watch {
    /// Readings in a row above the threshold.
    pub streak: u32,
    /// Whether the present episode has had its alert.
    pub fired: bool,
    /// When the last alert came, in milliseconds of a clock that only runs forward.
    pub last: Option<u64>,
}

pub open spec fn at_rest() -> Watch {
    Watch { streak: 0, fired: false, last: None }
}

impl Watch {
    /// Whether enough time has passed since the last alert.
    pub open spec fn rested(self, now: u64) -> bool {
        match self.last {
            Some(at) => now - at >= COOLDOWN,
            None => true,
        }
    }

    /// Whether the next reading brings an alert.
    pub open spec fn alerts(self, over: bool, now: u64) -> bool {
        over && self.streak + 1 >= STREAK_NEEDED && !self.fired && self.rested(now)
    }

    /// The channel after the next reading.
    pub open spec fn after(self, over: bool, now: u64) -> Watch {
        if over {
            Watch {
                streak: (self.streak + 1) as u32,
                fired: self.fired || self.alerts(over, now),
                last: if self.alerts(over, now) {
                    Some(now)
                } else {
                    self.last
                },
            }
        } else {
            Watch { streak: 0, fired: false, last: self.last }
        }
    }

    pub fn ready(&self, now: u64) -> (r: bool)
        ensures
            r == self.rested(now),
    {
        match self.last {
            Some(at) => now >= at && now - at >= COOLDOWN,
            None => true,
        }
    }

    /// Takes the next reading in, above the threshold or not, and says whether it
    /// brings an alert.
    pub fn tick(&mut self, over: bool, now: u64) -> (r: bool)
        requires
            old(self).streak < u32::MAX,
        ensures
            r == old(self).alerts(over, now),
            *final(self) == old(self).after(over, now),
    {
        if !over {
            self.streak = 0;
            self.fired = false;
            return false;
        }
        self.streak = self.streak + 1;
        if self.streak >= STREAK_NEEDED && !self.fired && self.ready(now) {
            self.fired = true;
            self.last = Some(now);
            return true;
        }
        false
    }
}

/// One reading of a channel: above the threshold or not, and when.
pub struct Reading {
    pub over: bool,
    pub now: u64,
}

/// The channel after the readings, from rest.
pub open spec fn watched(readings: Seq<Reading>) -> Watch
    decreases readings.len(),
{
    if readings.len() == 0 {
        at_rest()
    } else {
        watched(readings.drop_last()).after(readings.last().over, readings.last().now)
    }
}

/// Whether the reading at index `i` brings an alert.
pub open spec fn alert_at(readings: Seq<Reading>, i: int) -> bool {
    0 <= i < readings.len() && watched(readings.take(i)).alerts(readings[i].over, readings[i].now)
}

/// The end of the row that lies above the threshold without a break.
pub open spec fn unbroken(readings: Seq<Reading>) -> nat
    decreases readings.len(),
{
    if readings.len() > 0 && readings.last().over {
        unbroken(readings.drop_last()) + 1
    } else {
        0
    }
}

proof fn lemma_watched_step(readings: Seq<Reading>, i: int)
    requires
        0 <= i < readings.len(),
    ensures
        watched(readings.take(i + 1)) == watched(readings.take(i)).after(
            readings[i].over,
            readings[i].now,
        ),
{
    assert(readings.take(i + 1).drop_last() == readings.take(i));
}

proof fn lemma_streak(readings: Seq<Reading>)
    requires
        readings.len() <= u32::MAX,
    ensures
        watched(readings).streak == unbroken(readings),
        unbroken(readings) <= readings.len(),
        watched(readings).fired ==> watched(readings).last is Some && unbroken(readings) >= 2,
    decreases readings.len(),
{
    if readings.len() > 0 {
        lemma_streak(readings.drop_last());
    }
}

/// An alert needs at least two readings in a row above the threshold.
pub proof fn law_alert_needs_two_in_a_row(readings: Seq<Reading>, i: int)
    requires
        readings.len() <= u32::MAX,
        alert_at(readings, i),
    ensures
        i >= 1,
        readings[i].over,
        readings[i - 1].over,
{
    lemma_streak(readings.take(i));
    if i >= 1 {
        assert(readings.take(i).last() == readings[i - 1]);
    }
}

/// The second of two readings above the threshold brings an alert, where the one
/// before them lies below (or there is none) and the channel has rested.
pub proof fn law_second_reading_alerts(readings: Seq<Reading>, i: int)
    requires
        readings.len() <= u32::MAX,
        1 <= i < readings.len(),
        readings[i].over,
        readings[i - 1].over,
        i >= 2 ==> !readings[i - 2].over,
        watched(readings.take(i)).rested(readings[i].now),
    ensures
        alert_at(readings, i),
{
    lemma_watched_step(readings, i - 1);
    lemma_streak(readings.take(i - 1));
    if i >= 2 {
        lemma_watched_step(readings, i - 2);
    } else {
        assert(readings.take(0).len() == 0);
    }
}

proof fn lemma_since_alert(readings: Seq<Reading>, i: int, j: int)
    requires
        readings.len() <= u32::MAX,
        alert_at(readings, i),
        i < j <= readings.len(),
        forall|k: int| i < k < j ==> !alert_at(readings, k),
    ensures
        watched(readings.take(j)).last == Some(readings[i].now),
        watched(readings.take(j)).fired <==> (forall|k: int|
            i < k < j ==> (#[trigger] readings[k]).over),
    decreases j,
{
    lemma_watched_step(readings, j - 1);
    lemma_streak(readings.take(j - 1));
    if j > i + 1 {
        lemma_since_alert(readings, i, j - 1);
        assert(!alert_at(readings, j - 1));
    }
}

/// One alert for one episode, and a minute between two alerts: between an alert
/// and the next a reading lies below the threshold, and at least the cooldown
/// passes.
pub proof fn law_alerts_keep_apart(readings: Seq<Reading>, i: int, j: int)
    requires
        readings.len() <= u32::MAX,
        alert_at(readings, i),
        alert_at(readings, j),
        i < j,
        forall|k: int| i < k < j ==> !alert_at(readings, k),
    ensures
        exists|k: int| i < k < j && !(#[trigger] readings[k]).over,
        readings[j].now - readings[i].now >= COOLDOWN,
{
    lemma_since_alert(readings, i, j);
}

/// Times do not run backward.
pub open spec fn in_time(readings: Seq<Reading>) -> bool {
    forall|i: int, j: int|
        0 <= i <= j < readings.len() ==> (#[trigger] readings[i]).now <= (#[trigger] readings[j]).now
}

proof fn lemma_last_alert(readings: Seq<Reading>, n: int) -> (k: int)
    requires
        0 <= n <= readings.len() <= u32::MAX,
    ensures
        k == -1 ==> watched(readings.take(n)).last is None && !watched(readings.take(n)).fired
            && forall|m: int| 0 <= m < n ==> !alert_at(readings, m),
        k != -1 ==> 0 <= k < n && alert_at(readings, k) && forall|m: int|
            k < m < n ==> !alert_at(readings, m),
    decreases n,
{
    if n == 0 {
        assert(readings.take(0).len() == 0);
        -1
    } else {
        let k = lemma_last_alert(readings, n - 1);
        lemma_watched_step(readings, n - 1);
        if alert_at(readings, n - 1) {
            n - 1
        } else {
            k
        }
    }
}

/// When a reading brings an alert: it lies above the threshold, the one before it does
/// too, and since every earlier alert a minute has passed and a reading has lain below.
pub proof fn law_alerts_come_when_due(readings: Seq<Reading>, i: int)
    requires
        readings.len() <= u32::MAX,
        in_time(readings),
        0 <= i < readings.len(),
    ensures
        alert_at(readings, i) <==> {
            &&& i >= 1 && readings[i].over && readings[i - 1].over
            &&& forall|k: int|
                0 <= k < i && #[trigger] alert_at(readings, k) ==> readings[i].now
                    - readings[k].now >= 60_000 && exists|m: int|
                    k < m < i && !(#[trigger] readings[m]).over
        },
{
    let last = lemma_last_alert(readings, i);
    lemma_streak(readings.take(i));
    if i >= 1 {
        assert(readings.take(i).last() == readings[i - 1]);
        if readings[i - 1].over {
            assert(unbroken(readings.take(i)) >= 1);
        } else {
            assert(unbroken(readings.take(i)) == 0);
        }
    } else {
        assert(readings.take(0).len() == 0);
    }
    if last != -1 {
        lemma_since_alert(readings, last, i);
        if alert_at(readings, i) {
            law_alerts_keep_apart(readings, last, i);
            let m = choose|m: int| last < m < i && !(#[trigger] readings[m]).over;
            assert forall|k: int| 0 <= k < i && #[trigger] alert_at(readings, k) implies readings[i].now
                - readings[k].now >= 60_000 && exists|m: int|
                k < m < i && !(#[trigger] readings[m]).over by {
                assert(k <= last);
                assert(readings[k].now <= readings[last].now);
                assert(k < m < i && !readings[m].over);
            }
        } else if i >= 1 && readings[i].over && readings[i - 1].over {
            assert(alert_at(readings, last));
        }
    }
}

// --- The four channels -------------------------------------------------------

/// The guardian's four channels.
#[derive(Clone, Copy, Debug, PartialEq, Eq, Structural)]
pub struct Guardian {
    pub cpu: Watch,
    pub temp: Watch,
    pub gpu: Watch,
    pub ram: Watch,
}

impl Default for Guardian {
    /// No channel has ever alerted, so that the first alert of each does not wait.
    fn default() -> (r: Guardian)
        ensures
            r == (Guardian { cpu: at_rest(), temp: at_rest(), gpu: at_rest(), ram: at_rest() }),
    {
        let rest = Watch { streak: 0, fired: false, last: None };
        Guardian { cpu: rest, temp: rest, gpu: rest, ram: rest }
    }
}

/// The readings and thresholds of one tick.
#[derive(Clone, Copy, Debug, PartialEq, Eq, Structural)]
pub struct GuardianInput {
    pub cpu: Num,
    pub temp: Num,
    pub gpu: Num,
    pub ram: Num,
    pub used_gb: Num,
    pub total_gb: Num,
    pub th_cpu: Num,
    pub th_temp: Num,
    pub th_gpu: Num,
    pub th_ram: Num,
}

impl GuardianInput {
    pub open spec fn cpu_over(self) -> bool {
        self.th_cpu.below(self.cpu)
    }

    pub open spec fn temp_over(self) -> bool {
        num_of(ZERO).below(self.temp) && self.th_temp.at_most(self.temp)
    }

    pub open spec fn gpu_over(self) -> bool {
        num_of(ZERO).below(self.gpu) && self.th_gpu.at_most(self.gpu)
    }

    pub open spec fn ram_over(self) -> bool {
        self.th_ram.at_most(self.ram)
    }
}

#[derive(Clone, Copy, Debug, PartialEq, Eq, Structural)]
pub enum Alert {
    Cpu { percent: Num, threshold: Num },
    Temp { celsius: Num, threshold: Num },
    Gpu { percent: Num, threshold: Num },
    Ram { percent: Num, threshold: Num, used_gb: Num, total_gb: Num },
}

pub open spec fn when(condition: bool, alert: Alert) -> Seq<Alert> {
    if condition {
        seq![alert]
    } else {
        Seq::empty()
    }
}

impl Guardian {
    pub open spec fn counting(self) -> bool {
        self.cpu.streak < u32::MAX && self.temp.streak < u32::MAX && self.gpu.streak < u32::MAX
            && self.ram.streak < u32::MAX
    }

    pub open spec fn after(self, m: GuardianInput, now: u64) -> Guardian {
        Guardian {
            cpu: self.cpu.after(m.cpu_over(), now),
            temp: self.temp.after(m.temp_over(), now),
            gpu: self.gpu.after(m.gpu_over(), now),
            ram: self.ram.after(m.ram_over(), now),
        }
    }

    pub open spec fn alerts(self, m: GuardianInput, now: u64) -> Seq<Alert> {
        when(
            self.cpu.alerts(m.cpu_over(), now),
            Alert::Cpu { percent: m.cpu, threshold: m.th_cpu },
        ) + when(
            self.temp.alerts(m.temp_over(), now),
            Alert::Temp { celsius: m.temp, threshold: m.th_temp },
        ) + when(
            self.gpu.alerts(m.gpu_over(), now),
            Alert::Gpu { percent: m.gpu, threshold: m.th_gpu },
        ) + when(
            self.ram.alerts(m.ram_over(), now),
            Alert::Ram {
                percent: m.ram,
                threshold: m.th_ram,
                used_gb: m.used_gb,
                total_gb: m.total_gb,
            },
        )
    }

    /// One tick: every channel takes its reading in. CPU use has to lie above its
    /// threshold, the others at it or above; a temperature or GPU use of zero or
    /// less stands for no data and never alerts.
    pub fn evaluate(&mut self, m: &GuardianInput, now: u64) -> (r: Vec<Alert>)
        requires
            old(self).counting(),
        ensures
            *final(self) == old(self).after(*m, now),
            r@ == old(self).alerts(*m, now),
    {
        let mut out: Vec<Alert> = Vec::new();
        if self.cpu.tick(m.cpu.gt(m.th_cpu), now) {
            out.push(Alert::Cpu { percent: m.cpu, threshold: m.th_cpu });
        }
        if self.temp.tick(m.temp.gt(num(ZERO)) && m.temp.ge(m.th_temp), now) {
            out.push(Alert::Temp { celsius: m.temp, threshold: m.th_temp });
        }
        if self.gpu.tick(m.gpu.gt(num(ZERO)) && m.gpu.ge(m.th_gpu), now) {
            out.push(Alert::Gpu { percent: m.gpu, threshold: m.th_gpu });
        }
        if self.ram.tick(m.ram.ge(m.th_ram), now) {
            out.push(
                Alert::Ram {
                    percent: m.ram,
                    threshold: m.th_ram,
                    used_gb: m.used_gb,
                    total_gb: m.total_gb,
                },
            );
        }
        assert(out@ == old(self).alerts(*m, now));
        out
    }

    /// One tick on the latest snapshot, with the thresholds of the settings.
    pub fn check(&mut self, app: &AppState, now: u64) -> (r: Vec<Alert>)
        requires
            old(self).counting(),
        ensures
            *final(self) == old(self).after(
                input_from(app.snapshot@, app.settings.thresholds),
                now,
            ),
            r@ == old(self).alerts(input_from(app.snapshot@, app.settings.thresholds), now),
    {
        let m = input_of(&app.snapshot, thresholds_of(app));
        self.evaluate(&m, now)
    }
}

/// The thresholds in force.
pub fn thresholds_of(app: &AppState) -> (r: Thresholds)
    ensures
        r == app.settings.thresholds,
{
    app.settings.thresholds
}

pub open spec fn input_from(snap: SnapshotView, th: Thresholds) -> GuardianInput {
    let (low, high) = (num_of(ZERO), num_of(HUNDRED));
    GuardianInput {
        cpu: snap.cpu.held_within(low, high),
        temp: snap.cpu_temp,
        gpu: snap.gpu,
        ram: snap.memory.percent.held_within(low, high),
        used_gb: snap.memory.used_gb,
        total_gb: snap.memory.total_gb,
        th_cpu: th.cpu,
        th_temp: th.temp,
        th_gpu: th.gpu,
        th_ram: th.ram,
    }
}

fn input_of(snap: &Snapshot, th: Thresholds) -> (r: GuardianInput)
    ensures
        r == input_from(snap@, th),
{
    GuardianInput {
        cpu: snap.cpu.clamp(num(ZERO), num(HUNDRED)),
        temp: snap.cpu_temp,
        gpu: snap.gpu,
        ram: snap.memory.percent.clamp(num(ZERO), num(HUNDRED)),
        used_gb: snap.memory.used_gb,
        total_gb: snap.memory.total_gb,
        th_cpu: th.cpu,
        th_temp: th.temp,
        th_gpu: th.gpu,
        th_ram: th.ram,
    }
}

/// Each channel takes its own reading of the snapshot and its own threshold of the
/// settings: CPU use above the threshold, the temperature, GPU use and memory from it
/// on, CPU use and memory held within 0 and 100 percent.
pub proof fn law_channels_have_their_thresholds(
    g: Guardian,
    snap: SnapshotView,
    th: Thresholds,
    now: u64,
)
    ensures
        ({
            let next = g.after(input_from(snap, th), now);
            let (zero, hundred) = (num_of(ZERO), num_of(HUNDRED));
            let cpu = snap.cpu.held_within(zero, hundred);
            let ram = snap.memory.percent.held_within(zero, hundred);
            &&& next.cpu == g.cpu.after(th.cpu.below(cpu), now)
            &&& next.ram == g.ram.after(th.ram.at_most(ram), now)
            &&& next.temp == g.temp.after(
                zero.below(snap.cpu_temp) && th.temp.at_most(snap.cpu_temp),
                now,
            )
            &&& next.gpu == g.gpu.after(zero.below(snap.gpu) && th.gpu.at_most(snap.gpu), now)
        }),
{
}

/// An alert tells of its own channel, with the reading of the snapshot and the threshold
/// of the settings; and every channel whose reading brings an alert tells of it, once
/// and in the order CPU, temperature, GPU, memory.
pub proof fn law_alerts_tell_of_their_channel(
    g: Guardian,
    snap: SnapshotView,
    th: Thresholds,
    now: u64,
)
    ensures
        ({
            let (zero, hundred) = (num_of(ZERO), num_of(HUNDRED));
            let cpu = snap.cpu.held_within(zero, hundred);
            let ram = snap.memory.percent.held_within(zero, hundred);
            let alerts = g.alerts(input_from(snap, th), now);
            let (c, t, p, r) = (
                g.cpu.alerts(th.cpu.below(cpu), now),
                g.temp.alerts(zero.below(snap.cpu_temp) && th.temp.at_most(snap.cpu_temp), now),
                g.gpu.alerts(zero.below(snap.gpu) && th.gpu.at_most(snap.gpu), now),
                g.ram.alerts(th.ram.at_most(ram), now),
            );
            let (i, j, k) = (c as int, c as int + t as int, c as int + t as int + p as int);
            &&& alerts.len() == k + r as int
            &&& c ==> alerts[0] == (Alert::Cpu { percent: cpu, threshold: th.cpu })
            &&& t ==> alerts[i] == (Alert::Temp { celsius: snap.cpu_temp, threshold: th.temp })
            &&& p ==> alerts[j] == (Alert::Gpu { percent: snap.gpu, threshold: th.gpu })
            &&& r ==> alerts[k] == (Alert::Ram {
                percent: ram,
                threshold: th.ram,
                used_gb: snap.memory.used_gb,
                total_gb: snap.memory.total_gb,
            })
        }),
{
}

/// A channel without data never alerts, whatever its threshold: its reading is
/// below zero.
pub proof fn law_no_data_no_alert(g: Guardian, m: GuardianInput, now: u64)
    ensures
        m.temp.below(num_of(ZERO)) ==> !g.temp.alerts(m.temp_over(), now) && g.after(
            m,
            now,
        ).temp.streak == 0,
        m.gpu.below(num_of(ZERO)) ==> !g.gpu.alerts(m.gpu_over(), now) && g.after(
            m,
            now,
        ).gpu.streak == 0,
{
}

/// The channels do not influence one another: what a channel does, and whether it
/// alerts, depends on its own reading, threshold and past.
pub proof fn law_channels_are_independent(
    g: Guardian,
    h: Guardian,
    m: GuardianInput,
    n: GuardianInput,
    now: u64,
)
    ensures
        g.cpu == h.cpu && m.cpu == n.cpu && m.th_cpu == n.th_cpu ==> g.after(m, now).cpu == h.after(
            n,
            now,
        ).cpu && g.cpu.alerts(m.cpu_over(), now) == h.cpu.alerts(n.cpu_over(), now),
        g.temp == h.temp && m.temp == n.temp && m.th_temp == n.th_temp ==> g.after(m, now).temp == h.after(
            n,
            now,
        ).temp && g.temp.alerts(m.temp_over(), now) == h.temp.alerts(n.temp_over(), now),
        g.gpu == h.gpu && m.gpu == n.gpu && m.th_gpu == n.th_gpu ==> g.after(m, now).gpu == h.after(
            n,
            now,
        ).gpu && g.gpu.alerts(m.gpu_over(), now) == h.gpu.alerts(n.gpu_over(), now),
        g.ram == h.ram && m.ram == n.ram && m.th_ram == n.th_ram ==> g.after(m, now).ram == h.after(
            n,
            now,
        ).ram && g.ram.alerts(m.ram_over(), now) == h.ram.alerts(n.ram_over(), now),
{
}

// --- Words -------------------------------------------------------------------

impl Alert {
    pub open spec fn title_text(self) -> Seq<char> {
        match self {
            Alert::Cpu { .. } => "\u{26A0}\u{FE0F} CPU Alert"@,
            Alert::Temp { .. } => "\u{1F321}\u{FE0F} Thermal Alert"@,
            Alert::Gpu { .. } => "\u{1F3AE} GPU Alert"@,
            Alert::Ram { .. } => "\u{1F9E0} RAM Alert"@,
        }
    }

    /// The message, with the threshold in the given words.
    pub open spec fn body_text(self, threshold: Seq<char>) -> Seq<char> {
        match self {
            Alert::Cpu { percent, .. } => "CPU "@ + fixed_text(percent, 1) + "% sostenida sobre "@
                + threshold + "%"@,
            Alert::Temp { celsius, .. } => "CPU "@ + decimal(
                celsius.whole_part(0, u32::MAX as int) as nat,
            ) + "°C sostenida sobre "@ + threshold + "°C"@,
            Alert::Gpu { percent, .. } => "GPU "@ + fixed_text(percent, 1) + "% sostenida sobre "@
                + threshold + "%"@,
            Alert::Ram { percent, used_gb, total_gb, .. } => "Memoria "@ + fixed_text(percent, 1)
                + "% sostenida sobre "@ + threshold + "% ("@ + fixed_text(used_gb, 1) + "/"@
                + fixed_text(total_gb, 1) + " GB)"@,
        }
    }

    pub open spec fn threshold_of(self) -> Num {
        match self {
            Alert::Cpu { threshold, .. } => threshold,
            Alert::Temp { threshold, .. } => threshold,
            Alert::Gpu { threshold, .. } => threshold,
            Alert::Ram { threshold, .. } => threshold,
        }
    }

    pub fn threshold(&self) -> (r: Num)
        ensures
            r == self.threshold_of(),
    {
        match *self {
            Alert::Cpu { threshold, .. } => threshold,
            Alert::Temp { threshold, .. } => threshold,
            Alert::Gpu { threshold, .. } => threshold,
            Alert::Ram { threshold, .. } => threshold,
        }
    }

    pub fn title(&self) -> (r: &'static str)
        ensures
            r@ == self.title_text(),
    {
        match *self {
            Alert::Cpu { .. } => "\u{26A0}\u{FE0F} CPU Alert",
            Alert::Temp { .. } => "\u{1F321}\u{FE0F} Thermal Alert",
            Alert::Gpu { .. } => "\u{1F3AE} GPU Alert",
            Alert::Ram { .. } => "\u{1F9E0} RAM Alert",
        }
    }

    /// The message. `threshold` is the threshold in its shortest decimal form.
    pub fn body(&self, threshold: &str) -> (r: String)
        ensures
            r@ == self.body_text(threshold@),
    {
        match *self {
            Alert::Cpu { percent, .. } => percent_body("CPU ", percent, threshold),
            Alert::Temp { celsius, .. } => {
                let mut out = "CPU ".to_owned();
                let degrees = celsius.to_whole(0, u32::MAX as i64);
                out.append(decimal_text(degrees as u64).as_str());
                out.append("°C sostenida sobre ");
                out.append(threshold);
                out.append("°C");
                out
            },
            Alert::Gpu { percent, .. } => percent_body("GPU ", percent, threshold),
            Alert::Ram { percent, used_gb, total_gb, .. } => {
                let mut out = "Memoria ".to_owned();
                out.append(fixed(percent, 1).as_str());
                out.append("% sostenida sobre ");
                out.append(threshold);
                out.append("% (");
                out.append(fixed(used_gb, 1).as_str());
                out.append("/");
                out.append(fixed(total_gb, 1).as_str());
                out.append(" GB)");
                out
            },
        }
    }
}

fn percent_body(start: &str, percent: Num, threshold: &str) -> (r: String)
    ensures
        r@ == start@ + fixed_text(percent, 1) + "% sostenida sobre "@ + threshold@ + "%"@,
{
    let mut out = start.to_owned();
    out.append(fixed(percent, 1).as_str());
    out.append("% sostenida sobre ");
    out.append(threshold);
    out.append("%");
    out
}

/// Alerts are told with their reading, whole numbers as they are, and the threshold.
pub proof fn law_alerts_in_words(a: nat, b: nat, c: nat, threshold: Num, words: Seq<char>)
    requires
        a < 0x1_0000_0000,
        b < 0x1_0000_0000,
        c < 0x1_0000_0000,
    ensures
        ({
            let (x, y, z) = (of_whole(a), of_whole(b), of_whole(c));
            let one = decimal(a) + seq!['.', '0'];
            &&& (Alert::Cpu { percent: x, threshold }).body_text(words) == "CPU "@ + one
                + "% sostenida sobre "@ + words + "%"@
            &&& (Alert::Temp { celsius: x, threshold }).body_text(words) == "CPU "@ + decimal(a)
                + "°C sostenida sobre "@ + words + "°C"@
            &&& (Alert::Gpu { percent: x, threshold }).body_text(words) == "GPU "@ + one
                + "% sostenida sobre "@ + words + "%"@
            &&& (Alert::Ram { percent: x, threshold, used_gb: y, total_gb: z }).body_text(words)
                == "Memoria "@ + one + "% sostenida sobre "@ + words + "% ("@ + (decimal(b) + seq![
                '.',
                '0',
            ]) + "/"@ + (decimal(c) + seq!['.', '0']) + " GB)"@
        }),
{
    law_whole_numbers_are_written(a);
    law_whole_numbers_are_written(b);
    law_whole_numbers_are_written(c);
    law_whole_part(a, 0, u32::MAX as int);
}

/// CPU use counts above its threshold, temperature, GPU use and memory from it on; the
/// temperature and GPU use only above zero. Each channel goes by its own numbers.
pub proof fn law_channels_take_their_readings(g: Guardian, m: GuardianInput, now: u64)
    ensures
        g.after(m, now).cpu == g.cpu.after(m.th_cpu.below(m.cpu), now),
        g.after(m, now).temp == g.temp.after(
            num_of(ZERO).below(m.temp) && m.th_temp.at_most(m.temp),
            now,
        ),
        g.after(m, now).gpu == g.gpu.after(
            num_of(ZERO).below(m.gpu) && m.th_gpu.at_most(m.gpu),
            now,
        ),
        g.after(m, now).ram == g.ram.after(m.th_ram.at_most(m.ram), now),
{
}

} // verus!
