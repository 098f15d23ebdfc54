//! What the widget measures: the latest snapshot, the busiest processes, the
//! graphics card, and the statistics of the session.

use vstd::prelude::*;
use crate::arith::{added_up, law_whole_added_up, law_whole_arithmetic, law_whole_quotient, lemma_added_up, of_whole, signed_pattern, unit, whole};
use crate::format::rounded_to;
use crate::num::{num, num_of, Num, HUNDRED, MINUS_ONE, TEN, ZERO};
use crate::settings::{default_settings, Mode, Settings};
use crate::text::{chars_of, lemma_trimmed_stays, string_of, trim_chars, trimmed};

verus! {

/// Width of the window in logical pixels.
pub const WIDGET_W: u32 = 340;

/// Height of the window in logical pixels.
pub const WIDGET_H: u32 = 500;

/// Height of the window in the small mode.
pub const MINI_H: u32 = 245;

#[derive(Clone, Copy, Debug, PartialEq, Eq, Structural)]
pub struct MemoryInfo {
    pub percent: Num,
    pub used_gb: Num,
    pub total_gb: Num,
}

#[derive(Debug)]
pub struct NetworkInfo {
    pub iface: String,
    pub rx_bytes_sec: Num,
    pub tx_bytes_sec: Num,
}

/// Transfer of all physical disks in bytes per second; -1 before the counters
/// deliver.
#[derive(Clone, Copy, Debug, PartialEq, Eq, Structural)]
pub struct DiskInfo {
    pub read_bytes_sec: Num,
    pub write_bytes_sec: Num,
}

#[derive(Debug)]
pub struct Snapshot {
    pub ok: bool,
    pub cpu: Num,
    pub memory: MemoryInfo,
    pub network: NetworkInfo,
    pub disk: DiskInfo,
    /// Degrees Celsius; -1 without a sensor.
    pub cpu_temp: Num,
    pub temp_status: String,
    /// Percent; -1 before the counters deliver.
    pub gpu: Num,
    pub error: Option<String>,
}

/// A copy of a text that may be missing.
pub fn copy_text(text: &Option<String>) -> (r: Option<String>)
    ensures
        optional_text(r) == optional_text(*text),
{
    match text {
        Some(t) => Some(t.clone()),
        None => None,
    }
}

/// The contents of [`Snapshot`].
pub struct SnapshotView {
    pub ok: bool,
    pub cpu: Num,
    pub memory: MemoryInfo,
    pub iface: Seq<char>,
    pub rx_bytes_sec: Num,
    pub tx_bytes_sec: Num,
    pub disk: DiskInfo,
    pub cpu_temp: Num,
    pub temp_status: Seq<char>,
    pub gpu: Num,
    pub error: Option<Seq<char>>,
}

pub open spec fn optional_text(text: Option<String>) -> Option<Seq<char>> {
    match text {
        Some(t) => Some(t@),
        None => None,
    }
}

impl View for Snapshot {
    type V = SnapshotView;

    open spec fn view(&self) -> SnapshotView {
        SnapshotView {
            ok: self.ok,
            cpu: self.cpu,
            memory: self.memory,
            iface: self.network.iface@,
            rx_bytes_sec: self.network.rx_bytes_sec,
            tx_bytes_sec: self.network.tx_bytes_sec,
            disk: self.disk,
            cpu_temp: self.cpu_temp,
            temp_status: self.temp_status@,
            gpu: self.gpu,
            error: optional_text(self.error),
        }
    }
}

impl Clone for Snapshot {
    fn clone(&self) -> (r: Snapshot)
        ensures
            r@ == self@,
    {
        Snapshot {
            ok: self.ok,
            cpu: self.cpu,
            memory: self.memory,
            network: NetworkInfo {
                iface: self.network.iface.clone(),
                rx_bytes_sec: self.network.rx_bytes_sec,
                tx_bytes_sec: self.network.tx_bytes_sec,
            },
            disk: self.disk,
            cpu_temp: self.cpu_temp,
            temp_status: self.temp_status.clone(),
            gpu: self.gpu,
            error: copy_text(&self.error),
        }
    }
}

/// One process of the list of the busiest.
#[derive(Debug)]
pub struct ProcInfo {
    pub pid: u32,
    pub name: String,
    pub cpu: Num,
    pub mem: Num,
    /// Path of the executable, as far as the system tells it.
    pub exe: Option<String>,
}

/// The contents of [`ProcInfo`].
pub struct ProcView {
    pub pid: u32,
    pub name: Seq<char>,
    pub cpu: Num,
    pub mem: Num,
    pub exe: Option<Seq<char>>,
}

impl View for ProcInfo {
    type V = ProcView;

    open spec fn view(&self) -> ProcView {
        ProcView {
            pid: self.pid,
            name: self.name@,
            cpu: self.cpu,
            mem: self.mem,
            exe: optional_text(self.exe),
        }
    }
}

impl Clone for ProcInfo {
    fn clone(&self) -> (r: ProcInfo)
        ensures
            r@ == self@,
    {
        ProcInfo {
            pid: self.pid,
            name: self.name.clone(),
            cpu: self.cpu,
            mem: self.mem,
            exe: copy_text(&self.exe),
        }
    }
}

/// The processes of a list.
pub open spec fn proc_views(procs: Seq<ProcInfo>) -> Seq<ProcView> {
    procs.map_values(|p: ProcInfo| p@)
}

#[derive(Debug)]
pub struct GpuInfo {
    pub ok: bool,
    pub model: String,
    pub vendor: String,
    pub vram_mb: Option<u64>,
    pub driver: String,
}

/// The contents of [`GpuInfo`].
pub struct GpuInfoView {
    pub ok: bool,
    pub model: Seq<char>,
    pub vendor: Seq<char>,
    pub vram_mb: Option<u64>,
    pub driver: Seq<char>,
}

impl View for GpuInfo {
    type V = GpuInfoView;

    open spec fn view(&self) -> GpuInfoView {
        GpuInfoView {
            ok: self.ok,
            model: self.model@,
            vendor: self.vendor@,
            vram_mb: self.vram_mb,
            driver: self.driver@,
        }
    }
}

impl Clone for GpuInfo {
    fn clone(&self) -> (r: GpuInfo)
        ensures
            r@ == self@,
    {
        GpuInfo {
            ok: self.ok,
            model: self.model.clone(),
            vendor: self.vendor.clone(),
            vram_mb: self.vram_mb,
            driver: self.driver.clone(),
        }
    }
}

pub open spec fn no_gpu_info() -> GpuInfoView {
    GpuInfoView { ok: false, model: ""@, vendor: ""@, vram_mb: None, driver: ""@ }
}

impl Default for GpuInfo {
    fn default() -> (r: GpuInfo)
        ensures
            r@ == no_gpu_info(),
    {
        GpuInfo {
            ok: false,
            model: "".to_owned(),
            vendor: "".to_owned(),
            vram_mb: None,
            driver: "".to_owned(),
        }
    }
}

/// Temperature of the processor and how it was come by: `ok`, `admin` (no data,
/// and no right to read it) or `none` (no sensor).
#[derive(Debug)]
pub struct TempState {
    pub celsius: Num,
    pub status: String,
}

// --- Statistics of the session -----------------------------------------------

/// Maxima and sums since the start of the program.
#[derive(Clone, Copy, Debug, PartialEq, Eq, Structural)]
pub struct SessionStats {
    pub samples: u64,
    pub cpu_sum: Num,
    pub mem_sum: Num,
    pub gpu_sum: Num,
    pub net_sum: Num,
    pub gpu_samples: u64,
    pub cpu_max: Num,
    pub mem_max: Num,
    pub gpu_max: Num,
    pub net_max: Num,
}

pub open spec fn no_stats() -> SessionStats {
    let zero = num_of(ZERO);
    SessionStats {
        samples: 0,
        cpu_sum: zero,
        mem_sum: zero,
        gpu_sum: zero,
        net_sum: zero,
        gpu_samples: 0,
        cpu_max: zero,
        mem_max: zero,
        gpu_max: zero,
        net_max: zero,
    }
}

impl Default for SessionStats {
    fn default() -> (r: SessionStats)
        ensures
            r == no_stats(),
    {
        let zero = num(ZERO);
        SessionStats {
            samples: 0,
            cpu_sum: zero,
            mem_sum: zero,
            gpu_sum: zero,
            net_sum: zero,
            gpu_samples: 0,
            cpu_max: zero,
            mem_max: zero,
            gpu_max: zero,
            net_max: zero,
        }
    }
}

/// `sum / n`, and zero where nothing was counted.
pub open spec fn average(sum: Num, n: u64) -> Num {
    if n == 0 {
        num_of(ZERO)
    } else {
        sum.quotient(of_whole(n as nat))
    }
}

fn average_of(sum: Num, n: u64) -> (r: Num)
    ensures
        r == average(sum, n),
{
    if n == 0 {
        num(ZERO)
    } else {
        sum.over(whole(n))
    }
}

/// One sample of the session.
pub struct Sample {
    pub cpu: Num,
    pub mem: Num,
    pub gpu: Num,
    pub net_bps: Num,
}

impl SessionStats {
    /// The statistics with one more sample. Without data for the GPU (a negative
    /// reading) the rest of the sample counts all the same.
    pub open spec fn with(self, sample: Sample) -> SessionStats {
        let rest = SessionStats {
            samples: (self.samples + 1) as u64,
            cpu_sum: self.cpu_sum.sum(sample.cpu),
            mem_sum: self.mem_sum.sum(sample.mem),
            net_sum: self.net_sum.sum(sample.net_bps),
            cpu_max: self.cpu_max.larger(sample.cpu),
            mem_max: self.mem_max.larger(sample.mem),
            net_max: self.net_max.larger(sample.net_bps),
            ..self
        };
        if num_of(ZERO).at_most(sample.gpu) {
            SessionStats {
                gpu_sum: self.gpu_sum.sum(sample.gpu),
                gpu_samples: (self.gpu_samples + 1) as u64,
                gpu_max: self.gpu_max.larger(sample.gpu),
                ..rest
            }
        } else {
            rest
        }
    }

    /// Samples with data for the GPU are samples.
    pub open spec fn wf(self) -> bool {
        self.gpu_samples <= self.samples
    }

    /// Counts a sample in.
    pub fn record(&mut self, cpu: Num, mem: Num, gpu: Num, net_bps: Num)
        requires
            old(self).samples < u64::MAX,
            old(self).gpu_samples < u64::MAX,
        ensures
            *final(self) == old(self).with(Sample { cpu, mem, gpu, net_bps }),
            old(self).wf() ==> final(self).wf(),
    {
        self.samples = self.samples + 1;
        self.cpu_sum = self.cpu_sum.plus(cpu);
        self.mem_sum = self.mem_sum.plus(mem);
        self.net_sum = self.net_sum.plus(net_bps);
        self.cpu_max = self.cpu_max.max(cpu);
        self.mem_max = self.mem_max.max(mem);
        self.net_max = self.net_max.max(net_bps);
        if gpu.ge(num(ZERO)) {
            self.gpu_sum = self.gpu_sum.plus(gpu);
            self.gpu_samples = self.gpu_samples + 1;
            self.gpu_max = self.gpu_max.max(gpu);
        }
    }

    pub fn cpu_avg(&self) -> (r: Num)
        ensures
            r == average(self.cpu_sum, self.samples),
    {
        average_of(self.cpu_sum, self.samples)
    }

    pub fn mem_avg(&self) -> (r: Num)
        ensures
            r == average(self.mem_sum, self.samples),
    {
        average_of(self.mem_sum, self.samples)
    }

    pub fn gpu_avg(&self) -> (r: Num)
        ensures
            r == average(self.gpu_sum, self.gpu_samples),
    {
        average_of(self.gpu_sum, self.gpu_samples)
    }

    pub fn net_avg(&self) -> (r: Num)
        ensures
            r == average(self.net_sum, self.samples),
    {
        average_of(self.net_sum, self.samples)
    }
}

/// The statistics of a row of samples.
pub open spec fn stats_of(samples: Seq<Sample>) -> SessionStats
    decreases samples.len(),
{
    if samples.len() == 0 {
        no_stats()
    } else {
        stats_of(samples.drop_last()).with(samples.last())
    }
}

/// The statistics count the samples, and count the GPU in those alone that have
/// data for it; no sample lies above the maxima, and none of these below zero.
pub proof fn law_session_maxima(samples: Seq<Sample>, i: int)
    requires
        samples.len() <= u64::MAX,
        0 <= i < samples.len(),
    ensures
        stats_of(samples).samples == samples.len(),
        stats_of(samples).gpu_samples == samples.filter(
            |s: Sample| num_of(ZERO).at_most(s.gpu),
        ).len(),
        num_of(ZERO).at_most(stats_of(samples).cpu_max),
        num_of(ZERO).at_most(stats_of(samples).mem_max),
        num_of(ZERO).at_most(stats_of(samples).gpu_max),
        num_of(ZERO).at_most(stats_of(samples).net_max),
        !stats_of(samples).cpu_max.below(samples[i].cpu),
        !stats_of(samples).mem_max.below(samples[i].mem),
        !stats_of(samples).net_max.below(samples[i].net_bps),
        !stats_of(samples).gpu_max.below(samples[i].gpu),
    decreases samples.len(),
{
    lemma_session(samples);
    lemma_session_bounds(samples, i);
}

proof fn lemma_session(samples: Seq<Sample>)
    requires
        samples.len() <= u64::MAX,
    ensures
        stats_of(samples).samples == samples.len(),
        stats_of(samples).gpu_samples == samples.filter(
            |s: Sample| num_of(ZERO).at_most(s.gpu),
        ).len(),
        stats_of(samples).gpu_samples <= samples.len(),
        num_of(ZERO).at_most(stats_of(samples).cpu_max),
        num_of(ZERO).at_most(stats_of(samples).mem_max),
        num_of(ZERO).at_most(stats_of(samples).gpu_max),
        num_of(ZERO).at_most(stats_of(samples).net_max),
    decreases samples.len(),
{
    reveal(Seq::filter);
    if samples.len() > 0 {
        lemma_session(samples.drop_last());
    }
}

proof fn lemma_session_bounds(samples: Seq<Sample>, i: int)
    requires
        samples.len() <= u64::MAX,
        0 <= i < samples.len(),
    ensures
        !stats_of(samples).cpu_max.below(samples[i].cpu),
        !stats_of(samples).mem_max.below(samples[i].mem),
        !stats_of(samples).net_max.below(samples[i].net_bps),
        !stats_of(samples).gpu_max.below(samples[i].gpu),
    decreases samples.len(),
{
    lemma_session(samples.drop_last());
    if i < samples.len() - 1 {
        lemma_session_bounds(samples.drop_last(), i);
        assert(samples.drop_last()[i] == samples[i]);
    }
}

/// Every maximum is a reading of the session, or the zero that it starts from.
pub proof fn law_session_maxima_were_read(samples: Seq<Sample>)
    ensures
        stats_of(samples).cpu_max == num_of(ZERO) || exists|i: int|
            0 <= i < samples.len() && (#[trigger] samples[i]).cpu == stats_of(samples).cpu_max,
        stats_of(samples).mem_max == num_of(ZERO) || exists|i: int|
            0 <= i < samples.len() && (#[trigger] samples[i]).mem == stats_of(samples).mem_max,
        stats_of(samples).gpu_max == num_of(ZERO) || exists|i: int|
            0 <= i < samples.len() && (#[trigger] samples[i]).gpu == stats_of(samples).gpu_max,
        stats_of(samples).net_max == num_of(ZERO) || exists|i: int|
            0 <= i < samples.len() && (#[trigger] samples[i]).net_bps == stats_of(samples).net_max,
    decreases samples.len(),
{
    if samples.len() > 0 {
        let rest = samples.drop_last();
        law_session_maxima_were_read(rest);
        assert(samples[samples.len() - 1] == samples.last());
        assert forall|i: int| 0 <= i < rest.len() implies #[trigger] rest[i] == samples[i] by {}
    }
}

/// The readings of the GPU in a row of samples, without those that stand for no data.
pub open spec fn gpu_readings(samples: Seq<Sample>) -> Seq<Num> {
    samples.filter(|s: Sample| num_of(ZERO).at_most(s.gpu)).map_values(|s: Sample| s.gpu)
}

/// Each sum of the session is that of all its readings, added up in their order; for
/// the GPU of those that have data.
pub proof fn law_session_sums(samples: Seq<Sample>)
    ensures
        stats_of(samples).cpu_sum == added_up(samples.map_values(|s: Sample| s.cpu)),
        stats_of(samples).mem_sum == added_up(samples.map_values(|s: Sample| s.mem)),
        stats_of(samples).net_sum == added_up(samples.map_values(|s: Sample| s.net_bps)),
        stats_of(samples).gpu_sum == added_up(gpu_readings(samples)),
    decreases samples.len(),
{
    reveal(Seq::filter);
    let cpu = samples.map_values(|s: Sample| s.cpu);
    let mem = samples.map_values(|s: Sample| s.mem);
    let net = samples.map_values(|s: Sample| s.net_bps);
    let gpu = gpu_readings(samples);
    lemma_added_up(cpu);
    lemma_added_up(mem);
    lemma_added_up(net);
    lemma_added_up(gpu);
    if samples.len() > 0 {
        let rest = samples.drop_last();
        law_session_sums(rest);
        assert(cpu.drop_last() == rest.map_values(|s: Sample| s.cpu));
        assert(mem.drop_last() == rest.map_values(|s: Sample| s.mem));
        assert(net.drop_last() == rest.map_values(|s: Sample| s.net_bps));
        if num_of(ZERO).at_most(samples.last().gpu) {
            assert(gpu.drop_last() == gpu_readings(rest));
        } else {
            assert(gpu == gpu_readings(rest));
        }
    }
}

/// The average of whole readings is the reading nearest to their sum over their
/// number, and zero where nothing was counted.
pub proof fn law_average_is_the_quotient(sum: nat, n: u64)
    requires
        sum < 0x20_0000_0000_0000,
        n < 0x20_0000_0000_0000,
    ensures
        n == 0 ==> average(of_whole(sum), n) == num_of(ZERO),
        n > 0 ==> average(of_whole(sum), n) == signed_pattern(
            false,
            crate::rounding::rounded(sum * unit(), n as int),
        ),
{
    if n > 0 {
        law_whole_quotient(sum, n as nat);
    }
}

proof fn lemma_steady_average(readings: Seq<Num>, v: nat)
    requires
        readings.len() > 0,
        readings.len() < 0x20_0000_0000_0000,
        forall|i: int| 0 <= i < readings.len() ==> #[trigger] readings[i] == of_whole(v),
        readings.len() * v < 0x20_0000_0000_0000,
        v < 0x20_0000_0000_0000,
    ensures
        average(added_up(readings), readings.len() as u64) == of_whole(v),
{
    let n = readings.len();
    law_whole_added_up(readings, v);
    assert(n * v == v * n) by (nonlinear_arith);
    law_whole_arithmetic(v, n);
}

/// Samples of one whole reading each have that reading as their average: of every
/// quantity, however many they are, as long as the sum stays below 2 to the power of
/// 53. Samples without data for the GPU leave its average alone.
pub proof fn law_steady_session(samples: Seq<Sample>, cpu: nat, mem: nat, gpu: nat, net: nat)
    requires
        0 < samples.len() < 0x20_0000_0000_0000,
        forall|i: int|
            0 <= i < samples.len() ==> (#[trigger] samples[i]).cpu == of_whole(cpu)
                && samples[i].mem == of_whole(mem) && samples[i].net_bps == of_whole(net) && (
            samples[i].gpu == of_whole(gpu) || !num_of(ZERO).at_most(samples[i].gpu)),
        cpu < 0x20_0000_0000_0000 && samples.len() * cpu < 0x20_0000_0000_0000,
        mem < 0x20_0000_0000_0000 && samples.len() * mem < 0x20_0000_0000_0000,
        gpu < 0x20_0000_0000_0000 && samples.len() * gpu < 0x20_0000_0000_0000,
        net < 0x20_0000_0000_0000 && samples.len() * net < 0x20_0000_0000_0000,
    ensures
        ({
            let s = stats_of(samples);
            &&& average(s.cpu_sum, s.samples) == of_whole(cpu)
            &&& average(s.mem_sum, s.samples) == of_whole(mem)
            &&& average(s.net_sum, s.samples) == of_whole(net)
            &&& average(s.gpu_sum, s.gpu_samples) == (if s.gpu_samples > 0 {
                of_whole(gpu)
            } else {
                num_of(ZERO)
            })
        }),
{
    lemma_session(samples);
    law_session_sums(samples);
    lemma_steady_average(samples.map_values(|s: Sample| s.cpu), cpu);
    lemma_steady_average(samples.map_values(|s: Sample| s.mem), mem);
    lemma_steady_average(samples.map_values(|s: Sample| s.net_bps), net);
    let with_gpu = samples.filter(|s: Sample| num_of(ZERO).at_most(s.gpu));
    let readings = gpu_readings(samples);
    assert forall|i: int| 0 <= i < readings.len() implies #[trigger] readings[i] == of_whole(gpu) by {
        samples.lemma_filter_contains_rev(|s: Sample| num_of(ZERO).at_most(s.gpu), with_gpu[i]);
    }
    if readings.len() > 0 {
        let (k, n) = (readings.len(), samples.len());
        assert(k * gpu <= n * gpu) by (nonlinear_arith)
            requires
                k <= n,
                gpu >= 0,
        ;
        lemma_steady_average(readings, gpu);
    }
}

// --- State of the program ----------------------------------------------------

/// How long the data of the graphics card count as fresh, in milliseconds.
pub const GPU_INFO_TTL: u64 = 600_000;

/// The data of the graphics card and when they were read, in milliseconds of a
/// clock that only runs forward. Before the first reading there is no time.
#[derive(Debug)]
pub struct GpuInfoCache {
    pub at: Option<u64>,
    pub info: GpuInfo,
}

impl GpuInfoCache {
    pub open spec fn stale_at(self, now: u64) -> bool {
        match self.at {
            Some(at) => now - at >= GPU_INFO_TTL,
            None => true,
        }
    }

    /// Whether the data have to be read again.
    pub fn stale(&self, now: u64) -> (r: bool)
        ensures
            r == self.stale_at(now),
    {
        match self.at {
            Some(at) => now >= at && now - at >= GPU_INFO_TTL,
            None => true,
        }
    }

    /// Puts newly read data in.
    pub fn store(&mut self, info: GpuInfo, now: u64)
        ensures
            final(self).info == info,
            final(self).at == Some(now),
    {
        self.info = info;
        self.at = Some(now);
    }
}

/// Data just stored stay fresh for ten minutes, and no longer.
pub proof fn law_gpu_info_lives_ten_minutes(cache: GpuInfoCache, stored: u64, now: u64)
    requires
        cache.at == Some(stored),
        stored <= now,
    ensures
        cache.stale_at(now) <==> now >= stored + 600_000,
{
}

/// GPU use without data, in tenths of a percent.
pub const NO_GPU: i32 = -10;

/// A disk rate without data.
pub const NO_DISK: i64 = -1;

/// What all parts of the program share.
pub struct AppState {
    pub snapshot: Snapshot,
    pub procs: Vec<ProcInfo>,
    /// GPU use in tenths of a percent; -10 without data.
    pub gpu_util: i32,
    pub temp: TempState,
    pub gpu_info: GpuInfoCache,
    pub pinned: bool,
    pub mode: Mode,
    /// Whether the window can be seen. What costs much pauses while it cannot.
    pub visible: bool,
    /// Disk transfer in tenths of a byte per second; -1 without data.
    pub disk_read: i64,
    pub disk_write: i64,
    pub session: SessionStats,
    pub settings: Settings,
}

pub open spec fn first_snapshot() -> SnapshotView {
    let (zero, none) = (num_of(ZERO), num_of(MINUS_ONE));
    SnapshotView {
        ok: true,
        cpu: zero,
        memory: MemoryInfo { percent: zero, used_gb: zero, total_gb: zero },
        iface: ""@,
        rx_bytes_sec: zero,
        tx_bytes_sec: zero,
        disk: DiskInfo { read_bytes_sec: none, write_bytes_sec: none },
        cpu_temp: none,
        temp_status: "none"@,
        gpu: none,
        error: None,
    }
}

impl AppState {
    /// Nothing has been measured yet.
    pub open spec fn unmeasured(self) -> bool {
        &&& self.snapshot@ == first_snapshot()
        &&& self.procs@.len() == 0
        &&& self.gpu_util == NO_GPU
        &&& self.temp.celsius == num_of(MINUS_ONE)
        &&& self.temp.status@ == "none"@
        &&& self.gpu_info.at is None
        &&& self.gpu_info.info@ == no_gpu_info()
        &&& self.disk_read == NO_DISK
        &&& self.disk_write == NO_DISK
        &&& self.session == no_stats()
    }
}

impl Default for AppState {
    /// The state at the start: nothing measured, the window visible and pinned.
    fn default() -> (r: AppState)
        ensures
            r.unmeasured(),
            r.pinned,
            r.mode == Mode::Dev,
            r.visible,
            r.settings@ == default_settings(),
    {
        let zero = num(ZERO);
        let none = num(MINUS_ONE);
        AppState {
            snapshot: Snapshot {
                ok: true,
                cpu: zero,
                memory: MemoryInfo { percent: zero, used_gb: zero, total_gb: zero },
                network: NetworkInfo {
                    iface: "".to_owned(),
                    rx_bytes_sec: zero,
                    tx_bytes_sec: zero,
                },
                disk: DiskInfo { read_bytes_sec: none, write_bytes_sec: none },
                cpu_temp: none,
                temp_status: "none".to_owned(),
                gpu: none,
                error: None,
            },
            procs: Vec::new(),
            gpu_util: NO_GPU,
            temp: TempState { celsius: none, status: "none".to_owned() },
            gpu_info: GpuInfoCache { at: None, info: GpuInfo::default() },
            pinned: true,
            mode: Mode::Dev,
            visible: true,
            disk_read: NO_DISK,
            disk_write: NO_DISK,
            session: SessionStats::default(),
            settings: Settings::default(),
        }
    }
}

// --- Helpers -----------------------------------------------------------------

/// One decimal place, halves away from zero.
pub fn round1(n: Num) -> (r: Num)
    ensures
        r == rounded_to(n, num_of(TEN)),
{
    n.times(num(TEN)).round().over(num(TEN))
}

/// Two decimal places, halves away from zero.
pub fn round2(n: Num) -> (r: Num)
    ensures
        r == rounded_to(n, num_of(HUNDRED)),
{
    n.times(num(HUNDRED)).round().over(num(HUNDRED))
}

pub open spec fn on_one_line(c: char) -> char {
    if c == '\0' || c == '\r' || c == '\n' {
        ' '
    } else {
        c
    }
}

/// A text with spaces in place of null characters and line ends, and without
/// blanks at its ends.
pub open spec fn sanitized(text: Seq<char>) -> Seq<char> {
    trimmed(text.map_values(|c: char| on_one_line(c)))
}

/// Puts a name on one line: null characters and line ends become spaces, blanks
/// at the ends go.
pub fn sanitize(s: &str) -> (r: String)
    ensures
        r@ == sanitized(s@),
{
    let chars = chars_of(s);
    let mut line: Vec<char> = Vec::new();
    let mut i: usize = 0;
    while i < chars.len()
        invariant
            i <= chars.len(),
            line@ == chars@.take(i as int).map_values(|c: char| on_one_line(c)),
        decreases chars.len() - i,
    {
        let c = chars[i];
        let ghost before = line@;
        if c == '\0' || c == '\r' || c == '\n' {
            line.push(' ');
        } else {
            line.push(c);
        }
        assert(chars@.take(i + 1) == chars@.take(i as int).push(c));
        assert(line@ == before.push(on_one_line(c)));
        assert(line@ == chars@.take(i + 1).map_values(|c: char| on_one_line(c)));
        i = i + 1;
    }
    assert(chars@.take(chars@.len() as int) == chars@);
    let kept = trim_chars(&line);
    assert(kept@.subrange(0, kept@.len() as int) == kept@);
    string_of(&kept, 0, kept.len())
}

proof fn lemma_trimmed_part(text: Seq<char>, i: int)
    requires
        0 <= i < trimmed(text).len(),
    ensures
        exists|j: int| 0 <= j < text.len() && #[trigger] text[j] == trimmed(text)[i],
    decreases text.len(),
{
    let start = crate::text::trim_start(text);
    if text.len() > 0 && crate::text::blank(text[0]) {
        lemma_trimmed_part(text.drop_first(), i);
        let j = choose|j: int|
            0 <= j < text.drop_first().len() && #[trigger] text.drop_first()[j] == trimmed(text)[i];
        assert(text[j + 1] == trimmed(text)[i]);
    } else {
        assert(start == text);
        lemma_trim_end_part(text, i);
    }
}

proof fn lemma_trim_end_part(text: Seq<char>, i: int)
    requires
        0 <= i < crate::text::trim_end(text).len(),
    ensures
        i < text.len(),
        text[i] == crate::text::trim_end(text)[i],
    decreases text.len(),
{
    if text.len() > 0 && crate::text::blank(text.last()) {
        lemma_trim_end_part(text.drop_last(), i);
    }
}

/// A name that has been put on one line stays as it is.
pub proof fn law_sanitized_stays(text: Seq<char>)
    ensures
        sanitized(sanitized(text)) == sanitized(text),
{
    let once = sanitized(text);
    assert forall|i: int| 0 <= i < once.len() implies on_one_line(#[trigger] once[i]) == once[i] by {
        law_sanitized_is_one_line(text, i);
    }
    assert(once.map_values(|c: char| on_one_line(c)) == once);
    lemma_trimmed_stays(text.map_values(|c: char| on_one_line(c)));
}

/// A sanitized name holds no null character and no line end.
pub proof fn law_sanitized_is_one_line(text: Seq<char>, i: int)
    requires
        0 <= i < sanitized(text).len(),
    ensures
        sanitized(text)[i] != '\0',
        sanitized(text)[i] != '\r',
        sanitized(text)[i] != '\n',
{
    let line = text.map_values(|c: char| on_one_line(c));
    lemma_trimmed_part(line, i);
}

/// A name keeps what stands between its ends: without null characters and line ends it
/// stays as it is, and each of these becomes one space.
pub proof fn law_sanitized_keeps_names(before: Seq<char>, name: Seq<char>, after: Seq<char>)
    requires
        crate::text::all_blank(before),
        crate::text::all_blank(after),
        forall|i: int| 0 <= i < before.len() ==> on_one_line(#[trigger] before[i]) == before[i],
        forall|i: int| 0 <= i < after.len() ==> on_one_line(#[trigger] after[i]) == after[i],
        name.len() > 0,
        !crate::text::blank(on_one_line(name[0])),
        !crate::text::blank(on_one_line(name.last())),
    ensures
        ({
            let kept = sanitized(before + name + after);
            &&& kept.len() == name.len()
            &&& forall|i: int|
                0 <= i < name.len() ==> #[trigger] kept[i] == (if name[i] == '\0' || name[i] == '\r'
                    || name[i] == '\n' {
                    ' '
                } else {
                    name[i]
                })
        }),
{
    let line = name.map_values(|c: char| on_one_line(c));
    let text = before + name + after;
    assert(text.map_values(|c: char| on_one_line(c)) =~= before + line + after);
    assert(line.last() == on_one_line(name.last()));
    crate::text::law_trimmed(before, line, after);
}

/// Before the first sample every reading that can be missing is missing: temperature, GPU
/// use and disk rates; the session has no samples and the list no processes.
pub proof fn law_nothing_is_measured_at_first(state: AppState)
    requires
        state.unmeasured(),
    ensures
        ({
            let (s, none, zero) = (state.snapshot@, num_of(MINUS_ONE), num_of(ZERO));
            &&& s.ok && s.error is None
            &&& s.cpu == zero && s.memory.percent == zero && s.rx_bytes_sec == zero
                && s.tx_bytes_sec == zero
            &&& s.cpu_temp == none && s.gpu == none && s.disk.read_bytes_sec == none
                && s.disk.write_bytes_sec == none
            &&& s.temp_status == "none"@
            &&& state.gpu_util == -10 && state.disk_read == -1 && state.disk_write == -1
            &&& state.temp.celsius == none
            &&& state.procs@.len() == 0
            &&& state.session == stats_of(Seq::empty())
            &&& forall|now: u64| #[trigger] state.gpu_info.stale_at(now)
            &&& !state.gpu_info.info@.ok
        }),
{
}

} // verus!
