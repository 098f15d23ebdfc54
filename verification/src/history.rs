//! The course of the readings over the last minute, and its charts. The charts are
//! measured in binary32.

use vstd::arithmetic::power2::{lemma2_to64, lemma2_to64_rest, lemma_pow2_adds, lemma_pow2_pos, lemma_pow2_unfold, pow2};
use vstd::prelude::*;
use crate::arith::{law_whole_arithmetic, lemma_integer_exact, lemma_named_wholes, lemma_whole_exact, lemma_whole_grows, lemma_whole_unique, of_integer, of_whole, unit, whole};
use crate::metrics::{Snapshot, SnapshotView};
use crate::num::{law_order_is_numeric, num, num_of, Num, HUNDRED, KIBI, MINUS_ONE, NAN, ONE, SIXTY_FOUR, TEN, ZERO};
use crate::single::{law_integer_single, lemma_short, lemma_single_grows, lemma_single_of_whole};

verus! {

/// How many readings a chart shows.
pub const MAX_POINTS: usize = 20;

pub const ONE_FIFTH_MORE: u64 = 0x3ff3_3333_3333_3333;

pub const HALF: u64 = 0x3fe0_0000_0000_0000;

pub const TWO: u64 = 0x4000_0000_0000_0000;

// --- History -----------------------------------------------------------------

/// The last readings, the oldest first. What was not measured is not a number.
pub struct History {
    pub cpu: Vec<Num>,
    pub temp: Vec<Num>,
    pub ram: Vec<Num>,
    pub gpu: Vec<Num>,
    pub net: Vec<Num>,
    pub disk_r: Vec<Num>,
    pub disk_w: Vec<Num>,
}

/// The contents of [`History`].
pub struct HistoryView {
    pub cpu: Seq<Num>,
    pub temp: Seq<Num>,
    pub ram: Seq<Num>,
    pub gpu: Seq<Num>,
    pub net: Seq<Num>,
    pub disk_r: Seq<Num>,
    pub disk_w: Seq<Num>,
}

impl View for History {
    type V = HistoryView;

    open spec fn view(&self) -> HistoryView {
        HistoryView {
            cpu: self.cpu@,
            temp: self.temp@,
            ram: self.ram@,
            gpu: self.gpu@,
            net: self.net@,
            disk_r: self.disk_r@,
            disk_w: self.disk_w@,
        }
    }
}

/// One reading of every series.
#[derive(Clone, Copy, Debug, PartialEq, Eq, Structural)]
pub struct Point {
    pub cpu: Num,
    pub temp: Num,
    pub ram: Num,
    pub gpu: Num,
    pub net: Num,
    pub disk_r: Num,
    pub disk_w: Num,
}

/// A series with one more reading; of more than twenty the oldest goes.
pub open spec fn capped(series: Seq<Num>, x: Num) -> Seq<Num> {
    if series.len() >= MAX_POINTS {
        series.push(x).skip(1)
    } else {
        series.push(x)
    }
}

fn push_cap(v: &mut Vec<Num>, x: Num)
    ensures
        final(v)@ == capped(old(v)@, x),
{
    v.push(x);
    if v.len() > MAX_POINTS {
        v.remove(0);
    }
    assert(v@ == capped(old(v)@, x));
}

impl HistoryView {
    pub open spec fn with(self, p: Point) -> HistoryView {
        HistoryView {
            cpu: capped(self.cpu, p.cpu),
            temp: capped(self.temp, p.temp),
            ram: capped(self.ram, p.ram),
            gpu: capped(self.gpu, p.gpu),
            net: capped(self.net, p.net),
            disk_r: capped(self.disk_r, p.disk_r),
            disk_w: capped(self.disk_w, p.disk_w),
        }
    }
}

/// The reading of every series that a snapshot gives. Rates are in KiB per second;
/// the stand-ins for no data become gaps.
pub open spec fn point_of(snap: SnapshotView) -> Point {
    let gap = num_of(NAN);
    let (zero, hundred, kibi) = (num_of(ZERO), num_of(HUNDRED), num_of(KIBI));
    Point {
        cpu: snap.cpu.held_within(zero, hundred),
        temp: if num_of(MINUS_ONE).below(snap.cpu_temp) {
            snap.cpu_temp
        } else {
            gap
        },
        ram: snap.memory.percent.held_within(zero, hundred),
        gpu: if num_of(MINUS_ONE).below(snap.gpu) {
            snap.gpu
        } else {
            gap
        },
        net: snap.rx_bytes_sec.sum(snap.tx_bytes_sec).quotient(kibi),
        disk_r: if zero.at_most(snap.disk.read_bytes_sec) {
            snap.disk.read_bytes_sec.quotient(kibi)
        } else {
            gap
        },
        disk_w: if zero.at_most(snap.disk.write_bytes_sec) {
            snap.disk.write_bytes_sec.quotient(kibi)
        } else {
            gap
        },
    }
}

fn rate_or_gap(bytes: Num) -> (r: Num)
    ensures
        r == (if num_of(ZERO).at_most(bytes) {
            bytes.quotient(num_of(KIBI))
        } else {
            num_of(NAN)
        }),
{
    if bytes.ge(num(ZERO)) {
        bytes.over(num(KIBI))
    } else {
        num(NAN)
    }
}

fn value_or_gap(v: Num) -> (r: Num)
    ensures
        r == (if num_of(MINUS_ONE).below(v) {
            v
        } else {
            num_of(NAN)
        }),
{
    if v.gt(num(MINUS_ONE)) {
        v
    } else {
        num(NAN)
    }
}

impl History {
    /// A history without readings.
    pub fn new() -> (r: History)
        ensures
            r@ == no_history(),
    {
        let r = History {
            cpu: Vec::new(),
            temp: Vec::new(),
            ram: Vec::new(),
            gpu: Vec::new(),
            net: Vec::new(),
            disk_r: Vec::new(),
            disk_w: Vec::new(),
        };
        assert(r.cpu@ == Seq::<Num>::empty());
        r
    }

    /// Puts a reading at the end of every series.
    pub fn push(&mut self, p: Point)
        ensures
            final(self)@ == old(self)@.with(p),
    {
        push_cap(&mut self.cpu, p.cpu);
        push_cap(&mut self.temp, p.temp);
        push_cap(&mut self.ram, p.ram);
        push_cap(&mut self.gpu, p.gpu);
        push_cap(&mut self.net, p.net);
        push_cap(&mut self.disk_r, p.disk_r);
        push_cap(&mut self.disk_w, p.disk_w);
    }

    /// Puts the readings of a snapshot at the end of the series.
    pub fn push_metrics(&mut self, snap: &Snapshot)
        ensures
            final(self)@ == old(self)@.with(point_of(snap@)),
    {
        let p = Point {
            cpu: snap.cpu.clamp(num(ZERO), num(HUNDRED)),
            temp: value_or_gap(snap.cpu_temp),
            ram: snap.memory.percent.clamp(num(ZERO), num(HUNDRED)),
            gpu: value_or_gap(snap.gpu),
            net: snap.network.rx_bytes_sec.plus(snap.network.tx_bytes_sec).over(num(KIBI)),
            disk_r: rate_or_gap(snap.disk.read_bytes_sec),
            disk_w: rate_or_gap(snap.disk.write_bytes_sec),
        };
        self.push(p);
    }
}

pub open spec fn no_history() -> HistoryView {
    let none = Seq::<Num>::empty();
    HistoryView {
        cpu: none,
        temp: none,
        ram: none,
        gpu: none,
        net: none,
        disk_r: none,
        disk_w: none,
    }
}

/// A series after a row of readings.
pub open spec fn series_of(readings: Seq<Num>) -> Seq<Num>
    decreases readings.len(),
{
    if readings.len() == 0 {
        Seq::empty()
    } else {
        capped(series_of(readings.drop_last()), readings.last())
    }
}

/// A series holds the last twenty readings, or all where there are fewer.
pub proof fn law_series_holds_the_last_readings(readings: Seq<Num>)
    ensures
        series_of(readings) == (if readings.len() <= 20 {
            readings
        } else {
            readings.skip(readings.len() - 20)
        }),
    decreases readings.len(),
{
    if readings.len() > 0 {
        let before = readings.drop_last();
        law_series_holds_the_last_readings(before);
        assert(before.push(readings.last()) == readings);
        assert(series_of(readings) == (if readings.len() <= 20 {
            readings
        } else {
            readings.skip(readings.len() - 20)
        }));
    }
}

/// The stand-ins for no data never reach a chart as numbers.
pub proof fn law_no_data_is_a_gap(snap: SnapshotView)
    ensures
        snap.cpu_temp == num_of(MINUS_ONE) ==> point_of(snap).temp.nan(),
        snap.gpu == num_of(MINUS_ONE) ==> point_of(snap).gpu.nan(),
        snap.disk.read_bytes_sec == num_of(MINUS_ONE) ==> point_of(snap).disk_r.nan(),
        snap.disk.write_bytes_sec == num_of(MINUS_ONE) ==> point_of(snap).disk_w.nan(),
{
}

// --- Scales ------------------------------------------------------------------

/// The largest reading of a series, and at least `floor`.
pub open spec fn peak_of(series: Seq<Num>, floor: Num) -> Num
    decreases series.len(),
{
    if series.len() == 0 {
        floor
    } else {
        peak_of(series.drop_last(), floor).larger(series.last())
    }
}

/// The largest reading from zero up, and at least `floor`.
pub open spec fn peak_from_zero(series: Seq<Num>, floor: Num) -> Num
    decreases series.len(),
{
    if series.len() == 0 {
        floor
    } else {
        let before = peak_from_zero(series.drop_last(), floor);
        if num_of(ZERO).at_most(series.last()) {
            before.larger(series.last())
        } else {
            before
        }
    }
}

fn peak(series: &Vec<Num>, floor: Num) -> (r: Num)
    ensures
        r == peak_of(series@, floor),
{
    let mut top = floor;
    let mut i: usize = 0;
    assert(series@.take(0) == Seq::<Num>::empty());
    while i < series.len()
        invariant
            i <= series.len(),
            top == peak_of(series@.take(i as int), floor),
        decreases series.len() - i,
    {
        assert(series@.take(i + 1).drop_last() == series@.take(i as int));
        top = top.max(series[i]);
        i = i + 1;
    }
    assert(series@.take(i as int) == series@);
    top
}

fn peak_up(series: &Vec<Num>, floor: Num) -> (r: Num)
    ensures
        r == peak_from_zero(series@, floor),
{
    let mut top = floor;
    let mut i: usize = 0;
    assert(series@.take(0) == Seq::<Num>::empty());
    while i < series.len()
        invariant
            i <= series.len(),
            top == peak_from_zero(series@.take(i as int), floor),
        decreases series.len() - i,
    {
        assert(series@.take(i + 1).drop_last() == series@.take(i as int));
        if series[i].ge(num(ZERO)) {
            top = top.max(series[i]);
        }
        i = i + 1;
    }
    assert(series@.take(i as int) == series@);
    top
}

pub open spec fn gpu_scale(gpu: Seq<Num>) -> Num {
    peak_from_zero(gpu, num_of(TEN)).product(num_of(ONE_FIFTH_MORE)).single().larger(num_of(TEN))
}

/// The upper end of the GPU chart: a fifth above the largest reading, at least 10.
pub fn gpu_peak(hist: &History) -> (r: Num)
    ensures
        r == gpu_scale(hist@.gpu),
{
    peak_up(&hist.gpu, num(TEN)).times(num(ONE_FIFTH_MORE)).to_single().max(num(TEN))
}

pub open spec fn net_scale(net: Seq<Num>) -> Num {
    peak_of(net, num_of(SIXTY_FOUR)).single()
}

/// The upper end of the network chart: the largest reading, at least 64.
pub fn net_peak(hist: &History) -> (r: Num)
    ensures
        r == net_scale(hist@.net),
{
    peak(&hist.net, num(SIXTY_FOUR)).to_single()
}

pub open spec fn disk_scale(read: Seq<Num>, write: Seq<Num>) -> Num {
    peak_from_zero(write, peak_from_zero(read, num_of(SIXTY_FOUR))).single()
}

/// The upper end of the disk chart: the largest reading of both series, at least
/// 64.
pub fn disk_peak(hist: &History) -> (r: Num)
    ensures
        r == disk_scale(hist@.disk_r, hist@.disk_w),
{
    peak_up(&hist.disk_w, peak_up(&hist.disk_r, num(SIXTY_FOUR))).to_single()
}

proof fn lemma_peaks(series: Seq<Num>, floor: Num, i: int)
    requires
        !floor.nan(),
        0 <= i < series.len(),
    ensures
        !peak_of(series, floor).nan(),
        !peak_from_zero(series, floor).nan(),
        floor.at_most(peak_of(series, floor)),
        floor.at_most(peak_from_zero(series, floor)),
        !peak_of(series, floor).below(series[i]),
        num_of(ZERO).at_most(series[i]) ==> series[i].at_most(peak_from_zero(series, floor)),
    decreases series.len(),
{
    let before = series.drop_last();
    if before.len() > 0 {
        lemma_peaks(before, floor, if i < before.len() {
            i
        } else {
            0
        });
        if i < before.len() {
            assert(before[i] == series[i]);
        }
    } else {
        assert(peak_of(before, floor) == floor);
        assert(peak_from_zero(before, floor) == floor);
    }
}

/// No reading, as the charts draw it, lies above the scale of the network and disk
/// charts.
pub proof fn law_scales_hold_all_readings(hist: HistoryView, i: int)
    ensures
        0 <= i < hist.net.len() ==> !net_scale(hist.net).below(hist.net[i].single()),
        0 <= i < hist.disk_r.len() && num_of(ZERO).at_most(hist.disk_r[i])
            ==> hist.disk_r[i].single().at_most(disk_scale(hist.disk_r, hist.disk_w)),
        0 <= i < hist.disk_w.len() && num_of(ZERO).at_most(hist.disk_w[i])
            ==> hist.disk_w[i].single().at_most(disk_scale(hist.disk_r, hist.disk_w)),
{
    let floor = num_of(SIXTY_FOUR);
    if 0 <= i < hist.net.len() {
        lemma_peaks(hist.net, floor, i);
        if !hist.net[i].nan() {
            lemma_single_grows(hist.net[i], peak_of(hist.net, floor));
        }
    }
    let first = peak_from_zero(hist.disk_r, floor);
    if hist.disk_r.len() > 0 {
        lemma_peaks(hist.disk_r, floor, if 0 <= i < hist.disk_r.len() {
            i
        } else {
            0
        });
    }
    if hist.disk_w.len() > 0 {
        lemma_peaks(hist.disk_w, first, if 0 <= i < hist.disk_w.len() {
            i
        } else {
            0
        });
    }
    let top = peak_from_zero(hist.disk_w, first);
    if 0 <= i < hist.disk_r.len() && num_of(ZERO).at_most(hist.disk_r[i]) {
        lemma_single_grows(hist.disk_r[i], top);
    }
    if 0 <= i < hist.disk_w.len() && num_of(ZERO).at_most(hist.disk_w[i]) {
        lemma_single_grows(hist.disk_w[i], top);
    }
}

// --- Lines -------------------------------------------------------------------

/// The place of a chart on the screen.
#[derive(Clone, Copy, Debug, PartialEq, Eq, Structural)]
pub struct Frame {
    pub l: Num,
    pub t: Num,
    pub r: Num,
    pub b: Num,
}

/// A piece of the line of a chart.
#[derive(Clone, Copy, Debug, PartialEq, Eq, Structural)]
pub struct Segment {
    pub x1: Num,
    pub y1: Num,
    pub x2: Num,
    pub y2: Num,
}

impl Frame {
    /// Where the reading at an index lies from left to right: in the middle of its
    /// twentieth.
    #[verifier::opaque]
    pub open spec fn across(self, i: nat) -> Num {
        self.l.sum32(
            of_whole(i).single().sum32(num_of(HALF)).product32(
                self.r.difference32(self.l),
            ).quotient32(of_whole(MAX_POINTS as nat)),
        )
    }

    /// Where a reading lies from top to bottom, on a scale up to `top`.
    #[verifier::opaque]
    pub open spec fn up(self, v: Num, top: Num) -> Num {
        let height = self.b.difference32(self.t).difference32(num_of(TWO));
        let part = v.single().quotient32(top).held_within(num_of(ZERO), num_of(ONE));
        self.b.difference32(part.product32(height)).difference32(num_of(ONE))
    }

    pub open spec fn segment(self, data: Seq<Num>, i: int, top: Num) -> Segment {
        Segment {
            x1: self.across((i - 1) as nat),
            y1: self.up(data[i - 1], top),
            x2: self.across(i as nat),
            y2: self.up(data[i], top),
        }
    }
}

/// The line through the first `n` readings: a piece between each two neighbours
/// that were both measured.
pub open spec fn line_through(area: Frame, data: Seq<Num>, n: nat, top: Num) -> Seq<Segment>
    decreases n,
{
    if n < 2 {
        Seq::empty()
    } else {
        let before = line_through(area, data, (n - 1) as nat, top);
        if data[n - 2].finite() && data[n - 1].finite() {
            before.push(area.segment(data, n - 1, top))
        } else {
            before
        }
    }
}

fn across_of(area: &Frame, i: usize) -> (r: Num)
    ensures
        r == area.across(i as nat),
{
    proof {
        reveal(Frame::across);
    }
    let step = whole(i as u64).to_single().plus32(num(HALF)).times32(area.r.minus32(area.l));
    area.l.plus32(step.over32(whole(MAX_POINTS as u64)))
}

fn up_of(area: &Frame, v: Num, top: Num) -> (r: Num)
    ensures
        r == area.up(v, top),
{
    proof {
        reveal(Frame::up);
    }
    let height = area.b.minus32(area.t).minus32(num(TWO));
    let part = v.to_single().over32(top).clamp(num(ZERO), num(ONE));
    area.b.minus32(part.times32(height)).minus32(num(ONE))
}

/// The line of a chart. A reading that was not measured breaks it.
pub fn chart(area: &Frame, data: &Vec<Num>, top: Num) -> (r: Vec<Segment>)
    ensures
        r@ == line_through(*area, data@, data@.len(), top),
{
    let mut out: Vec<Segment> = Vec::new();
    let mut i: usize = 1;
    if data.len() == 0 {
        return out;
    }
    while i < data.len()
        invariant
            1 <= i <= data.len(),
            out@ == line_through(*area, data@, i as nat, top),
        decreases data.len() - i,
    {
        if data[i - 1].is_finite() && data[i].is_finite() {
            out.push(
                Segment {
                    x1: across_of(area, i - 1),
                    y1: up_of(area, data[i - 1], top),
                    x2: across_of(area, i),
                    y2: up_of(area, data[i], top),
                },
            );
        }
        i = i + 1;
    }
    out
}

/// How many of the first `n` readings were measured together with the one before.
pub open spec fn measured_pairs(data: Seq<Num>, n: nat) -> nat
    decreases n,
{
    if n < 2 {
        0
    } else {
        measured_pairs(data, (n - 1) as nat) + if data[n - 2].finite() && data[n - 1].finite() {
            1nat
        } else {
            0nat
        }
    }
}

/// The line of a chart has a piece for every two neighbours that were both
/// measured, and no other: a reading that was not measured leaves a gap on both
/// sides.
pub proof fn law_gaps_stay_open(area: Frame, data: Seq<Num>, n: nat, top: Num)
    requires
        n <= data.len(),
    ensures
        line_through(area, data, n, top).len() == measured_pairs(data, n),
        forall|k: int|
            0 <= k < line_through(area, data, n, top).len() ==> exists|i: int|
                1 <= i < n && data[i - 1].finite() && data[i].finite() && (
                #[trigger] line_through(area, data, n, top)[k]) == #[trigger] area.segment(
                    data,
                    i,
                    top,
                ),
    decreases n,
{
    if n >= 2 {
        let before = line_through(area, data, (n - 1) as nat, top);
        let line = line_through(area, data, n, top);
        law_gaps_stay_open(area, data, (n - 1) as nat, top);
        assert forall|k: int| 0 <= k < line.len() implies exists|i: int|
            1 <= i < n && data[i - 1].finite() && data[i].finite() && (#[trigger] line[k])
                == #[trigger] area.segment(data, i, top) by {
            if k < before.len() {
                assert(line[k] == before[k]);
                let i = choose|i: int|
                    1 <= i < n - 1 && data[i - 1].finite() && data[i].finite() && before[k]
                        == #[trigger] area.segment(data, i, top);
                assert(line[k] == area.segment(data, i, top));
            } else {
                assert(line[k] == area.segment(data, n - 1, top));
            }
        }
    }
}

/// The part of a bar of the given width that is filled, where it is wide enough to
/// be seen.
pub open spec fn bar_fill_of(width: Num, percent: Num) -> Option<Num> {
    let filled = width.product32(
        percent.single().held_within(num_of(ZERO), num_of(HUNDRED)),
    ).quotient32(num_of(HUNDRED));
    if num_of(HALF).below(filled) {
        Some(filled)
    } else {
        None
    }
}

/// The width of the filled part of a bar: none up to half a pixel.
pub fn bar_fill(width: Num, percent: Num) -> (r: Option<Num>)
    ensures
        r == bar_fill_of(width, percent),
{
    let filled = width.times32(percent.to_single().clamp(num(ZERO), num(HUNDRED))).over32(
        num(HUNDRED),
    );
    if filled.gt(num(HALF)) {
        Some(filled)
    } else {
        None
    }
}

/// What a snapshot puts into the charts: CPU and memory in percent, the temperature and
/// GPU use as they are, what is received and transmitted together, what is read and what
/// is written, all rates in units of 1024 bytes per second.
pub proof fn law_points_show_the_snapshot(snap: SnapshotView, n: nat, rx: nat, tx: nat)
    requires
        n < 0x100_0000_0000,
        rx < 0x1_0000_0000_0000,
        tx < 0x1_0000_0000_0000,
    ensures
        ({
            let p = point_of(snap);
            let (zero, hundred) = (num_of(ZERO), num_of(HUNDRED));
            &&& zero.at_most(snap.cpu) && snap.cpu.at_most(hundred) ==> p.cpu == snap.cpu
            &&& zero.at_most(snap.memory.percent) && snap.memory.percent.at_most(hundred) ==> p.ram
                == snap.memory.percent
            &&& zero.at_most(snap.cpu_temp) ==> p.temp == snap.cpu_temp
            &&& zero.at_most(snap.gpu) ==> p.gpu == snap.gpu
            &&& snap.disk.read_bytes_sec == of_whole(n * 1024) ==> p.disk_r == of_whole(n)
            &&& snap.disk.write_bytes_sec == of_whole(n * 1024) ==> p.disk_w == of_whole(n)
            &&& snap.rx_bytes_sec == of_whole(rx) && snap.tx_bytes_sec == of_whole(tx) && rx + tx
                == n * 1024 ==> p.net == of_whole(n)
        }),
{
    lemma_named_wholes();
    law_whole_arithmetic(n, 1024);
    law_whole_arithmetic(rx, tx);
    lemma_whole_exact(n * 1024);
}

/// A history after a row of points.
pub open spec fn history_of(points: Seq<Point>) -> HistoryView
    decreases points.len(),
{
    if points.len() == 0 {
        no_history()
    } else {
        history_of(points.drop_last()).with(points.last())
    }
}

spec fn last_twenty(readings: Seq<Num>) -> Seq<Num> {
    if readings.len() <= 20 {
        readings
    } else {
        readings.skip(readings.len() - 20)
    }
}

proof fn lemma_capped(readings: Seq<Num>, x: Num)
    ensures
        capped(last_twenty(readings), x) == last_twenty(readings.push(x)),
{
    assert(capped(last_twenty(readings), x) =~= last_twenty(readings.push(x)));
}

/// Every series holds the last twenty of its own readings, or all where there are fewer.
pub proof fn law_history_holds_the_last_points(points: Seq<Point>, i: int)
    requires
        0 <= i < points.len(),
        points.len() - i <= 20,
    ensures
        ({
            let hist = history_of(points);
            let n = if points.len() <= 20 {
                points.len() as int
            } else {
                20
            };
            let at = i - (points.len() - n);
            &&& hist.cpu.len() == n && hist.temp.len() == n && hist.ram.len() == n && hist.gpu.len()
                == n && hist.net.len() == n && hist.disk_r.len() == n && hist.disk_w.len() == n
            &&& hist.cpu[at] == points[i].cpu
            &&& hist.temp[at] == points[i].temp
            &&& hist.ram[at] == points[i].ram
            &&& hist.gpu[at] == points[i].gpu
            &&& hist.net[at] == points[i].net
            &&& hist.disk_r[at] == points[i].disk_r
            &&& hist.disk_w[at] == points[i].disk_w
        }),
{
    lemma_history(points);
}

proof fn lemma_history(points: Seq<Point>)
    ensures
        ({
            let hist = history_of(points);
            &&& hist.cpu == last_twenty(points.map_values(|p: Point| p.cpu))
            &&& hist.temp == last_twenty(points.map_values(|p: Point| p.temp))
            &&& hist.ram == last_twenty(points.map_values(|p: Point| p.ram))
            &&& hist.gpu == last_twenty(points.map_values(|p: Point| p.gpu))
            &&& hist.net == last_twenty(points.map_values(|p: Point| p.net))
            &&& hist.disk_r == last_twenty(points.map_values(|p: Point| p.disk_r))
            &&& hist.disk_w == last_twenty(points.map_values(|p: Point| p.disk_w))
        }),
    decreases points.len(),
{
    let cpu = points.map_values(|p: Point| p.cpu);
    let temp = points.map_values(|p: Point| p.temp);
    let ram = points.map_values(|p: Point| p.ram);
    let gpu = points.map_values(|p: Point| p.gpu);
    let net = points.map_values(|p: Point| p.net);
    let disk_r = points.map_values(|p: Point| p.disk_r);
    let disk_w = points.map_values(|p: Point| p.disk_w);
    if points.len() == 0 {
        let none = Seq::<Num>::empty();
        assert(cpu == none && temp == none && ram == none && gpu == none && net == none && disk_r
            == none && disk_w == none);
    } else {
        let rest = points.drop_last();
        let p = points.last();
        lemma_history(rest);
        lemma_capped(rest.map_values(|p: Point| p.cpu), p.cpu);
        lemma_capped(rest.map_values(|p: Point| p.temp), p.temp);
        lemma_capped(rest.map_values(|p: Point| p.ram), p.ram);
        lemma_capped(rest.map_values(|p: Point| p.gpu), p.gpu);
        lemma_capped(rest.map_values(|p: Point| p.net), p.net);
        lemma_capped(rest.map_values(|p: Point| p.disk_r), p.disk_r);
        lemma_capped(rest.map_values(|p: Point| p.disk_w), p.disk_w);
        assert(rest.map_values(|p: Point| p.cpu).push(p.cpu) == cpu);
        assert(rest.map_values(|p: Point| p.temp).push(p.temp) == temp);
        assert(rest.map_values(|p: Point| p.ram).push(p.ram) == ram);
        assert(rest.map_values(|p: Point| p.gpu).push(p.gpu) == gpu);
        assert(rest.map_values(|p: Point| p.net).push(p.net) == net);
        assert(rest.map_values(|p: Point| p.disk_r).push(p.disk_r) == disk_r);
        assert(rest.map_values(|p: Point| p.disk_w).push(p.disk_w) == disk_w);
    }
}

proof fn lemma_peaks_were_read(series: Seq<Num>, floor: Num)
    ensures
        peak_of(series, floor) == floor || series.contains(peak_of(series, floor)),
        peak_from_zero(series, floor) == floor || series.contains(peak_from_zero(series, floor)),
    decreases series.len(),
{
    if series.len() > 0 {
        let rest = series.drop_last();
        lemma_peaks_were_read(rest, floor);
        assert forall|x: Num| rest.contains(x) implies series.contains(x) by {
            let i = rest.index_of(x);
            assert(series[i] == x);
        }
        assert(series[series.len() - 1] == series.last());
    }
}

/// The upper end of the network and disk charts is the largest reading that they show,
/// as it is drawn, or 64 where none is larger.
pub proof fn law_scales_are_readings(hist: HistoryView)
    ensures
        net_scale(hist.net) == of_whole(64) || exists|x: Num| #[trigger]
            hist.net.contains(x) && net_scale(hist.net) == x.single(),
        disk_scale(hist.disk_r, hist.disk_w) == of_whole(64) || (exists|x: Num| #[trigger]
            hist.disk_r.contains(x) && disk_scale(hist.disk_r, hist.disk_w) == x.single()) || (
        exists|x: Num| #[trigger]
            hist.disk_w.contains(x) && disk_scale(hist.disk_r, hist.disk_w) == x.single()),
        of_whole(64).at_most(net_scale(hist.net)),
        of_whole(64).at_most(disk_scale(hist.disk_r, hist.disk_w)),
{
    let floor = num_of(SIXTY_FOUR);
    crate::num::lemma_named_patterns();
    lemma_whole_unique(floor, 64);
    reveal(crate::single::single_pattern);
    assert(floor.single() == floor);
    lemma_peaks_were_read(hist.net, floor);
    lemma_peaks_were_read(hist.disk_r, floor);
    let first = peak_from_zero(hist.disk_r, floor);
    lemma_peaks_were_read(hist.disk_w, first);
    if hist.net.len() > 0 {
        lemma_peaks(hist.net, floor, 0);
    }
    if hist.disk_r.len() > 0 {
        lemma_peaks(hist.disk_r, floor, 0);
    }
    if hist.disk_w.len() > 0 {
        lemma_peaks(hist.disk_w, first, 0);
    }
    lemma_single_grows(floor, peak_of(hist.net, floor));
    lemma_single_grows(floor, peak_from_zero(hist.disk_w, first));
    if first != floor && peak_from_zero(hist.disk_w, first) == first {
        assert(hist.disk_r.contains(first));
    }
}

/// The line of a chart has its pieces in their order: two neighbours that were both
/// measured are joined by the piece that comes after those of all earlier neighbours.
pub proof fn law_lines_join_neighbours(area: Frame, data: Seq<Num>, i: int, top: Num)
    requires
        1 <= i < data.len(),
        data[i - 1].finite(),
        data[i].finite(),
    ensures
        ({
            let line = line_through(area, data, data.len(), top);
            let at = measured_pairs(data, i as nat) as int;
            &&& 0 <= at < line.len()
            &&& line[at].x1 == area.across((i - 1) as nat)
            &&& line[at].y1 == area.up(data[i - 1], top)
            &&& line[at].x2 == area.across(i as nat)
            &&& line[at].y2 == area.up(data[i], top)
        }),
{
    lemma_line_at(area, data, i, data.len(), top);
}

proof fn lemma_line_at(area: Frame, data: Seq<Num>, i: int, n: nat, top: Num)
    requires
        1 <= i < n <= data.len(),
        data[i - 1].finite(),
        data[i].finite(),
    ensures
        measured_pairs(data, i as nat) < line_through(area, data, n, top).len(),
        line_through(area, data, n, top)[measured_pairs(data, i as nat) as int] == area.segment(
            data,
            i,
            top,
        ),
    decreases n,
{
    law_gaps_stay_open(area, data, i as nat, top);
    if n > i + 1 {
        lemma_line_at(area, data, i, (n - 1) as nat, top);
    }
}

/// A bar is filled in the proportion of its percentage, as far as that is exact: a
/// width of `n` hundred pixels is filled by `n` pixels for every percent. Half a pixel
/// or less is not seen.
pub proof fn law_bars_are_filled(n: nat, percent: nat)
    requires
        0 < n < 100,
        percent <= 200,
    ensures
        bar_fill_of(of_whole(100 * n), of_whole(percent)) == (if percent == 0 {
            None
        } else if percent > 100 {
            Some(of_whole(100 * n))
        } else {
            Some(of_whole(n * percent))
        }),
{
    let held = if percent > 100 {
        100nat
    } else {
        percent
    };
    lemma_named_wholes();
    lemma_single_of_whole(percent);
    law_whole_arithmetic(percent, 100);
    law_whole_arithmetic(100, percent);
    lemma_whole_exact(percent);
    lemma_whole_exact(held);
    assert((100 * n) * held == (n * held) * 100 && n * held <= 100 * 100) by (nonlinear_arith)
        requires
            n < 100,
            held <= 100,
    ;
    law_whole_arithmetic(100 * n, held);
    lemma_single_of_whole((100 * n) * held);
    law_whole_arithmetic(n * held, 100);
    lemma_single_of_whole(n * held);
    if percent > 0 {
        assert(n * held >= 1) by (nonlinear_arith)
            requires
                n >= 1,
                held >= 1,
        ;
        lemma_whole_grows(1, (n * held) as u64);
    }
}

proof fn lemma_half()
    ensures
        num_of(HALF).from_zero(),
        num_of(HALF).size() == pow2(1073),
        unit() == 2 * pow2(1073),
        num_of(TWO) == of_integer(2),
        num_of(ONE) == of_integer(1),
        num_of(ZERO) == of_integer(0),
        pow2(1073) > 0,
{
    lemma2_to64();
    lemma2_to64_rest();
    lemma_pow2_pos(1073);
    lemma_pow2_pos(1074);
    lemma_pow2_adds(52, 1021);
    lemma_pow2_adds(52, 1023);
    lemma_pow2_unfold(1074);
    lemma_pow2_unfold(1075);
    assert(HALF as int / 0x10_0000_0000_0000 == 1022 && HALF as int % 0x10_0000_0000_0000 == 0);
    assert(TWO as int / 0x10_0000_0000_0000 == 1024 && TWO as int % 0x10_0000_0000_0000 == 0);
    lemma_whole_unique(num_of(TWO), 2);
    lemma_named_wholes();
}

/// A reading lies in the middle of its twentieth of the width: where the width is forty
/// times `m`, as many `m` from the left edge as twice its index and one.
pub proof fn law_readings_stand_across(area: Frame, l: int, m: int, i: nat)
    requires
        0 <= l <= 0x1_0000,
        0 < m <= 0x400,
        i < 20,
        area.l == of_integer(l),
        area.r == of_integer(l + 40 * m),
    ensures
        area.across(i) == of_integer(l + (2 * i + 1) * m),
{
    reveal(Frame::across);
    let (u, h) = (unit(), pow2(1073) as int);
    lemma_half();
    lemma_named_wholes();
    lemma_whole_exact(i);
    lemma_single_of_whole(i);
    law_integer_single(l + 40 * m, l);
    let w = 40 * m;
    assert(area.r.difference32(area.l) == of_integer(w));
    let x = of_whole(i);
    let n = (2 * i + 1) as nat;
    let sum = x.sum(num_of(HALF));
    assert(x.value() + num_of(HALF).value() == n * h) by (nonlinear_arith)
        requires
            x.value() == i * u,
            num_of(HALF).value() == h,
            u == 2 * h,
            n == 2 * i + 1,
    ;
    assert(n * h > 0) by (nonlinear_arith)
        requires
            n > 0,
            h > 0,
    ;
    let pattern = crate::rounding::lemma_has_pattern(n as int, 1073);
    crate::arith::lemma_exact(pattern, 1);
    assert(sum == num_of(pattern as u64));
    assert(sum.from_zero() && sum.size() == n * h);
    lemma_short(sum, n, 1073);
    let product = (n * (20 * m)) as nat;
    assert(n * (20 * m) <= 39 * 20 * 0x400 && n * (20 * m) > 0) by (nonlinear_arith)
        requires
            0 < n <= 39,
            0 < m <= 0x400,
    ;
    lemma_whole_exact(w as nat);
    lemma_whole_exact(product);
    assert((n * h) * (w * u) == (product * u) * u) by (nonlinear_arith)
        requires
            w == 40 * m,
            product == n * (20 * m),
            u == 2 * h,
    ;
    crate::arith::lemma_exact_scaling(sum, of_whole(w as nat), of_whole(product));
    lemma_single_of_whole(product);
    assert(product == (n * m) * 20) by (nonlinear_arith)
        requires
            product == n * (20 * m),
    ;
    assert(n * m <= 39 * 0x400) by (nonlinear_arith)
        requires
            0 < n <= 39,
            0 < m <= 0x400,
    ;
    law_integer_single(n * m, 20);
    law_integer_single(l, n * m);
}

/// A reading lies as high as it is large: on a chart whose inner height, between one pixel
/// at each end, is sixteen times `m`, a reading of `j` sixteenths of the scale lies `j`
/// times `m` above the lower end. What lies above the scale is drawn at its upper end,
/// what lies below zero at its lower end.
pub proof fn law_readings_stand_up(area: Frame, b: int, m: int, scale: int, v: int, j: int)
    requires
        0 <= b <= 0x1_0000,
        0 < m <= 0x400,
        0 < scale <= 0x1_0000,
        -0x8_0000 <= v <= 0x8_0000,
        v * 16 == j * scale,
        area.b == of_integer(b),
        area.t == of_integer(b - 16 * m - 2),
    ensures
        area.up(of_integer(v), of_integer(scale)) == of_integer(
            b - 1 - m * (if j < 0 {
                0
            } else if j > 16 {
                16
            } else {
                j
            }),
        ),
{
    reveal(Frame::up);
    lemma_half();
    law_integer_single(b, b - 16 * m - 2);
    law_integer_single(16 * m + 2, 2);
    law_integer_single(v, 1);
    law_integer_single(b, 0);
    let held = if j < 0 {
        0
    } else if j > 16 {
        16
    } else {
        j
    };
    let part = of_integer(v).quotient32(of_integer(scale));
    let (zero, one) = (num_of(ZERO), num_of(ONE));
    lemma_part(v, scale, j);
    let shown = part.held_within(zero, one);
    let height = of_integer(16 * m);
    assert(shown.from_zero() && shown.size() == held * pow2(1070));
    assert(0 <= m * held <= 0x4000) by (nonlinear_arith)
        requires
            0 <= held <= 16,
            0 < m <= 0x400,
    ;
    let (u, g) = (unit(), pow2(1070) as int);
    lemma2_to64();
    lemma_pow2_adds(4, 1070);
    lemma_pow2_pos(1070);
    lemma_whole_exact((16 * m) as nat);
    lemma_whole_exact((m * held) as nat);
    assert((held * g) * ((16 * m) * u) == ((m * held) * u) * u) by (nonlinear_arith)
        requires
            u == 16 * g,
    ;
    crate::arith::lemma_exact_scaling(shown, height, of_whole((m * held) as nat));
    lemma_single_of_whole((m * held) as nat);
    law_integer_single(b, m * held);
    law_integer_single(b - m * held, 1);
}

proof fn lemma_part(v: int, scale: int, j: int)
    requires
        0 < scale <= 0x1_0000,
        -0x8_0000 <= v <= 0x8_0000,
        v * 16 == j * scale,
    ensures
        ({
            let part = of_integer(v).quotient32(of_integer(scale));
            let held = if j < 0 {
                0
            } else if j > 16 {
                16
            } else {
                j
            };
            let shown = part.held_within(num_of(ZERO), num_of(ONE));
            shown.from_zero() && shown.size() == held * pow2(1070)
        }),
{
    let (u, g) = (unit(), pow2(1070) as int);
    let (a, c) = (of_integer(v), of_integer(scale));
    lemma_half();
    lemma2_to64();
    lemma_pow2_adds(4, 1070);
    lemma_pow2_pos(1070);
    lemma_integer_exact(v);
    lemma_integer_exact(scale);
    crate::num::lemma_named_patterns();
    let n = if j < 0 {
        (-j) as nat
    } else {
        j as nat
    };
    let size = if v < 0 {
        -v
    } else {
        v
    };
    assert(size * 16 == n * scale && (v < 0 <==> j < 0)) by (nonlinear_arith)
        requires
            v * 16 == j * scale,
            scale > 0,
            n == if j < 0 {
                -j
            } else {
                j
            },
            size == if v < 0 {
                -v
            } else {
                v
            },
    ;
    assert(n < 0x100_0000) by (nonlinear_arith)
        requires
            n * scale == size * 16,
            size <= 0x8_0000,
            scale > 0,
    ;
    assert(a.size() == size * u) by {
        assert((-v) * u == -(v * u)) by (nonlinear_arith);
    }
    let m = crate::rounding::lemma_has_pattern(n as int, 1070);
    let r = num_of(m as u64);
    lemma_whole_exact(scale as nat);
    assert(c.magnitude() > 0);
    assert((size * u) * u == (n * g) * (scale * u)) by (nonlinear_arith)
        requires
            size * 16 == n * scale,
            u == 16 * g,
    ;
    crate::num::lemma_size_grows(0, c.magnitude());
    crate::arith::lemma_exact(m, c.size());
    let q = a.quotient(c);
    assert(q == crate::arith::signed_pattern(v < 0, m));
    assert(q.magnitude() == m && q.finite());
    if j < 0 {
        assert(n * g > 0) by (nonlinear_arith)
            requires
                n > 0,
                g > 0,
        ;
        assert(m > 0);
        lemma_short(r, n, 1070);
        crate::single::lemma_single_sign(q);
        crate::single::lemma_single_sign(r);
        assert(q.single().magnitude() == r.single().magnitude());
        assert(q.single().below(num_of(ZERO)));
        assert(0 * pow2(1070) == 0);
    } else if j <= 16 {
        lemma_short(q, n, 1070);
        law_order_is_numeric(q, num_of(ONE));
        law_order_is_numeric(num_of(ZERO), q);
        assert(n * g <= 16 * g && n * g >= 0) by (nonlinear_arith)
            requires
                0 <= n <= 16,
                g > 0,
        ;
    } else {
        assert(n * g >= 16 * g) by (nonlinear_arith)
            requires
                n >= 16,
                g > 0,
        ;
        law_order_is_numeric(num_of(ONE), q);
        lemma_single_grows(num_of(ONE), q);
        assert(num_of(ONE).at_most(q.single()));
    }
}

proof fn lemma_fifth_more(k: nat)
    requires
        2 <= k <= 20,
    ensures
        of_whole(5 * k).product(num_of(ONE_FIFTH_MORE)).single() == of_whole(6 * k),
{
    let u = unit();
    let g = pow2(1022) as int;
    lemma2_to64();
    lemma2_to64_rest();
    lemma_pow2_pos(1022);
    lemma_pow2_adds(52, 1022);
    lemma_pow2_adds(3, 1022);
    let f = 0x10_0000_0000_0000int;
    assert(ONE_FIFTH_MORE as int / f == 1023 && ONE_FIFTH_MORE as int % f == 0x3333333333333);
    let more = num_of(ONE_FIFTH_MORE);
    assert(more.size() == 0x13333333333333 * g);
    lemma_whole_exact(5 * k);
    lemma_whole_exact(6 * k);
    lemma_whole_exact(8);
    let (x, y) = (of_whole(5 * k), of_whole(6 * k));
    let exact = 6 * (k * u) - k * g;
    assert(x.size() * more.size() == exact * u) by (nonlinear_arith)
        requires
            x.size() == (5 * k) * u,
            more.size() == 0x13333333333333 * g,
            u == 0x10_0000_0000_0000 * g,
            exact == 6 * (k * u) - k * g,
    ;
    crate::arith::lemma_rounded_scaled(exact, 1, u);
    assert(1 * u == u);
    let top = y.magnitude();
    assert(y.size() == 6 * (k * u)) by (nonlinear_arith)
        requires
            y.size() == (6 * k) * u,
    ;
    let eight = of_whole(8);
    law_whole_arithmetic(8, 6 * k);
    assert(1026 * f <= top - 16) by {
        lemma_pow2_adds(52, 1025);
        assert((1026 * f) / f == 1026 && (1026 * f) % f == 0);
        assert(crate::num::size_of_pattern(1026 * f) == 8 * u);
        crate::arith::lemma_exact(1026 * f, 1);
        assert(eight.magnitude() == 1026 * f);
        crate::single::lemma_whole_steps_apart(8, 6 * k);
    }
    crate::rounding::lemma_apart(top, 1025, 16);
    let low = top - 16;
    let p = crate::rounding::rounded(exact, 1);
    crate::arith::lemma_exact(low, 1);
    crate::arith::lemma_exact(top, 1);
    assert(0 < k * g <= 20 * g) by (nonlinear_arith)
        requires
            2 <= k <= 20,
            g > 0,
    ;
    crate::rounding::lemma_rounded_grows(crate::num::size_of_pattern(low), 1, exact, 1);
    crate::rounding::lemma_rounded_grows(exact, 1, crate::num::size_of_pattern(top), 1);
    assert(low <= p <= top);
    crate::single::lemma_just_below(6 * k, p);
}

/// The upper end of the GPU chart lies a fifth above its largest reading, and at 12 where
/// none lies above 10: for a largest reading of five times `k` it is six times `k`.
pub proof fn law_gpu_scale(gpu: Seq<Num>, k: nat)
    requires
        2 <= k <= 20,
        k == 2 || gpu.contains(of_whole(5 * k)),
        forall|i: int|
            0 <= i < gpu.len() && num_of(ZERO).at_most(#[trigger] gpu[i]) ==> gpu[i].at_most(
                of_whole(5 * k),
            ),
    ensures
        gpu_scale(gpu) == of_whole(6 * k),
{
    let floor = num_of(TEN);
    let top = peak_from_zero(gpu, floor);
    lemma_named_wholes();
    lemma_fifth_more(k);
    lemma_whole_exact(5 * k);
    lemma_whole_exact(6 * k);
    law_whole_arithmetic(10, 6 * k);
    law_whole_arithmetic(5 * k, 10);
    lemma_peaks_were_read(gpu, floor);
    if gpu.len() > 0 {
        lemma_peaks(gpu, floor, 0);
    }
    if gpu.contains(of_whole(5 * k)) {
        lemma_peaks(gpu, floor, gpu.index_of(of_whole(5 * k)));
    }
    if top != floor {
        let i = gpu.index_of(top);
        assert(gpu[i] == top);
        assert(num_of(ZERO).at_most(top));
    }
    assert(top == of_whole(5 * k));
}

} // verus!
