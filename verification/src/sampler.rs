//! What is made of the raw samples: the snapshot, the list of the busiest
//! processes, the temperature and the data of the graphics card.

use vstd::arithmetic::power2::{lemma2_to64, lemma2_to64_rest, lemma_pow2_pos, pow2};
use vstd::prelude::*;
use crate::arith::{integer, law_whole_arithmetic, lemma_difference_range, lemma_exact, lemma_exact_scaling, lemma_named_wholes, lemma_nearest_whole_grows, lemma_product_grows, lemma_product_near, lemma_quotient_grows, lemma_quotient_near, lemma_quotient_sign, lemma_scaling_keeps_numbers, lemma_sum_sign, lemma_whole_exact, lemma_whole_grows, lemma_whole_sign, of_integer, of_whole, unit, whole};
use crate::format::{law_rounding_is_near, law_rounding_keeps_the_order, law_rounding_keeps_whole_numbers, rounded_to};
use crate::metrics::{proc_views, round1, round2, sanitize, sanitized, AppState, DiskInfo, GpuInfo, GpuInfoView, MemoryInfo, NetworkInfo, ProcInfo, ProcView, Sample, Snapshot, SnapshotView, TempState};
use crate::num::{law_order_is_numeric, lemma_named_patterns, num, num_of, Num, BILLION, GIBI, HUNDRED, HUNDRED_TWENTY, MINUS_ONE, ONE, TEN, THOUSAND, ZERO};
use crate::rounding::{lemma_rounded_grows, lemma_rounded_is_nearest};
use crate::settings::Mode;
use crate::text::{chars_of, contains, contains_chars, lowercase, same_text, to_lowercase};

verus! {

/// Milliseconds between two snapshots: as often as they are shown.
pub const STATS_INTERVAL: u64 = 2500;

/// Milliseconds between two lists of processes.
pub const PROC_INTERVAL: u64 = 10_000;

/// Milliseconds until the next look while no list of processes is wanted.
pub const PROC_IDLE_POLL: u64 = 2000;

/// Milliseconds between two readings of the temperature.
pub const TEMP_INTERVAL: u64 = 60_000;

/// 0.001
pub const MILLI: u64 = 0x3f50_624d_d2f1_a9fc;

/// 273.15
pub const KELVIN: u64 = 0x4071_1266_6666_6666;

// --- Network -----------------------------------------------------------------

/// Whether a name in lower case is that of a virtual adapter.
pub open spec fn virtual_name(lower: Seq<char>) -> bool {
    ||| contains(lower, "docker"@)
    ||| contains(lower, "vethernet"@)
    ||| contains(lower, "vmware"@)
    ||| contains(lower, "virtualbox"@)
    ||| contains(lower, "loopback"@)
    ||| contains(lower, "wsl"@)
    ||| contains(lower, "hyper-v"@)
    ||| contains(lower, "tap"@)
    ||| contains(lower, "tun"@)
    ||| contains(lower, "bluetooth"@)
    ||| contains(lower, "hibernate"@)
    ||| contains(lower, "teredo"@)
}

/// Whether a name in lower case is that of a virtual adapter.
pub fn names_virtual(lower: &str) -> (r: bool)
    ensures
        r == virtual_name(lower@),
{
    let name = chars_of(lower);
    contains_chars(&name, &chars_of("docker")) || contains_chars(&name, &chars_of("vethernet"))
        || contains_chars(&name, &chars_of("vmware")) || contains_chars(
        &name,
        &chars_of("virtualbox"),
    ) || contains_chars(&name, &chars_of("loopback")) || contains_chars(&name, &chars_of("wsl"))
        || contains_chars(&name, &chars_of("hyper-v")) || contains_chars(&name, &chars_of("tap"))
        || contains_chars(&name, &chars_of("tun")) || contains_chars(&name, &chars_of("bluetooth"))
        || contains_chars(&name, &chars_of("hibernate")) || contains_chars(
        &name,
        &chars_of("teredo"),
    )
}

/// Whether an interface is a virtual adapter, by its name in any mix of capital
/// and small letters.
pub fn is_virtual_iface(name: &str) -> (r: bool)
    ensures
        r == virtual_name(lowercase(name@)),
{
    let lower = to_lowercase(name);
    names_virtual(lower.as_str())
}

/// The traffic of a network interface since the last sample, in bytes.
pub struct Iface {
    pub name: String,
    pub received: u64,
    pub transmitted: u64,
}

/// Bytes per second.
pub open spec fn rate(bytes: u64, elapsed: Num) -> Num {
    of_whole(bytes as nat).quotient(elapsed)
}

impl Iface {
    pub open spec fn is_virtual(self) -> bool {
        virtual_name(lowercase(self.name@))
    }

    pub open spec fn traffic(self, elapsed: Num) -> Num {
        rate(self.received, elapsed).sum(rate(self.transmitted, elapsed))
    }

    /// Whether the interface is among those asked for.
    pub open spec fn counts(self, elapsed: Num, among: Among) -> bool {
        match among {
            Among::Active => !self.is_virtual() && num_of(ZERO).below(self.traffic(elapsed)),
            Among::Real => !self.is_virtual(),
            Among::All => true,
        }
    }
}

/// Which interfaces count.
#[derive(Clone, Copy, Debug, PartialEq, Eq, Structural)]
pub enum Among {
    /// Real interfaces that carry traffic.
    Active,
    /// Real interfaces.
    Real,
    /// The complete list.
    All,
}

/// Among the first `n` interfaces, the index of the one that counts with the most
/// traffic: the first of equals.
pub open spec fn busiest(list: Seq<Iface>, n: nat, elapsed: Num, among: Among) -> Option<int>
    decreases n,
{
    if n == 0 {
        None
    } else {
        let best = busiest(list, (n - 1) as nat, elapsed, among);
        let candidate = list[n - 1];
        let traffic = candidate.traffic(elapsed);
        if !candidate.counts(elapsed, among) {
            best
        } else {
            match best {
                Some(k) if !list[k].traffic(elapsed).below(traffic) => best,
                _ => Some(n - 1),
            }
        }
    }
}

/// The interface to show: the busiest of the active, failing that of the real, and
/// failing that of the complete list.
pub open spec fn picked(list: Seq<Iface>, elapsed: Num) -> Option<int> {
    match busiest(list, list.len(), elapsed, Among::Active) {
        Some(k) => Some(k),
        None => match busiest(list, list.len(), elapsed, Among::Real) {
            Some(k) => Some(k),
            None => busiest(list, list.len(), elapsed, Among::All),
        },
    }
}

fn busiest_of(list: &Vec<Iface>, elapsed: Num, among: Among) -> (r: Option<usize>)
    ensures
        match r {
            Some(k) => busiest(list@, list@.len(), elapsed, among) == Some(k as int) && k
                < list.len(),
            None => busiest(list@, list@.len(), elapsed, among) is None,
        },
{
    let mut best: Option<usize> = None;
    let mut i: usize = 0;
    while i < list.len()
        invariant
            i <= list.len(),
            match best {
                Some(k) => busiest(list@, i as nat, elapsed, among) == Some(k as int) && k < i,
                None => busiest(list@, i as nat, elapsed, among) is None,
            },
        decreases list.len() - i,
    {
        let traffic = traffic_of(&list[i], elapsed);
        let counts: bool = match among {
            Among::Active => traffic.gt(num(ZERO)) && !is_virtual_iface(list[i].name.as_str()),
            Among::Real => !is_virtual_iface(list[i].name.as_str()),
            Among::All => true,
        };
        if counts {
            match best {
                Some(k) => {
                    if traffic_of(&list[k], elapsed).lt(traffic) {
                        best = Some(i);
                    }
                },
                None => {
                    best = Some(i);
                },
            }
        }
        i = i + 1;
    }
    best
}

fn rate_of(bytes: u64, elapsed: Num) -> (r: Num)
    ensures
        r == rate(bytes, elapsed),
{
    whole(bytes).over(elapsed)
}

fn traffic_of(iface: &Iface, elapsed: Num) -> (r: Num)
    ensures
        r == iface.traffic(elapsed),
{
    rate_of(iface.received, elapsed).plus(rate_of(iface.transmitted, elapsed))
}

/// Name and rates of the interface to show.
pub open spec fn shown_network(list: Seq<Iface>, elapsed: Num) -> (Seq<char>, Num, Num) {
    match picked(list, elapsed) {
        Some(k) => (
            list[k].name@,
            rate(list[k].received, elapsed),
            rate(list[k].transmitted, elapsed),
        ),
        None => ("n/a"@, num_of(ZERO), num_of(ZERO)),
    }
}

/// Picks the interface that carries the traffic: the busiest real one, or, where all
/// are virtual, the busiest of all. Without any interface the name is `n/a`.
pub fn pick_network(networks: &Vec<Iface>, elapsed: Num) -> (r: (String, Num, Num))
    ensures
        (r.0@, r.1, r.2) == shown_network(networks@, elapsed),
{
    let choice = match busiest_of(networks, elapsed, Among::Active) {
        Some(k) => Some(k),
        None => match busiest_of(networks, elapsed, Among::Real) {
            Some(k) => Some(k),
            None => busiest_of(networks, elapsed, Among::All),
        },
    };
    match choice {
        Some(k) => (
            networks[k].name.clone(),
            rate_of(networks[k].received, elapsed),
            rate_of(networks[k].transmitted, elapsed),
        ),
        None => ("n/a".to_owned(), num(ZERO), num(ZERO)),
    }
}

proof fn lemma_traffic(iface: Iface, elapsed: Num)
    requires
        elapsed.finite(),
        num_of(ZERO).below(elapsed),
    ensures
        !iface.traffic(elapsed).nan(),
        !iface.traffic(elapsed).negative(),
{
    lemma_whole_sign(iface.received as nat);
    lemma_whole_sign(iface.transmitted as nat);
    lemma_quotient_sign(of_whole(iface.received as nat), elapsed);
    lemma_quotient_sign(of_whole(iface.transmitted as nat), elapsed);
    lemma_sum_sign(rate(iface.received, elapsed), rate(iface.transmitted, elapsed));
}

proof fn lemma_busiest(list: Seq<Iface>, n: nat, elapsed: Num, among: Among)
    requires
        n <= list.len(),
        elapsed.finite(),
        num_of(ZERO).below(elapsed),
    ensures
        match busiest(list, n, elapsed, among) {
            Some(k) => {
                &&& 0 <= k < n
                &&& list[k].counts(elapsed, among)
                &&& forall|i: int|
                    0 <= i < n && (#[trigger] list[i]).counts(elapsed, among) ==> list[i].traffic(
                        elapsed,
                    ).at_most(list[k].traffic(elapsed)) && (i < k ==> list[i].traffic(
                        elapsed,
                    ).below(list[k].traffic(elapsed)))
            },
            None => forall|i: int| 0 <= i < n ==> !(#[trigger] list[i]).counts(elapsed, among),
        },
    decreases n,
{
    if n > 0 {
        lemma_busiest(list, (n - 1) as nat, elapsed, among);
        lemma_traffic(list[n - 1], elapsed);
        match busiest(list, (n - 1) as nat, elapsed, among) {
            Some(k) => {
                lemma_traffic(list[k], elapsed);
            },
            None => {},
        }
    }
}

/// Where there is a real interface, the one shown is real, no real interface has more
/// traffic, and the real ones before it in the list have less. Where all are virtual,
/// the same holds of it among all. There is none just where the list is empty.
pub proof fn law_picks_the_busiest_interface(list: Seq<Iface>, elapsed: Num)
    requires
        elapsed.finite(),
        num_of(ZERO).below(elapsed),
    ensures
        ({
            let some_real = exists|i: int| 0 <= i < list.len() && !(#[trigger] list[i]).is_virtual();
            match picked(list, elapsed) {
                Some(k) => {
                    &&& 0 <= k < list.len()
                    &&& some_real ==> !list[k].is_virtual()
                    &&& forall|i: int|
                        0 <= i < list.len() && (some_real ==> !(#[trigger] list[i]).is_virtual())
                            ==> list[i].traffic(elapsed).at_most(list[k].traffic(elapsed)) && (i
                            < k ==> list[i].traffic(elapsed).below(list[k].traffic(elapsed)))
                },
                None => list.len() == 0,
            }
        }),
{
    lemma_busiest(list, list.len(), elapsed, Among::Active);
    lemma_busiest(list, list.len(), elapsed, Among::Real);
    lemma_busiest(list, list.len(), elapsed, Among::All);
    assert forall|i: int| 0 <= i < list.len() implies !(#[trigger] list[i]).traffic(elapsed).nan()
        && !list[i].traffic(elapsed).negative() && list[i].counts(elapsed, Among::All)
        && list[i].counts(elapsed, Among::Real) == !list[i].is_virtual() by {
        lemma_traffic(list[i], elapsed);
    }
}

// --- Snapshot ----------------------------------------------------------------

/// When the last snapshot was taken, in nanoseconds of a clock that only runs
/// forward.
#[derive(Clone, Copy, Debug, PartialEq, Eq, Structural)]
pub struct StatsClock {
    pub prev: u64,
}

/// A number of nanoseconds in seconds, at least a thousandth.
pub open spec fn seconds(nanos: nat) -> Num {
    of_whole(nanos / 1_000_000_000).sum(
        of_whole(nanos % 1_000_000_000).quotient(num_of(BILLION)),
    ).larger(num_of(MILLI))
}

impl StatsClock {
    pub open spec fn since(self, now: u64) -> nat {
        if now >= self.prev {
            (now - self.prev) as nat
        } else {
            0
        }
    }

    /// The seconds since the last snapshot, where the next is due: only while the
    /// window can be seen. While it cannot, the time runs on, so that the first
    /// snapshot after it covers all of the hidden time.
    pub fn tick(&mut self, visible: bool, now: u64) -> (r: Option<Num>)
        ensures
            r == (if visible {
                Some(seconds(old(self).since(now)))
            } else {
                None
            }),
            final(self).prev == (if visible {
                now
            } else {
                old(self).prev
            }),
    {
        if !visible {
            return None;
        }
        let nanos: u64 = if now >= self.prev {
            now - self.prev
        } else {
            0
        };
        self.prev = now;
        let elapsed = whole(nanos / 1_000_000_000).plus(
            whole(nanos % 1_000_000_000).over(num(BILLION)),
        ).max(num(MILLI));
        Some(elapsed)
    }
}

/// One look at the clock: whether the window could be seen, and when.
pub struct Look {
    pub visible: bool,
    pub now: u64,
}

pub open spec fn clock_after(start: StatsClock, looks: Seq<Look>) -> StatsClock
    decreases looks.len(),
{
    if looks.len() == 0 {
        start
    } else if looks.last().visible {
        StatsClock { prev: looks.last().now }
    } else {
        clock_after(start, looks.drop_last())
    }
}

/// Looks at the clock while the window is hidden leave no trace.
pub proof fn law_hidden_time_counts(start: StatsClock, looks: Seq<Look>)
    requires
        forall|i: int| 0 <= i < looks.len() ==> !(#[trigger] looks[i]).visible,
    ensures
        clock_after(start, looks) == start,
    decreases looks.len(),
{
    if looks.len() > 0 {
        let before = looks.drop_last();
        assert(!looks[looks.len() - 1].visible);
        assert forall|i: int| 0 <= i < before.len() implies !(#[trigger] before[i]).visible by {
            assert(!looks[i].visible);
        }
        law_hidden_time_counts(start, before);
    }
}

/// Time since the last snapshot is at least a thousandth of a second, even where
/// the clock has not moved.
pub proof fn law_seconds_are_positive(nanos: nat)
    requires
        nanos <= u64::MAX,
    ensures
        !seconds(nanos).nan(),
        num_of(MILLI).at_most(seconds(nanos)),
{
    lemma_whole_sign(nanos / 1_000_000_000);
    lemma_whole_sign(nanos % 1_000_000_000);
    lemma_quotient_sign(of_whole(nanos % 1_000_000_000), num_of(BILLION));
    lemma_sum_sign(
        of_whole(nanos / 1_000_000_000),
        of_whole(nanos % 1_000_000_000).quotient(num_of(BILLION)),
    );
}

/// Memory in use, in bytes: what is not available.
pub open spec fn used_memory(total: u64, available: u64) -> Num {
    of_whole(total as nat).difference(of_whole(available as nat)).larger(num_of(ZERO))
}

/// Memory in use, in percent of all memory.
pub open spec fn used_percent(total: u64, available: u64) -> Num {
    used_memory(total, available).quotient(of_whole(total as nat)).product(num_of(HUNDRED))
}

/// A percentage from 0 to 100 stays in that range when it is rounded to one place.
pub proof fn lemma_rounded_percent(v: Num)
    requires
        v.from_zero(),
        v.at_most(num_of(HUNDRED)),
    ensures
        rounded_to(v, num_of(TEN)).from_zero(),
        rounded_to(v, num_of(TEN)).at_most(num_of(HUNDRED)),
        v.product(num_of(TEN)).nearest_whole().from_zero(),
        v.product(num_of(TEN)).nearest_whole().at_most(num_of(THOUSAND)),
{
    let (ten, hundred, thousand) = (num_of(TEN), num_of(HUNDRED), num_of(THOUSAND));
    let u = unit();
    lemma_named_patterns();
    lemma_pow2_pos(1074);
    assert((100 * u) * (10 * u) == (1000 * u) * u && (1000 * u) * u == (100 * u) * (10 * u))
        by (nonlinear_arith);
    lemma_exact_scaling(hundred, ten, thousand);
    lemma_exact_scaling(thousand, ten, hundred);
    lemma_product_grows(v, hundred, ten);
    assert((2 * (1000 * u) + u) / (2 * u) == 1000) by (nonlinear_arith)
        requires
            u > 0,
    ;
    lemma_exact(THOUSAND as int, 1);
    assert(thousand.nearest_whole() == thousand);
    lemma_nearest_whole_grows(v.product(ten), thousand);
    lemma_quotient_grows(v.product(ten).nearest_whole(), thousand, ten);
}

proof fn lemma_zero_rounds(parts: Num)
    requires
        parts == num_of(TEN) || parts == num_of(HUNDRED),
    ensures
        rounded_to(num_of(ZERO), parts) == num_of(ZERO),
{
    lemma_named_wholes();
    law_rounding_keeps_whole_numbers(0, 10);
    law_rounding_keeps_whole_numbers(0, 100);
}

proof fn lemma_share(memory: u64, more: u64, total: u64)
    requires
        memory <= more <= total,
        total > 0,
    ensures
        memory_share(memory, total).from_zero(),
        memory_share(memory, total).at_most(memory_share(more, total)),
        memory_share(more, total).at_most(num_of(HUNDRED)),
        memory_share(0, total) == num_of(ZERO),
        memory_share(total, total) == num_of(HUNDRED),
{
    let (m, l, t) = (of_whole(memory as nat), of_whole(more as nat), of_whole(total as nat));
    let (one, hundred) = (num_of(ONE), num_of(HUNDRED));
    let u = unit();
    lemma_named_patterns();
    lemma_named_wholes();
    lemma_pow2_pos(1074);
    lemma_whole_grows(0, total);
    lemma_whole_grows(memory, more);
    lemma_whole_grows(more, total);
    lemma_whole_grows(total, total);
    assert(t.size() * u == u * t.size() && 0 * u == 0 * t.size() && 0 * (100 * u) == 0 * u && u
        * (100 * u) == (100 * u) * u) by (nonlinear_arith);
    lemma_exact_scaling(t, t, one);
    lemma_exact_scaling(num_of(ZERO), t, num_of(ZERO));
    lemma_exact_scaling(num_of(ZERO), hundred, num_of(ZERO));
    lemma_exact_scaling(one, hundred, hundred);
    lemma_quotient_grows(l, t, t);
    lemma_quotient_grows(m, l, t);
    lemma_product_grows(l.quotient(t), one, hundred);
    lemma_product_grows(m.quotient(t), l.quotient(t), hundred);
    lemma_zero_rounds(hundred);
    law_rounding_keeps_whole_numbers(100, 100);
    law_whole_arithmetic(100, 100);
    law_whole_arithmetic(10_000, 0);
    let (x, y) = (m.quotient(t).product(hundred), l.quotient(t).product(hundred));
    lemma_whole_exact(10_000);
    lemma_product_grows(y, hundred, hundred);
    lemma_nearest_whole_grows(y.product(hundred), of_whole(10_000));
    lemma_quotient_grows(y.product(hundred).nearest_whole(), of_whole(10_000), hundred);
    law_rounding_keeps_the_order(y, hundred, hundred);
    law_rounding_keeps_the_order(x, y, hundred);
}

/// Memory in use lies between 0 and 100 percent, before and after rounding, as long
/// as no more is available than there is.
pub proof fn law_memory_percent_in_range(total: u64, available: u64)
    requires
        available <= total,
        total > 0,
    ensures
        used_percent(total, available).from_zero(),
        used_percent(total, available).at_most(num_of(HUNDRED)),
        rounded_to(used_percent(total, available), num_of(TEN)).from_zero(),
        rounded_to(used_percent(total, available), num_of(TEN)).at_most(num_of(HUNDRED)),
{
    let (t, a) = (of_whole(total as nat), of_whole(available as nat));
    let (one, hundred) = (num_of(ONE), num_of(HUNDRED));
    let u = unit();
    lemma_named_patterns();
    lemma_whole_grows(available, total);
    lemma_whole_grows(total, total);
    lemma_difference_range(t, a);
    let used = used_memory(total, available);
    assert(used == t.difference(a));
    assert(t.size() * u == u * t.size()) by (nonlinear_arith);
    lemma_exact_scaling(t, t, one);
    lemma_quotient_grows(used, t, t);
    let part = used.quotient(t);
    assert(u * (100 * u) == (100 * u) * u) by (nonlinear_arith);
    lemma_exact_scaling(one, hundred, hundred);
    lemma_product_grows(part, one, hundred);
    lemma_rounded_percent(used_percent(total, available));
}

/// A disk rate from its tenths; -1 without data.
pub open spec fn disk_rate(tenths: i64) -> Num {
    let bytes = of_integer(tenths as int).quotient(num_of(TEN));
    if num_of(ZERO).at_most(bytes) {
        rounded_to(bytes, num_of(TEN))
    } else {
        num_of(MINUS_ONE)
    }
}

fn disk_rate_of(tenths: i64) -> (r: Num)
    ensures
        r == disk_rate(tenths),
{
    let bytes = integer(tenths).over(num(TEN));
    if bytes.ge(num(ZERO)) {
        round1(bytes)
    } else {
        num(MINUS_ONE)
    }
}

/// GPU use from its tenths of a percent.
pub open spec fn gpu_percent(tenths: i32) -> Num {
    of_integer(tenths as int).quotient(num_of(TEN))
}

/// The raw figures of one sample.
pub struct RawStats {
    pub cpu: Num,
    pub total_memory: u64,
    pub available_memory: u64,
    pub networks: Vec<Iface>,
    pub elapsed: Num,
}

pub open spec fn measured(
    raw: RawStats,
    celsius: Num,
    status: Seq<char>,
    gpu_tenths: i32,
    read_tenths: i64,
    write_tenths: i64,
) -> SnapshotView {
    let (iface, rx, tx) = shown_network(raw.networks@, raw.elapsed);
    let ten = num_of(TEN);
    SnapshotView {
        ok: true,
        cpu: rounded_to(raw.cpu, ten),
        memory: MemoryInfo {
            percent: rounded_to(
                if raw.total_memory > 0 {
                    used_percent(raw.total_memory, raw.available_memory)
                } else {
                    num_of(ZERO)
                },
                ten,
            ),
            used_gb: rounded_to(
                used_memory(raw.total_memory, raw.available_memory).quotient(num_of(GIBI)),
                num_of(HUNDRED),
            ),
            total_gb: rounded_to(
                of_whole(raw.total_memory as nat).quotient(num_of(GIBI)),
                num_of(HUNDRED),
            ),
        },
        iface,
        rx_bytes_sec: rounded_to(rx, ten),
        tx_bytes_sec: rounded_to(tx, ten),
        disk: DiskInfo {
            read_bytes_sec: disk_rate(read_tenths),
            write_bytes_sec: disk_rate(write_tenths),
        },
        cpu_temp: celsius,
        temp_status: status,
        gpu: gpu_percent(gpu_tenths),
        error: None,
    }
}

/// The sample of the session statistics that goes with the raw figures.
pub open spec fn session_sample(raw: RawStats, gpu_tenths: i32) -> Sample {
    let (_, rx, tx) = shown_network(raw.networks@, raw.elapsed);
    Sample {
        cpu: raw.cpu,
        mem: used_percent(raw.total_memory, raw.available_memory),
        gpu: gpu_percent(gpu_tenths),
        net_bps: rx.sum(tx),
    }
}

/// Turns the raw figures into the snapshot, together with the latest temperature,
/// GPU use and disk rates, and counts them into the statistics of the session.
pub fn publish_stats(state: &mut AppState, raw: &RawStats)
    requires
        old(state).session.samples < u64::MAX,
        old(state).session.gpu_samples < u64::MAX,
    ensures
        final(state).snapshot@ == measured(
            *raw,
            old(state).temp.celsius,
            old(state).temp.status@,
            old(state).gpu_util,
            old(state).disk_read,
            old(state).disk_write,
        ),
        final(state).session == old(state).session.with(
            session_sample(*raw, old(state).gpu_util),
        ),
        final(state).procs == old(state).procs,
        final(state).gpu_util == old(state).gpu_util,
        final(state).temp == old(state).temp,
        final(state).gpu_info == old(state).gpu_info,
        final(state).pinned == old(state).pinned,
        final(state).mode == old(state).mode,
        final(state).visible == old(state).visible,
        final(state).disk_read == old(state).disk_read,
        final(state).disk_write == old(state).disk_write,
        final(state).settings == old(state).settings,
{
    let total = whole(raw.total_memory);
    let used = total.minus(whole(raw.available_memory)).max(num(ZERO));
    let percent = used.over(total).times(num(HUNDRED));
    let (iface, rx, tx) = pick_network(&raw.networks, raw.elapsed);
    let gpu = integer(state.gpu_util as i64).over(num(TEN));
    let disk = DiskInfo {
        read_bytes_sec: disk_rate_of(state.disk_read),
        write_bytes_sec: disk_rate_of(state.disk_write),
    };
    state.session.record(raw.cpu, percent, gpu, rx.plus(tx));
    state.snapshot = Snapshot {
        ok: true,
        cpu: round1(raw.cpu),
        memory: MemoryInfo {
            percent: round1(
                if raw.total_memory > 0 {
                    percent
                } else {
                    num(ZERO)
                },
            ),
            used_gb: round2(used.over(num(GIBI))),
            total_gb: round2(total.over(num(GIBI))),
        },
        network: NetworkInfo { iface, rx_bytes_sec: round1(rx), tx_bytes_sec: round1(tx) },
        disk,
        cpu_temp: state.temp.celsius,
        temp_status: state.temp.status.clone(),
        gpu,
        error: None,
    };
}

proof fn lemma_disk_rate(tenths: i64, n: nat)
    requires
        n < 0x1_0000_0000_0000,
    ensures
        tenths == 10 * n ==> disk_rate(tenths) == of_whole(n),
        tenths < 0 ==> disk_rate(tenths) == num_of(MINUS_ONE),
        0 <= tenths < 0x800_0000_0000 ==> disk_rate(tenths).from_zero() && -6 * unit() <= 10 * (10
            * disk_rate(tenths).size() - tenths * unit()) <= 6 * unit(),
{
    let u = unit();
    let ten = num_of(TEN);
    lemma_named_wholes();
    lemma_named_patterns();
    lemma_pow2_pos(1074);
    if tenths == 10 * n {
        law_whole_arithmetic(n, 10);
        lemma_whole_sign(n);
        law_rounding_keeps_whole_numbers(n, 10);
        assert(of_integer(tenths as int) == of_whole(n * 10));
    }
    if tenths < 0 {
        let k = (-tenths) as u64;
        let x = of_whole(k as nat);
        lemma_whole_grows(1, k);
        lemma_whole_grows(k, k);
        if num_of(ONE).magnitude() < x.magnitude() {
            crate::num::lemma_size_grows(num_of(ONE).magnitude(), x.magnitude());
        }
        let m = crate::rounding::rounded(x.size() * u, ten.size());
        crate::rounding::lemma_rounded_is_nearest(x.size() * u, ten.size());
        assert(m > 0) by {
            if m == 0 {
                assert(crate::num::size_of_pattern(0) == 0 && crate::num::size_of_pattern(1) == 1);
                assert(crate::rounding::twice_halfway(0) == 1);
                assert(2 * (x.size() * u) > 10 * u) by (nonlinear_arith)
                    requires
                        x.size() >= u,
                        u > 5,
                ;
            }
        }
        assert(of_integer(tenths as int) == x.negated());
        assert(x.negated().magnitude() == x.magnitude());
    }
    if 0 <= tenths < 0x800_0000_0000 {
        let x = of_whole(tenths as nat);
        lemma_whole_exact(tenths as nat);
        lemma2_to64();
        lemma2_to64_rest();
        assert(pow2(40) == 0x100_0000_0000 && pow2(12) == 4096);
        assert(tenths * u <= (10 * u) * 0x100_0000_0000) by (nonlinear_arith)
            requires
                tenths < 0x800_0000_0000,
                u > 0,
        ;
        lemma_quotient_near(x, ten, 40);
        let b = x.quotient(ten);
        law_rounding_is_near(b, 10);
        let (d, e) = (10 * b.size() - tenths * u, disk_rate(tenths).size() - b.size());
        assert(-(10 * u) <= 8192 * d <= 10 * u) by (nonlinear_arith)
            requires
                -(10 * u) * u <= 2 * (4096 * (b.size() * (10 * u) - (tenths * u) * u)) <= (10 * u)
                    * u,
                d == 10 * b.size() - tenths * u,
                u > 0,
        ;
        assert(10 * disk_rate(tenths).size() - tenths * u == d + 10 * e);
    }
}

/// Reading and writing are shown alike, each by its own counter: in bytes per second,
/// a tenth of the tenths that were counted, and -1 without data.
pub proof fn law_disk_rates(
    raw: RawStats,
    celsius: Num,
    status: Seq<char>,
    gpu: i32,
    read: i64,
    write: i64,
    n: nat,
)
    requires
        n < 0x1_0000_0000_0000,
    ensures
        ({
            let disk = measured(raw, celsius, status, gpu, read, write).disk;
            let (r, w) = (disk.read_bytes_sec, disk.write_bytes_sec);
            let u = unit();
            &&& read == 10 * n ==> r == of_whole(n)
            &&& write == 10 * n ==> w == of_whole(n)
            &&& read < 0 ==> r == num_of(MINUS_ONE)
            &&& write < 0 ==> w == num_of(MINUS_ONE)
            &&& read == write ==> r == w
            &&& 0 <= read < 0x800_0000_0000 ==> r.from_zero() && -6 * u <= 10 * (10 * r.size()
                - read * u) <= 6 * u
            &&& 0 <= write < 0x800_0000_0000 ==> w.from_zero() && -6 * u <= 10 * (10 * w.size()
                - write * u) <= 6 * u
        }),
{
    lemma_disk_rate(read, n);
    lemma_disk_rate(write, n);
}

/// The snapshot takes the temperature and its state as they are, and GPU use by its
/// tenths; -10 tenths stand for no data.
pub proof fn law_snapshot_takes_readings_over(
    raw: RawStats,
    celsius: Num,
    status: Seq<char>,
    gpu: i32,
    read: i64,
    write: i64,
    n: nat,
)
    requires
        n < 0x1000_0000,
    ensures
        ({
            let s = measured(raw, celsius, status, gpu, read, write);
            &&& s.ok && s.error is None
            &&& s.cpu_temp == celsius
            &&& s.temp_status == status
            &&& gpu == 10 * n ==> s.gpu == of_whole(n)
            &&& gpu == -10 ==> s.gpu == num_of(MINUS_ONE)
            &&& raw.cpu == of_whole(n) ==> s.cpu == of_whole(n)
        }),
        session_sample(raw, gpu).cpu == raw.cpu,
        session_sample(raw, gpu).mem == used_percent(raw.total_memory, raw.available_memory),
        measured(raw, celsius, status, gpu, read, write).memory.percent == (if raw.total_memory
            == 0 {
            num_of(ZERO)
        } else {
            rounded_to(used_percent(raw.total_memory, raw.available_memory), num_of(TEN))
        }),
        session_sample(raw, gpu).gpu == measured(raw, celsius, status, gpu, read, write).gpu,
{
    lemma_named_wholes();
    lemma_named_patterns();
    law_whole_arithmetic(n, 10);
    law_rounding_keeps_whole_numbers(n, 10);
    if gpu == -10 {
        let u = unit();
        lemma_pow2_pos(1074);
        assert((10 * u) * u == u * (10 * u)) by (nonlinear_arith);
        assert(of_integer(-10) == num_of(TEN).negated());
        lemma_exact(ONE as int, 10 * u);
    }
    assert(10 * n == n * 10);
    lemma_zero_rounds(num_of(TEN));
}

/// Memory is counted in units of 2 to the power of 30 bytes: of `all` units, of which
/// `free` are available, the rest is in use.
pub proof fn law_memory_is_counted(
    raw: RawStats,
    celsius: Num,
    status: Seq<char>,
    gpu: i32,
    read: i64,
    write: i64,
    all: nat,
    free: nat,
)
    requires
        free <= all < 0x10_0000,
        raw.total_memory == all * 0x4000_0000,
        raw.available_memory == free * 0x4000_0000,
    ensures
        measured(raw, celsius, status, gpu, read, write).memory.total_gb == of_whole(all),
        measured(raw, celsius, status, gpu, read, write).memory.used_gb == of_whole(
            (all - free) as nat,
        ),
{
    let used = (all - free) as nat;
    lemma_named_wholes();
    law_whole_arithmetic(raw.total_memory as nat, raw.available_memory as nat);
    law_whole_arithmetic(used, 0x4000_0000);
    law_whole_arithmetic(all, 0x4000_0000);
    law_rounding_keeps_whole_numbers(used, 100);
    law_rounding_keeps_whole_numbers(all, 100);
    lemma_whole_sign((used * 0x4000_0000) as nat);
}

/// Memory in use, in percent, is what is not available in a hundred parts of all, up to
/// the digits that a reading has; nothing is in use where all is available. The less is
/// available, the more is in use.
pub proof fn law_memory_percent(total: u64, available: u64, less: u64)
    requires
        0 < total < 0x20_0000_0000_0000,
        less <= available <= total,
    ensures
        ({
            let (p, u) = (used_percent(total, available), unit());
            let exact = 100 * (total - available) * u;
            &&& p.from_zero()
            &&& -(total as int) * u <= 0x1000_0000 * (p.size() * total - exact) <= total * u
            &&& p.at_most(used_percent(total, less))
        }),
        used_percent(total, total) == num_of(ZERO),
        used_percent(total, 0) == num_of(HUNDRED),
{
    lemma_percent_near(total, available);
    lemma_percent_grows(total, available, less);
    lemma_named_wholes();
    lemma_named_patterns();
    let (t, u) = (of_whole(total as nat), unit());
    lemma_pow2_pos(1074);
    lemma_whole_exact(total as nat);
    law_whole_arithmetic(total as nat, total as nat);
    law_whole_arithmetic(total as nat, 0);
    assert(t.size() * u == u * t.size() && 0 * u == 0 * t.size() && 0 * (100 * u) == 0 * u && u
        * (100 * u) == (100 * u) * u) by (nonlinear_arith);
    lemma_exact_scaling(t, t, num_of(ONE));
    lemma_exact_scaling(num_of(ZERO), t, num_of(ZERO));
    lemma_exact_scaling(num_of(ZERO), num_of(HUNDRED), num_of(ZERO));
    lemma_exact_scaling(num_of(ONE), num_of(HUNDRED), num_of(HUNDRED));
    lemma_whole_sign(total as nat);
    lemma_whole_sign(0);
}

proof fn lemma_used_exact(total: u64, available: u64)
    requires
        0 < total < 0x20_0000_0000_0000,
        available <= total,
    ensures
        used_memory(total, available) == of_whole((total - available) as nat),
{
    lemma_named_wholes();
    law_whole_arithmetic(total as nat, available as nat);
    lemma_whole_sign((total - available) as nat);
}

proof fn lemma_ratio_near(n: nat, total: nat)
    requires
        0 < total < 0x20_0000_0000_0000,
        n <= total,
    ensures
        ({
            let p = of_whole(n).quotient(of_whole(total)).product(num_of(HUNDRED));
            &&& p.from_zero()
            &&& p.size() <= 128 * unit()
            &&& -(total as int) * unit() <= 0x1000_0000 * (p.size() * total - 100 * n * unit())
                <= total * unit()
        }),
{
    let (x, t, u) = (of_whole(n), of_whole(total), unit());
    lemma_named_patterns();
    lemma_pow2_pos(1074);
    lemma_whole_exact(n);
    lemma_whole_exact(total);
    lemma2_to64();
    lemma2_to64_rest();
    assert(pow2(0) == 1 && pow2(7) == 128 && pow2(52) == 0x10_0000_0000_0000 && pow2(45)
        == 0x2000_0000_0000);
    assert(n * u <= (total * u) * 1) by (nonlinear_arith)
        requires
            n <= total,
            u > 0,
    ;
    lemma_quotient_near(x, t, 0);
    let q = x.quotient(t);
    assert(q.size() * (100 * u) <= u * (128 * u)) by (nonlinear_arith)
        requires
            q.size() <= 1 * u,
            u > 0,
    ;
    lemma_product_near(q, num_of(HUNDRED), 7);
    let p = q.product(num_of(HUNDRED));
    let d = q.size() * total - n * u;
    let e = p.size() - 100 * q.size();
    assert(-(total as int) * u <= 0x20_0000_0000_0000 * d <= total * u) by (nonlinear_arith)
        requires
            -(total * u) * u <= 2 * (0x10_0000_0000_0000 * (q.size() * (total * u) - (n * u) * u))
                <= (total * u) * u,
            d == q.size() * total - n * u,
            u > 0,
    ;
    assert(-u <= 0x4000_0000_0000 * e <= u) by (nonlinear_arith)
        requires
            -u * u <= 2 * (0x2000_0000_0000 * (p.size() * u - q.size() * (100 * u))) <= u * u,
            e == p.size() - 100 * q.size(),
            u > 0,
    ;
    assert(p.size() * total - 100 * n * u == 100 * d + e * total) by (nonlinear_arith)
        requires
            d == q.size() * total - n * u,
            e == p.size() - 100 * q.size(),
    ;
    assert(-(total as int) * u <= 0x4000_0000_0000 * (e * total) <= total * u) by (nonlinear_arith)
        requires
            -u <= 0x4000_0000_0000 * e <= u,
            total > 0,
    ;
    let (w, x1, y1) = (total * u, d, e * total);
    assert(-(total as int) * u == -w) by (nonlinear_arith)
        requires
            w == total * u,
    ;
    assert(-w <= 0x1000_0000 * (100 * x1 + y1) <= w);
}

proof fn lemma_percent_near(total: u64, available: u64)
    requires
        0 < total < 0x20_0000_0000_0000,
        available <= total,
    ensures
        used_percent(total, available).from_zero(),
        -(total as int) * unit() <= 0x1000_0000 * (used_percent(total, available).size() * total
            - 100 * (total - available) * unit()) <= total * unit(),
{
    lemma_used_exact(total, available);
    lemma_ratio_near((total - available) as nat, total as nat);
}

proof fn lemma_percent_grows(total: u64, available: u64, less: u64)
    requires
        0 < total < 0x20_0000_0000_0000,
        less <= available <= total,
    ensures
        used_percent(total, available).at_most(used_percent(total, less)),
{
    let (n, m) = ((total - available) as nat, (total - less) as nat);
    lemma_used_exact(total, available);
    lemma_used_exact(total, less);
    lemma_percent_near(total, less);
    lemma_percent_near(total, available);
    lemma_whole_exact(n);
    lemma_whole_exact(m);
    lemma_whole_exact(total as nat);
    lemma_named_patterns();
    lemma_pow2_pos(1074);
    lemma2_to64();
    let (t, u) = (of_whole(total as nat), unit());
    assert(m * u <= (total * u) * 1) by (nonlinear_arith)
        requires
            m <= total,
            u > 0,
    ;
    lemma_quotient_near(of_whole(m), t, 0);
    lemma_whole_grows(n as u64, m as u64);
    lemma_quotient_grows(of_whole(n), of_whole(m), t);
    lemma_product_grows(of_whole(n).quotient(t), of_whole(m).quotient(t), num_of(HUNDRED));
}

/// The snapshot shows the interface that was picked by its name, with its own rates:
/// over `s` seconds, `s` times `n` bytes are `n` bytes per second, received and
/// transmitted. The session counts both together.
pub proof fn law_network_is_shown(
    raw: RawStats,
    celsius: Num,
    status: Seq<char>,
    gpu: i32,
    read: i64,
    write: i64,
    s: nat,
    rx: nat,
    tx: nat,
)
    requires
        0 < s < 0x20_0000_0000_0000,
        rx < 0x1_0000_0000_0000,
        tx < 0x1_0000_0000_0000,
        rx * s < 0x20_0000_0000_0000,
        tx * s < 0x20_0000_0000_0000,
        raw.elapsed == of_whole(s),
    ensures
        ({
            let shown = measured(raw, celsius, status, gpu, read, write);
            match picked(raw.networks@, raw.elapsed) {
                Some(k) => {
                    let iface = raw.networks@[k];
                    &&& shown.iface == iface.name@
                    &&& iface.received == rx * s ==> shown.rx_bytes_sec == of_whole(rx)
                    &&& iface.transmitted == tx * s ==> shown.tx_bytes_sec == of_whole(tx)
                    &&& iface.received == rx * s && iface.transmitted == tx * s ==> session_sample(
                        raw,
                        gpu,
                    ).net_bps == of_whole(rx + tx)
                },
                None => {
                    &&& shown.iface == "n/a"@
                    &&& shown.rx_bytes_sec == num_of(ZERO)
                    &&& shown.tx_bytes_sec == num_of(ZERO)
                    &&& session_sample(raw, gpu).net_bps == num_of(ZERO)
                },
            }
        }),
{
    lemma_named_wholes();
    lemma_zero_rounds(num_of(TEN));
    law_whole_arithmetic(0, 0);
    law_whole_arithmetic(rx, s);
    law_whole_arithmetic(tx, s);
    law_whole_arithmetic(rx, tx);
    law_rounding_keeps_whole_numbers(rx, 10);
    law_rounding_keeps_whole_numbers(tx, 10);
}

/// The traffic of an interface is what it received and what it transmitted, per second.
pub proof fn law_traffic_goes_both_ways(iface: Iface, s: nat, rx: nat, tx: nat)
    requires
        0 < s < 0x20_0000_0000_0000,
        rx < 0x1_0000_0000_0000,
        tx < 0x1_0000_0000_0000,
        rx * s < 0x20_0000_0000_0000,
        tx * s < 0x20_0000_0000_0000,
        iface.received == rx * s,
        iface.transmitted == tx * s,
    ensures
        iface.traffic(of_whole(s)) == of_whole(rx + tx),
{
    law_whole_arithmetic(rx, s);
    law_whole_arithmetic(tx, s);
    law_whole_arithmetic(rx, tx);
}

/// A virtual adapter is one whose name, in lower case, holds one of twelve words
/// anywhere, and no other.
pub proof fn law_virtual_adapters(name: Seq<char>)
    ensures
        virtual_name(name) <==> exists|before: Seq<char>, word: Seq<char>, after: Seq<char>|
            name == #[trigger] (before + word + after) && (word == "docker"@ || word == "vethernet"@ || word == "vmware"@ || word == "virtualbox"@ || word == "loopback"@ || word == "wsl"@ || word == "hyper-v"@ || word == "tap"@ || word == "tun"@ || word == "bluetooth"@ || word == "hibernate"@ || word == "teredo"@),
{
    assert forall|before: Seq<char>, word: Seq<char>, after: Seq<char>|
        name == #[trigger] (before + word + after) implies contains(name, word) by {
        assert(name.subrange(before.len() as int, (before.len() + word.len()) as int) == word);
        assert(crate::text::occurs_at(name, word, before.len() as int));
    }
    assert forall|word: Seq<char>| #[trigger] contains(name, word) implies exists|
        before: Seq<char>,
        after: Seq<char>,
    | name == #[trigger] (before + word + after) by {
        let i = choose|i: int| crate::text::occurs_at(name, word, i);
        assert(name == name.take(i) + word + name.skip(i + word.len()));
    }
}

/// Seconds are counted from the nanoseconds: a second is a thousand million of them,
/// and more of them are no fewer seconds.
pub proof fn law_seconds_count(clock: StatsClock, now: u64, n: nat, later: u64)
    requires
        n >= 1,
        now == clock.prev + n * 1_000_000_000,
        now <= later,
    ensures
        seconds(clock.since(now)) == of_whole(n),
        clock.since(later) - clock.since(now) == later - now,
{
    lemma_named_wholes();
    assert((n * 1_000_000_000) / 1_000_000_000 == n && (n * 1_000_000_000) % 1_000_000_000 == 0);
    law_whole_arithmetic(0, 1_000_000_000);
    law_whole_arithmetic(n, 0);
    lemma_whole_grows(1, n as u64);
}

// --- Processes ---------------------------------------------------------------

/// The most processes that are listed.
pub const TOP: usize = 5;

/// A process as the system tells of it.
pub struct RawProc {
    pub pid: u32,
    pub name: String,
    pub cpu: Num,
    /// Bytes.
    pub memory: u64,
    pub exe: Option<String>,
}

/// Whether the list of processes is wanted: the window can be seen, and its mode
/// shows the list.
pub fn procs_wanted(visible: bool, mode: Mode) -> (r: bool)
    ensures
        r == (visible && (mode == Mode::Dev || mode == Mode::Procs)),
{
    visible && (mode == Mode::Dev || mode == Mode::Procs)
}

/// Whether a name in lower case is one under which the system books idle time or
/// interrupts.
pub open spec fn noise(lower: Seq<char>) -> bool {
    lower == "system idle process"@ || lower == "system interrupts"@
}

/// Whether a name in lower case is one under which the system books idle time or
/// interrupts.
pub fn is_noise(lower: &str) -> (r: bool)
    ensures
        r == noise(lower@),
{
    same_text(lower, "system idle process") || same_text(lower, "system interrupts")
}

/// The memory of a process in percent of all memory, with two places.
pub open spec fn memory_share(memory: u64, total_memory: u64) -> Num {
    rounded_to(
        if total_memory > 0 {
            of_whole(memory as nat).quotient(of_whole(total_memory as nat)).product(num_of(HUNDRED))
        } else {
            num_of(ZERO)
        },
        num_of(HUNDRED),
    )
}

impl RawProc {
    pub open spec fn listed(self) -> bool {
        self.pid != 0 && !noise(lowercase(sanitized(self.name@)))
    }

    /// The process as the list shows it.
    pub open spec fn entry(self, total_memory: u64) -> ProcView {
        ProcView {
            pid: self.pid,
            name: sanitized(self.name@),
            cpu: rounded_to(self.cpu, num_of(TEN)),
            mem: memory_share(self.memory, total_memory),
            exe: match self.exe {
                Some(path) => Some(sanitized(path@)),
                None => None,
            },
        }
    }
}

/// The processes to list, in the order in which the system tells of them.
pub open spec fn entries(raw: Seq<RawProc>, total_memory: u64) -> Seq<ProcView>
    decreases raw.len(),
{
    if raw.len() == 0 {
        Seq::empty()
    } else {
        let before = entries(raw.drop_last(), total_memory);
        if raw.last().listed() {
            before.push(raw.last().entry(total_memory))
        } else {
            before
        }
    }
}

/// Where a process goes into a list ordered by CPU use: before the first that uses
/// less.
pub open spec fn place(list: Seq<ProcView>, cpu: Num) -> int
    decreases list.len(),
{
    if list.len() == 0 || list[0].cpu.below(cpu) {
        0
    } else {
        1 + place(list.drop_first(), cpu)
    }
}

/// The processes ordered by CPU use, the largest first; equals keep their order.
pub open spec fn ranked(list: Seq<ProcView>) -> Seq<ProcView>
    decreases list.len(),
{
    if list.len() == 0 {
        Seq::empty()
    } else {
        let before = ranked(list.drop_last());
        before.insert(place(before, list.last().cpu), list.last())
    }
}

/// The list that is shown.
pub open spec fn top(raw: Seq<RawProc>, total_memory: u64) -> Seq<ProcView> {
    let all = ranked(entries(raw, total_memory));
    if all.len() > TOP {
        all.take(TOP as int)
    } else {
        all
    }
}

proof fn lemma_place(list: Seq<ProcView>, cpu: Num)
    ensures
        0 <= place(list, cpu) <= list.len(),
        forall|i: int| 0 <= i < place(list, cpu) ==> !(#[trigger] list[i]).cpu.below(cpu),
        place(list, cpu) < list.len() ==> list[place(list, cpu)].cpu.below(cpu),
    decreases list.len(),
{
    if list.len() > 0 && !list[0].cpu.below(cpu) {
        let rest = list.drop_first();
        lemma_place(rest, cpu);
        assert forall|i: int| 0 <= i < place(list, cpu) implies !(#[trigger] list[i]).cpu.below(
            cpu,
        ) by {
            if i > 0 {
                assert(!rest[i - 1].cpu.below(cpu));
            }
        }
    }
}

proof fn lemma_place_found(list: Seq<ProcView>, cpu: Num, k: int)
    requires
        0 <= k <= list.len(),
        forall|i: int| 0 <= i < k ==> !(#[trigger] list[i]).cpu.below(cpu),
        k < list.len() ==> list[k].cpu.below(cpu),
    ensures
        place(list, cpu) == k,
    decreases list.len(),
{
    if k > 0 {
        let rest = list.drop_first();
        assert(!list[0].cpu.below(cpu));
        assert forall|i: int| 0 <= i < k - 1 implies !(#[trigger] rest[i]).cpu.below(cpu) by {
            assert(!list[i + 1].cpu.below(cpu));
        }
        lemma_place_found(rest, cpu, k - 1);
    }
}

fn insert_ranked(list: &mut Vec<ProcInfo>, p: ProcInfo)
    ensures
        proc_views(final(list)@) == proc_views(old(list)@).insert(
            place(proc_views(old(list)@), p.cpu),
            p@,
        ),
{
    let ghost before = proc_views(list@);
    let mut k: usize = 0;
    while k < list.len() && !list[k].cpu.lt(p.cpu)
        invariant
            k <= list.len(),
            before == proc_views(list@),
            forall|i: int| 0 <= i < k ==> !(#[trigger] before[i]).cpu.below(p.cpu),
        decreases list.len() - k,
    {
        assert(before[k as int].cpu == list@[k as int].cpu);
        k = k + 1;
    }
    proof {
        if k < list.len() {
            assert(before[k as int].cpu == list@[k as int].cpu);
        }
        lemma_place_found(before, p.cpu, k as int);
    }
    let ghost view = p@;
    let ghost all = list@;
    list.insert(k, p);
    assert(proc_views(list@) == before.insert(k as int, view)) by {
        assert(list@ == all.insert(k as int, p));
        assert forall|i: int| 0 <= i <= before.len() implies proc_views(list@)[i] == before.insert(
            k as int,
            view,
        )[i] by {}
    }
}

fn entry_of(p: &RawProc, name: String, total_memory: u64) -> (r: ProcInfo)
    requires
        name@ == sanitized(p.name@),
    ensures
        r@ == p.entry(total_memory),
{
    let mem = if total_memory > 0 {
        whole(p.memory).over(whole(total_memory)).times(num(HUNDRED))
    } else {
        num(ZERO)
    };
    let exe = match &p.exe {
        Some(path) => Some(sanitize(path.as_str())),
        None => None,
    };
    ProcInfo { pid: p.pid, name, cpu: round1(p.cpu), mem: round2(mem), exe }
}

/// The processes that use the CPU most. Process 0 and what stands for idle time
/// or interrupts do not count.
pub fn top_processes(raw: &Vec<RawProc>, total_memory: u64) -> (r: Vec<ProcInfo>)
    requires
        forall|i: int| 0 <= i < raw.len() ==> !(#[trigger] raw@[i]).cpu.nan(),
    ensures
        proc_views(r@) == top(raw@, total_memory),
{
    let mut list: Vec<ProcInfo> = Vec::new();
    let mut i: usize = 0;
    assert(raw@.take(0).len() == 0);
    assert(entries(raw@.take(0), total_memory).len() == 0);
    assert(proc_views(list@) == ranked(entries(raw@.take(0), total_memory)));
    while i < raw.len()
        invariant
            i <= raw.len(),
            proc_views(list@) == ranked(entries(raw@.take(i as int), total_memory)),
        decreases raw.len() - i,
    {
        assert(raw@.take(i + 1).drop_last() == raw@.take(i as int));
        let ghost before = entries(raw@.take(i as int), total_memory);
        let p = &raw[i];
        let name = sanitize(p.name.as_str());
        let lower = to_lowercase(name.as_str());
        if p.pid != 0 && !is_noise(lower.as_str()) {
            let entry = entry_of(p, name, total_memory);
            assert(before.push(entry@).drop_last() == before);
            insert_ranked(&mut list, entry);
        }
        i = i + 1;
    }
    assert(raw@.take(raw@.len() as int) == raw@);
    let ghost all = proc_views(list@);
    if list.len() > TOP {
        let ghost whole_list = list@;
        list.truncate(TOP);
        assert(proc_views(list@) == all.take(TOP as int)) by {
            assert(list@ == whole_list.take(TOP as int));
        }
    }
    list
}

spec fn sound(p: ProcView) -> bool {
    !p.cpu.nan() && p.pid != 0
}

proof fn lemma_ranked(list: Seq<ProcView>)
    requires
        forall|i: int| 0 <= i < list.len() ==> sound(#[trigger] list[i]),
    ensures
        ranked(list).to_multiset() == list.to_multiset(),
        ranked(list).len() == list.len(),
        forall|i: int| 0 <= i < ranked(list).len() ==> sound(#[trigger] ranked(list)[i]),
        forall|i: int, j: int|
            0 <= i <= j < ranked(list).len() ==> !(#[trigger] ranked(list)[i]).cpu.below(
                (#[trigger] ranked(list)[j]).cpu,
            ),
    decreases list.len(),
{
    broadcast use vstd::seq_lib::group_to_multiset_ensures;

    if list.len() > 0 {
        let rest = list.drop_last();
        assert forall|i: int| 0 <= i < rest.len() implies sound(#[trigger] rest[i]) by {
            assert(sound(list[i]));
        }
        lemma_ranked(rest);
        let before = ranked(rest);
        let p = list.last();
        assert(sound(list[list.len() - 1]));
        lemma_place(before, p.cpu);
        let k = place(before, p.cpu);
        let after = before.insert(k, p);
        assert(rest.push(p) == list);
        assert(after.to_multiset() == before.to_multiset().insert(p));
        assert forall|i: int, j: int| 0 <= i <= j < after.len() implies !(#[trigger] after[i]).cpu.below(
            (#[trigger] after[j]).cpu,
        ) by {
            let a = if i < k {
                i
            } else {
                i - 1
            };
            let b = if j < k {
                j
            } else {
                j - 1
            };
            if i != k {
                assert(sound(before[a]));
            }
            if j != k {
                assert(sound(before[b]));
            }
            if i != k && j != k {
                assert(!before[a].cpu.below(before[b].cpu));
            } else if i == k && j != k {
                assert(before[k].cpu.below(p.cpu));
                assert(!before[k].cpu.below(before[b].cpu));
            } else if j == k && i != k {
                assert(!before[a].cpu.below(p.cpu));
            }
        }
        assert forall|i: int| 0 <= i < after.len() implies sound(#[trigger] after[i]) by {
            if i < k {
                assert(sound(before[i]));
            } else if i > k {
                assert(sound(before[i - 1]));
            }
        }
    }
}

proof fn lemma_entries(raw: Seq<RawProc>, total_memory: u64)
    requires
        forall|i: int| 0 <= i < raw.len() ==> !(#[trigger] raw[i]).cpu.nan(),
    ensures
        forall|i: int|
            0 <= i < entries(raw, total_memory).len() ==> sound(
                #[trigger] entries(raw, total_memory)[i],
            ),
    decreases raw.len(),
{
    if raw.len() > 0 {
        let rest = raw.drop_last();
        let before = entries(rest, total_memory);
        assert forall|i: int| 0 <= i < rest.len() implies !(#[trigger] rest[i]).cpu.nan() by {
            assert(!raw[i].cpu.nan());
        }
        lemma_entries(rest, total_memory);
        let cpu = raw[raw.len() - 1].cpu;
        let ten = num_of(TEN);
        lemma_scaling_keeps_numbers(cpu, ten);
        lemma_scaling_keeps_numbers(cpu.product(ten), ten);
        lemma_scaling_keeps_numbers(cpu.product(ten).nearest_whole(), ten);
        let all = entries(raw, total_memory);
        assert forall|i: int| 0 <= i < all.len() implies sound(#[trigger] all[i]) by {
            if i < before.len() {
                assert(sound(before[i]));
                assert(all[i] == before[i]);
            }
        }
    }
}

/// No two processes have the same number.
pub open spec fn numbers_differ(list: Seq<ProcView>) -> bool {
    forall|i: int, j: int|
        0 <= i < j < list.len() ==> (#[trigger] list[i]).pid != (#[trigger] list[j]).pid
}

proof fn lemma_entries_differ(raw: Seq<RawProc>, total_memory: u64)
    requires
        forall|i: int, j: int|
            0 <= i < j < raw.len() ==> (#[trigger] raw[i]).pid != (#[trigger] raw[j]).pid,
    ensures
        numbers_differ(entries(raw, total_memory)),
        forall|i: int|
            0 <= i < entries(raw, total_memory).len() ==> exists|k: int|
                0 <= k < raw.len() && (#[trigger] raw[k]).pid == (#[trigger] entries(
                    raw,
                    total_memory,
                )[i]).pid,
    decreases raw.len(),
{
    if raw.len() > 0 {
        let rest = raw.drop_last();
        let before = entries(rest, total_memory);
        let all = entries(raw, total_memory);
        assert forall|i: int, j: int| 0 <= i < j < rest.len() implies (#[trigger] rest[i]).pid != (
        #[trigger] rest[j]).pid by {
            assert(raw[i].pid != raw[j].pid);
        }
        lemma_entries_differ(rest, total_memory);
        let last = raw.len() - 1;
        assert forall|i: int| 0 <= i < before.len() implies exists|k: int|
            0 <= k < last && (#[trigger] raw[k]).pid == (#[trigger] before[i]).pid by {
            let k = choose|k: int|
                0 <= k < rest.len() && (#[trigger] rest[k]).pid == before[i].pid;
            assert(raw[k].pid == before[i].pid);
        }
        assert forall|i: int| 0 <= i < all.len() implies exists|k: int|
            0 <= k < raw.len() && (#[trigger] raw[k]).pid == (#[trigger] all[i]).pid by {
            if i < before.len() {
                assert(all[i] == before[i]);
            } else {
                assert(raw[last].pid == all[i].pid);
            }
        }
        assert forall|i: int, j: int| 0 <= i < j < all.len() implies (#[trigger] all[i]).pid != (
        #[trigger] all[j]).pid by {
            assert(all[i] == before[i]);
            if j < before.len() {
                assert(all[j] == before[j]);
            } else {
                assert(all[j].pid == raw[last].pid);
                let k = choose|k: int|
                    0 <= k < last && (#[trigger] raw[k]).pid == before[i].pid;
                assert(raw[k].pid != raw[last].pid);
            }
        }
    }
}

proof fn lemma_ranked_differ(list: Seq<ProcView>)
    requires
        numbers_differ(list),
    ensures
        numbers_differ(ranked(list)),
        forall|i: int|
            0 <= i < ranked(list).len() ==> exists|k: int|
                0 <= k < list.len() && (#[trigger] list[k]).pid == (#[trigger] ranked(list)[i]).pid,
    decreases list.len(),
{
    if list.len() > 0 {
        let rest = list.drop_last();
        assert forall|i: int, j: int| 0 <= i < j < rest.len() implies (#[trigger] rest[i]).pid != (
        #[trigger] rest[j]).pid by {
            assert(list[i].pid != list[j].pid);
        }
        lemma_ranked_differ(rest);
        let before = ranked(rest);
        let p = list.last();
        let last = list.len() - 1;
        lemma_place(before, p.cpu);
        let at = place(before, p.cpu);
        let after = before.insert(at, p);
        assert forall|i: int| 0 <= i < before.len() implies (#[trigger] before[i]).pid != p.pid
            && exists|k: int| 0 <= k < last && (#[trigger] list[k]).pid == before[i].pid by {
            let k = choose|k: int|
                0 <= k < rest.len() && (#[trigger] rest[k]).pid == before[i].pid;
            assert(list[k].pid == before[i].pid);
            assert(list[k].pid != list[last].pid);
        }
        assert forall|i: int| 0 <= i < after.len() implies exists|k: int|
            0 <= k < list.len() && (#[trigger] list[k]).pid == (#[trigger] after[i]).pid by {
            if i < at {
                assert(before[i].pid != p.pid);
            } else if i > at {
                assert(before[i - 1].pid != p.pid);
            } else {
                assert(list[last].pid == after[i].pid);
            }
        }
        assert forall|i: int, j: int| 0 <= i < j < after.len() implies (#[trigger] after[i]).pid
            != (#[trigger] after[j]).pid by {
            if i < at {
                assert(after[i] == before[i]);
            } else if i > at {
                assert(after[i] == before[i - 1]);
            }
            if j < at {
                assert(after[j] == before[j]);
            } else if j > at {
                assert(after[j] == before[j - 1]);
            }
        }
    }
}

/// The list holds at most five processes, ordered by CPU use; it holds all where
/// there are no more, and otherwise no process left out uses more CPU than one on
/// it. Process 0 is not on it. Where the system gives no number twice, the list holds
/// none twice.
pub proof fn law_top_processes(raw: Seq<RawProc>, total_memory: u64)
    requires
        forall|i: int| 0 <= i < raw.len() ==> !(#[trigger] raw[i]).cpu.nan(),
    ensures
        ({
            let shown = top(raw, total_memory);
            let all = entries(raw, total_memory);
            &&& shown.len() == (if all.len() > 5 {
                5
            } else {
                all.len()
            })
            &&& forall|i: int, j: int|
                0 <= i <= j < shown.len() ==> !(#[trigger] shown[i]).cpu.below(
                    (#[trigger] shown[j]).cpu,
                )
            &&& forall|i: int| 0 <= i < shown.len() ==> (#[trigger] shown[i]).pid != 0
            &&& (forall|i: int, j: int|
                0 <= i < j < raw.len() ==> (#[trigger] raw[i]).pid != (#[trigger] raw[j]).pid)
                ==> numbers_differ(shown)
            &&& exists|rest: Seq<ProcView>|
                (#[trigger] (shown + rest)).to_multiset() == all.to_multiset() && forall|i: int, j: int|
                    0 <= i < shown.len() && 0 <= j < rest.len() ==> !(#[trigger] shown[i]).cpu.below(
                        (#[trigger] rest[j]).cpu,
                    )
        }),
{
    let all = entries(raw, total_memory);
    lemma_entries(raw, total_memory);
    lemma_ranked(all);
    let order = ranked(all);
    let shown = top(raw, total_memory);
    let rest = order.skip(shown.len() as int);
    if forall|i: int, j: int|
        0 <= i < j < raw.len() ==> (#[trigger] raw[i]).pid != (#[trigger] raw[j]).pid {
        lemma_entries_differ(raw, total_memory);
        lemma_ranked_differ(all);
        assert forall|i: int, j: int| 0 <= i < j < shown.len() implies (#[trigger] shown[i]).pid
            != (#[trigger] shown[j]).pid by {
            assert(order[i].pid != order[j].pid);
        }
    }
    assert forall|i: int| 0 <= i < shown.len() implies (#[trigger] shown[i]).pid != 0 by {
        assert(sound(order[i]));
    }
    assert(shown + rest == order);
    assert((shown + rest).to_multiset() == all.to_multiset());
    assert forall|i: int, j: int| 0 <= i < shown.len() && 0 <= j < rest.len() implies !(
    #[trigger] shown[i]).cpu.below((#[trigger] rest[j]).cpu) by {
        assert(!order[i].cpu.below(order[j + shown.len()].cpu));
    }
    assert forall|i: int, j: int| 0 <= i <= j < shown.len() implies !(#[trigger] shown[i]).cpu.below(
        (#[trigger] shown[j]).cpu,
    ) by {
        assert(!order[i].cpu.below(order[j].cpu));
    }
}

proof fn lemma_rounded_is_a_number(v: Num, parts: Num)
    requires
        !v.nan(),
        parts.finite(),
        num_of(ZERO).below(parts),
    ensures
        !rounded_to(v, parts).nan(),
{
    lemma_scaling_keeps_numbers(v, parts);
    lemma_scaling_keeps_numbers(v.product(parts), parts);
    lemma_scaling_keeps_numbers(v.product(parts).nearest_whole(), parts);
}

/// Whether a process with CPU use `a`, told of as number `i`, comes before one with CPU
/// use `b`, told of as number `j`.
spec fn comes_before(a: Num, b: Num, i: int, j: int) -> bool {
    b.below(a) || (!a.below(b) && i < j)
}

proof fn lemma_order_grows(order: Seq<int>, cpus: Seq<Num>, at: int, next: int, cpu: Num)
    requires
        order.len() == cpus.len(),
        0 <= at <= order.len(),
        !cpu.nan(),
        forall|i: int| 0 <= i < cpus.len() ==> !(#[trigger] cpus[i]).nan() && order[i] < next,
        forall|i: int| 0 <= i < at ==> !(#[trigger] cpus[i]).below(cpu),
        at < cpus.len() ==> cpus[at].below(cpu),
        forall|i: int, j: int|
            0 <= i < j < order.len() ==> comes_before(
                #[trigger] cpus[i],
                #[trigger] cpus[j],
                order[i],
                order[j],
            ),
    ensures
        forall|i: int, j: int|
            0 <= i < j <= order.len() ==> comes_before(
                #[trigger] cpus.insert(at, cpu)[i],
                #[trigger] cpus.insert(at, cpu)[j],
                order.insert(at, next)[i],
                order.insert(at, next)[j],
            ),
{
    let (all, used) = (order.insert(at, next), cpus.insert(at, cpu));
    assert forall|i: int, j: int| 0 <= i < j <= order.len() implies comes_before(
        #[trigger] used[i],
        #[trigger] used[j],
        all[i],
        all[j],
    ) by {
        if j < at {
            assert(comes_before(cpus[i], cpus[j], order[i], order[j]));
        } else if j == at {
            let a = cpus[i];
            assert(!a.nan() && order[i] < next);
            assert(!a.below(cpu));
        } else if i < at {
            assert(comes_before(cpus[i], cpus[j - 1], order[i], order[j - 1]));
        } else if i == at {
            assert(cpus[at].below(cpu));
            if j - 1 > at {
                assert(comes_before(cpus[at], cpus[j - 1], order[at], order[j - 1]));
            }
        } else {
            assert(comes_before(cpus[i - 1], cpus[j - 1], order[i - 1], order[j - 1]));
        }
    }
}

proof fn lemma_inserted(order: Seq<int>, at: int, next: int)
    requires
        order.no_duplicates(),
        0 <= at <= order.len(),
        !order.contains(next),
    ensures
        order.insert(at, next).no_duplicates(),
        forall|k: int|
            #[trigger] order.insert(at, next).contains(k) <==> k == next || order.contains(k),
{
    let all = order.insert(at, next);
    assert forall|i: int, j: int| 0 <= i < j < all.len() implies all[i] != all[j] by {
        if i < at {
            assert(all[i] == order[i]);
        } else if i > at {
            assert(all[i] == order[i - 1]);
        }
        if j < at {
            assert(all[j] == order[j]);
        } else if j > at {
            assert(all[j] == order[j - 1]);
        }
    }
    assert forall|k: int| #[trigger] all.contains(k) <==> k == next || order.contains(k) by {
        if all.contains(k) {
            let i = all.index_of(k);
            if i < at {
                assert(order[i] == k);
            } else if i > at {
                assert(order[i - 1] == k);
            }
        }
        if order.contains(k) {
            let i = order.index_of(k);
            if i < at {
                assert(all[i] == k);
            } else {
                assert(all[i + 1] == k);
            }
        }
        if k == next {
            assert(all[at] == k);
        }
    }
}

spec fn cpu_uses(list: Seq<ProcView>) -> Seq<Num> {
    list.map_values(|p: ProcView| p.cpu)
}

proof fn lemma_order(raw: Seq<RawProc>, total_memory: u64) -> (order: Seq<int>)
    requires
        forall|i: int| 0 <= i < raw.len() ==> !(#[trigger] raw[i]).cpu.nan(),
    ensures
        order.no_duplicates(),
        forall|k: int| #[trigger] order.contains(k) <==> 0 <= k < raw.len() && raw[k].listed(),
        order.len() == ranked(entries(raw, total_memory)).len(),
        forall|i: int|
            0 <= i < order.len() ==> 0 <= #[trigger] order[i] < raw.len() && ranked(
                entries(raw, total_memory),
            )[i] == raw[order[i]].entry(total_memory),
        ({
            let cpus = cpu_uses(ranked(entries(raw, total_memory)));
            forall|i: int, j: int|
                0 <= i < j < order.len() ==> comes_before(
                    #[trigger] cpus[i],
                    #[trigger] cpus[j],
                    order[i],
                    order[j],
                )
        }),
    decreases raw.len(),
{
    if raw.len() == 0 {
        Seq::empty()
    } else {
        let rest = raw.drop_last();
        let last = raw.len() - 1;
        assert forall|i: int| 0 <= i < rest.len() implies !(#[trigger] rest[i]).cpu.nan() by {
            assert(!raw[i].cpu.nan());
        }
        let before = lemma_order(rest, total_memory);
        let list = ranked(entries(rest, total_memory));
        let cpus = cpu_uses(list);
        if raw[last].listed() {
            let p = raw[last].entry(total_memory);
            lemma_rounded_is_a_number(raw[last].cpu, num_of(TEN));
            lemma_place(list, p.cpu);
            let at = place(list, p.cpu);
            let order = before.insert(at, last);
            assert(entries(raw, total_memory).drop_last() == entries(rest, total_memory));
            assert(ranked(entries(raw, total_memory)) == list.insert(at, p));
            assert forall|i: int| 0 <= i < cpus.len() implies !(#[trigger] cpus[i]).nan()
                && before[i] < last by {
                assert(0 <= before[i] < rest.len());
                assert(!rest[before[i]].cpu.nan());
                lemma_rounded_is_a_number(rest[before[i]].cpu, num_of(TEN));
            }
            assert forall|i: int| 0 <= i < at implies !(#[trigger] cpus[i]).below(p.cpu) by {
                assert(!list[i].cpu.below(p.cpu));
            }
            lemma_order_grows(before, cpus, at, last, p.cpu);
            assert(cpu_uses(list.insert(at, p)) == cpus.insert(at, p.cpu));
            lemma_inserted(before, at, last);
            assert forall|i: int| 0 <= i < order.len() implies 0 <= #[trigger] order[i] < raw.len()
                && list.insert(at, p)[i] == raw[order[i]].entry(total_memory) by {
                if i < at {
                    assert(order[i] == before[i]);
                } else if i > at {
                    assert(order[i] == before[i - 1]);
                }
            }
            order
        } else {
            before
        }
    }
}

/// The processes that count are those with a number other than 0 whose name is neither
/// `system idle process` nor `system interrupts`. Ordered by their CPU use with one
/// place, the largest first and equals in the order of the system, the first five of
/// them are shown, each with its own number, name, CPU use, memory and path.
pub proof fn law_processes_are_ranked(raw: Seq<RawProc>, total_memory: u64) -> (order: Seq<int>)
    requires
        forall|i: int| 0 <= i < raw.len() ==> !(#[trigger] raw[i]).cpu.nan(),
    ensures
        order.no_duplicates(),
        forall|k: int|
            order.contains(k) <==> 0 <= k < raw.len() && (#[trigger] raw[k]).pid != 0 && lowercase(
                sanitized(raw[k].name@),
            ) != "system idle process"@ && lowercase(sanitized(raw[k].name@))
                != "system interrupts"@,
        forall|i: int, j: int|
            0 <= i < j < order.len() ==> {
                let (a, b) = (
                    rounded_to(raw[#[trigger] order[i]].cpu, num_of(TEN)),
                    rounded_to(raw[#[trigger] order[j]].cpu, num_of(TEN)),
                );
                b.below(a) || (!a.below(b) && order[i] < order[j])
            },
        top(raw, total_memory).len() == (if order.len() > 5 {
            5
        } else {
            order.len()
        }),
        forall|i: int|
            0 <= i < top(raw, total_memory).len() ==> {
                let p = #[trigger] top(raw, total_memory)[i];
                let from = raw[order[i]];
                &&& 0 <= order[i] < raw.len()
                &&& p.pid == from.pid
                &&& p.name == sanitized(from.name@)
                &&& p.cpu == rounded_to(from.cpu, num_of(TEN))
                &&& p.mem == memory_share(from.memory, total_memory)
                &&& p.exe is Some <==> from.exe is Some
                &&& from.exe is Some ==> p.exe == Some(sanitized(from.exe->0@))
            },
{
    let order = lemma_order(raw, total_memory);
    let all = ranked(entries(raw, total_memory));
    assert forall|i: int| 0 <= i < top(raw, total_memory).len() implies #[trigger] top(
        raw,
        total_memory,
    )[i] == raw[order[i]].entry(total_memory) && 0 <= order[i] < raw.len() by {
        assert(all[i] == raw[order[i]].entry(total_memory));
    }
    assert forall|i: int, j: int| 0 <= i < j < order.len() implies ({
        let (a, b) = (
            rounded_to(raw[#[trigger] order[i]].cpu, num_of(TEN)),
            rounded_to(raw[#[trigger] order[j]].cpu, num_of(TEN)),
        );
        b.below(a) || (!a.below(b) && order[i] < order[j])
    }) by {
        let cpus = cpu_uses(all);
        assert(comes_before(cpus[i], cpus[j], order[i], order[j]));
    }
    order
}

/// A process with a number other than 0, whose name is neither `system idle process`
/// nor `system interrupts`, is on the list, or the list holds five processes none of
/// which uses less CPU.
pub proof fn law_busy_processes_are_listed(raw: Seq<RawProc>, total_memory: u64, k: int)
    requires
        forall|i: int| 0 <= i < raw.len() ==> !(#[trigger] raw[i]).cpu.nan(),
        0 <= k < raw.len(),
        raw[k].pid != 0,
        lowercase(sanitized(raw[k].name@)) != "system idle process"@,
        lowercase(sanitized(raw[k].name@)) != "system interrupts"@,
    ensures
        ({
            let shown = top(raw, total_memory);
            let cpu = rounded_to(raw[k].cpu, num_of(TEN));
            ||| exists|i: int|
                0 <= i < shown.len() && (#[trigger] shown[i]).pid == raw[k].pid && shown[i].name
                    == sanitized(raw[k].name@) && shown[i].cpu == cpu
            ||| shown.len() == 5 && forall|i: int|
                0 <= i < shown.len() ==> !(#[trigger] shown[i]).cpu.below(cpu)
        }),
{
    let order = law_processes_are_ranked(raw, total_memory);
    let shown = top(raw, total_memory);
    assert(order.contains(k));
    let at = order.index_of(k);
    if at < shown.len() {
        assert(shown[at].pid == raw[k].pid);
    } else {
        assert forall|i: int| 0 <= i < shown.len() implies !(#[trigger] shown[i]).cpu.below(
            rounded_to(raw[k].cpu, num_of(TEN)),
        ) by {
            assert(shown[i].cpu == rounded_to(raw[order[i]].cpu, num_of(TEN)));
            assert(order[at] == k);
        }
    }
}

/// Whoever is on the list runs: it comes from a process with a number other than 0
/// whose name is neither `system idle process` nor `system interrupts`.
pub proof fn law_listed_processes_run(raw: Seq<RawProc>, total_memory: u64, i: int)
    requires
        forall|i: int| 0 <= i < raw.len() ==> !(#[trigger] raw[i]).cpu.nan(),
        0 <= i < top(raw, total_memory).len(),
    ensures
        top(raw, total_memory)[i].pid != 0,
        lowercase(top(raw, total_memory)[i].name) != "system idle process"@,
        lowercase(top(raw, total_memory)[i].name) != "system interrupts"@,
{
    let order = law_processes_are_ranked(raw, total_memory);
    let p = top(raw, total_memory)[i];
    assert(p.pid == raw[order[i]].pid);
    assert(order.contains(order[i]));
}

/// The share of memory of a process grows with its memory, from 0 percent up to 100
/// percent for all of it. Where the size of the memory is not known it is 0.
pub proof fn law_memory_shares(memory: u64, more: u64, total: u64)
    requires
        memory <= more <= total,
    ensures
        memory_share(memory, total).from_zero(),
        memory_share(memory, total).at_most(memory_share(more, total)),
        memory_share(more, total).at_most(num_of(HUNDRED)),
        memory_share(0, total) == num_of(ZERO),
        total > 0 ==> memory_share(total, total) == num_of(HUNDRED),
        memory_share(memory, 0) == num_of(ZERO),
{
    lemma_zero_rounds(num_of(HUNDRED));
    if total > 0 {
        lemma_share(0, memory, total);
        lemma_share(memory, more, total);
        lemma_share(more, total, total);
    }
}

// --- Temperature -------------------------------------------------------------

/// Degrees Celsius from tenths of a degree Kelvin, with one place, where they lie
/// in the range of a working machine.
pub open spec fn celsius_of(kelvin_x10: u32) -> Option<Num> {
    let celsius = of_whole(kelvin_x10 as nat).quotient(num_of(TEN)).difference(num_of(KELVIN));
    if num_of(ZERO).at_most(celsius) && celsius.at_most(num_of(HUNDRED_TWENTY)) {
        Some(rounded_to(celsius, num_of(TEN)))
    } else {
        None
    }
}

/// The temperature of the first of the thermal zones, in tenths of a degree
/// Kelvin each.
pub fn read_acpi_temp(zones: &Vec<u32>) -> (r: Option<Num>)
    ensures
        r == (if zones.len() > 0 {
            celsius_of(zones@[0])
        } else {
            None
        }),
{
    if zones.len() == 0 {
        return None;
    }
    let celsius = whole(zones[0] as u64).over(num(TEN)).minus(num(KELVIN));
    if celsius.ge(num(ZERO)) && celsius.le(num(HUNDRED_TWENTY)) {
        Some(round1(celsius))
    } else {
        None
    }
}

pub open spec fn temp_status(found: bool, elevated: bool) -> Seq<char> {
    if found {
        "ok"@
    } else if !elevated {
        "admin"@
    } else {
        "none"@
    }
}

/// The state of the temperature. Without data and without the rights of an
/// administrator it stays open which of the two is missing.
pub fn temp_state(celsius: Option<Num>, elevated: bool) -> (r: TempState)
    ensures
        r.celsius == (match celsius {
            Some(c) => c,
            None => num_of(MINUS_ONE),
        }),
        r.status@ == temp_status(celsius is Some, elevated),
{
    match celsius {
        Some(c) => TempState { celsius: c, status: "ok".to_owned() },
        None => TempState {
            celsius: num(MINUS_ONE),
            status: if !elevated {
                "admin".to_owned()
            } else {
                "none".to_owned()
            },
        },
    }
}

// --- Graphics card -----------------------------------------------------------

/// A graphics card as the system tells of it.
pub struct VideoController {
    pub name: Option<String>,
    /// Bytes.
    pub adapter_ram: Option<u64>,
    pub driver_version: Option<String>,
}

impl VideoController {
    pub open spec fn has_name(self) -> bool {
        self.name is Some && self.name->0@.len() > 0
    }

    pub open spec fn info(self) -> GpuInfoView {
        GpuInfoView {
            ok: true,
            model: self.name->0@,
            vendor: ""@,
            vram_mb: match self.adapter_ram {
                Some(bytes) => Some((bytes / 1_048_576) as u64),
                None => None,
            },
            driver: match self.driver_version {
                Some(version) => version@,
                None => ""@,
            },
        }
    }
}

/// The data of the first card with a name.
pub open spec fn gpu_info_of(cards: Seq<VideoController>) -> GpuInfoView
    decreases cards.len(),
{
    if cards.len() == 0 {
        GpuInfoView { ok: false, model: "GPU"@, vendor: ""@, vram_mb: None, driver: ""@ }
    } else if cards[0].has_name() {
        cards[0].info()
    } else {
        gpu_info_of(cards.drop_first())
    }
}

/// The data of the first graphics card with a name. Where the system tells of no
/// card, there is a stand-in that says so.
pub fn read_gpu_info(cards: &Vec<VideoController>) -> (r: GpuInfo)
    ensures
        r@ == gpu_info_of(cards@),
{
    let mut i: usize = 0;
    assert(cards@.skip(0) == cards@);
    while i < cards.len()
        invariant
            i <= cards.len(),
            gpu_info_of(cards@) == gpu_info_of(cards@.skip(i as int)),
        decreases cards.len() - i,
    {
        let card = &cards[i];
        assert(cards@.skip(i as int)[0] == *card);
        assert(cards@.skip(i as int).drop_first() == cards@.skip(i + 1));
        match &card.name {
            Some(name) => {
                if chars_of(name.as_str()).len() > 0 {
                    return GpuInfo {
                        ok: true,
                        model: name.clone(),
                        vendor: "".to_owned(),
                        vram_mb: match card.adapter_ram {
                            Some(bytes) => Some(bytes / 1_048_576),
                            None => None,
                        },
                        driver: match &card.driver_version {
                            Some(version) => version.clone(),
                            None => "".to_owned(),
                        },
                    };
                }
            },
            None => {},
        }
        i = i + 1;
    }
    GpuInfo {
        ok: false,
        model: "GPU".to_owned(),
        vendor: "".to_owned(),
        vram_mb: None,
        driver: "".to_owned(),
    }
}

/// The zero of Celsius lies at 273.15 Kelvin, to the digits that a reading has.
proof fn lemma_kelvin()
    ensures
        num_of(KELVIN).from_zero(),
        unit() == 0x1000_0000_0000 * pow2(1030),
        pow2(1030) > 0,
        pow2(1031) == 2 * pow2(1030),
        -100 * pow2(1030) <= 100 * num_of(KELVIN).size() - 27315 * unit() <= 100 * pow2(1030),
        0 <= num_of(KELVIN).size() <= 512 * unit(),
{
    lemma_pow2_pos(1030);
    lemma2_to64();
    lemma2_to64_rest();
    vstd::arithmetic::power2::lemma_pow2_adds(44, 1030);
    vstd::arithmetic::power2::lemma_pow2_unfold(1031);
    let f = 0x10_0000_0000_0000int;
    assert(KELVIN as int / f == 1031 && KELVIN as int % f == 0x1126666666666);
    let g = pow2(1030) as int;
    let m = 0x1126666666666 + f;
    assert(num_of(KELVIN).size() == m * g);
    assert(-100 * g <= 100 * (m * g) - 27315 * (0x1000_0000_0000 * g) <= 100 * g)
        by (nonlinear_arith)
        requires
            g > 0,
            m == 0x11126666666666,
    ;
    assert(0 <= m * g <= 512 * (0x1000_0000_0000 * g)) by (nonlinear_arith)
        requires
            g > 0,
            m == 0x11126666666666,
    ;
}

/// Degrees, before they are rounded, are tenths of Kelvin less 2731.5, to the digits that
/// a reading has.
proof fn lemma_celsius_near(k: u32)
    requires
        k <= 4000,
    ensures
        ({
            let c = of_whole(k as nat).quotient(num_of(TEN)).difference(num_of(KELVIN));
            &&& c.finite()
            &&& -600 * pow2(1030) <= 200 * c.value() - (20 * k - 54630) * unit() <= 600 * pow2(1030)
        }),
{
    let (u, g, ten) = (unit(), pow2(1030) as int, num_of(TEN));
    let x = of_whole(k as nat);
    lemma_kelvin();
    lemma_named_patterns();
    lemma_whole_exact(k as nat);
    lemma2_to64();
    lemma2_to64_rest();
    assert(pow2(9) == 512 && pow2(43) == 0x800_0000_0000);
    assert(k * u <= (10 * u) * 512) by (nonlinear_arith)
        requires
            k <= 4000,
            u > 0,
    ;
    lemma_quotient_near(x, ten, 9);
    let q = x.quotient(ten);
    let d = 10 * q.size() - k * u;
    assert(-(10 * u) <= 0x1000_0000_0000 * d <= 10 * u) by (nonlinear_arith)
        requires
            -(10 * u) * u <= 2 * (0x800_0000_0000 * (q.size() * (10 * u) - (k * u) * u)) <= (10 * u)
                * u,
            d == 10 * q.size() - k * u,
            u > 0,
    ;
    assert(-10 * g <= d <= 10 * g);
    let kelvin = num_of(KELVIN);
    let exact = q.size() - kelvin.size();
    assert(kelvin.negated().value() == -kelvin.size() && kelvin.negated().finite());
    let c = q.difference(kelvin);
    let n = if exact < 0 {
        -exact
    } else {
        exact
    };
    lemma2_to64_rest();
    vstd::arithmetic::power2::lemma_pow2_adds(52, 1031);
    vstd::arithmetic::power2::lemma_pow2_adds(9, 1074);
    assert(0x10_0000_0000_0000 * pow2(1031) == 512 * u);
    if q.magnitude() > 0 {
        crate::num::lemma_size_grows(0, q.magnitude());
    }
    assert(0 <= n <= 1 * (0x10_0000_0000_0000 * pow2(1031)));
    crate::rounding::lemma_rounding_error(n, 1, 1031);
    if exact == 0 {
        assert(c.value() == 0);
    } else if exact < 0 {
        assert(c.value() == -crate::num::size_of_pattern(crate::rounding::rounded(n, 1)));
    } else {
        assert(c.value() == crate::num::size_of_pattern(crate::rounding::rounded(n, 1)));
    }
    let e = c.value() - exact;
    assert(-g <= e <= g);
    assert((20 * k - 54630) * u == 20 * (k * u) - 54630 * u) by (nonlinear_arith);
}

/// A temperature is told where it lies between 0 and 120 degrees, which is from 2732 to
/// 3931 tenths of Kelvin: that many tenths less 2731.5, which is halfway between two
/// tenths of a degree, and one of the two is told.
pub proof fn law_temperature(k: u32)
    ensures
        celsius_of(k) is Some <==> 2732 <= k <= 3931,
        celsius_of(k) is Some ==> celsius_of(k)->0 == of_whole((k - 2732) as nat).quotient(
            of_whole(10),
        ) || celsius_of(k)->0 == of_whole((k - 2731) as nat).quotient(of_whole(10)),
{
    let (u, g, ten) = (unit(), pow2(1030) as int, num_of(TEN));
    lemma_kelvin();
    lemma_named_patterns();
    lemma_named_wholes();
    let least = if k <= 4000 {
        k
    } else {
        4000u32
    };
    lemma_celsius_near(least);
    let near = of_whole(least as nat).quotient(ten).difference(num_of(KELVIN));
    law_order_is_numeric(num_of(ZERO), near);
    law_order_is_numeric(near, num_of(HUNDRED_TWENTY));
    assert((20 * least - 54630) * u == 20 * (least * u) - 54630 * u) by (nonlinear_arith);
    assert(0 <= least * u) by (nonlinear_arith)
        requires
            u > 0,
            least >= 0,
    ;
    if k <= 2731 {
        assert(k * u <= 2731 * u) by (nonlinear_arith)
            requires
                k <= 2731,
                u > 0,
        ;
    } else if k <= 3931 {
        assert(2732 * u <= k * u <= 3931 * u) by (nonlinear_arith)
            requires
                2732 <= k <= 3931,
                u > 0,
        ;
        lemma_tenths_of_degrees(near, (k - 2732) as nat);
    } else {
        assert(least * u >= 3932 * u) by (nonlinear_arith)
            requires
                least >= 3932,
                u > 0,
        ;
        if k > 4000 {
            lemma_hotter(k);
        }
    }
}

proof fn lemma_hotter(k: u32)
    requires
        k >= 4000,
    ensures
        ({
            let ten = num_of(TEN);
            let a = of_whole(4000).quotient(ten).difference(num_of(KELVIN));
            let b = of_whole(k as nat).quotient(ten).difference(num_of(KELVIN));
            num_of(HUNDRED_TWENTY).below(a) ==> num_of(HUNDRED_TWENTY).below(b)
        }),
{
    let (u, ten, kelvin) = (unit(), num_of(TEN), num_of(KELVIN));
    lemma_kelvin();
    lemma_named_patterns();
    lemma_whole_exact(k as nat);
    lemma_whole_exact(4000);
    lemma2_to64();
    lemma2_to64_rest();
    assert(pow2(32) == 0x1_0000_0000);
    assert(k * u <= (10 * u) * 0x1_0000_0000) by (nonlinear_arith)
        requires
            k <= 0x1_0000_0000,
            u > 0,
    ;
    lemma_quotient_near(of_whole(k as nat), ten, 32);
    lemma_whole_grows(4000, k as u64);
    lemma_quotient_grows(of_whole(4000), of_whole(k as nat), ten);
    let (p, q) = (of_whole(4000).quotient(ten), of_whole(k as nat).quotient(ten));
    law_order_is_numeric(p, q);
    assert(kelvin.negated().value() == -kelvin.size() && kelvin.negated().finite());
    let (a, b) = (p.difference(kelvin), q.difference(kelvin));
    let (x, y) = (p.value() - kelvin.size(), q.value() - kelvin.size());
    if num_of(HUNDRED_TWENTY).below(a) {
        lemma_rounded_is_nearest(-x, 1);
        assert(x > 0);
        lemma_rounded_grows(x, 1, y, 1);
        lemma_rounded_is_nearest(x, 1);
        lemma_rounded_is_nearest(y, 1);
    }
}

proof fn lemma_tenths_of_degrees(c: Num, n: nat)
    requires
        n <= 1199,
        c.finite(),
        c.value() > 0,
        -600 * pow2(1030) <= 200 * c.value() - (20 * (n + 2732) - 54630) * unit() <= 600 * pow2(
            1030,
        ),
        unit() == 0x1000_0000_0000 * pow2(1030),
        pow2(1030) > 0,
    ensures
        rounded_to(c, num_of(TEN)) == of_whole(n).quotient(of_whole(10)) || rounded_to(
            c,
            num_of(TEN),
        ) == of_whole((n + 1) as nat).quotient(of_whole(10)),
{
    let (u, g, ten, s) = (unit(), pow2(1030) as int, num_of(TEN), c.size());
    lemma_named_patterns();
    lemma_named_wholes();
    lemma2_to64();
    lemma2_to64_rest();
    if c.magnitude() > 0 {
        crate::num::lemma_size_grows(0, c.magnitude());
    }
    assert(!c.negative() && c.value() == s);
    assert((20 * (n + 2732) - 54630) * u == 20 * (n * u) + 10 * u) by (nonlinear_arith);
    assert(n * u <= 1199 * u) by (nonlinear_arith)
        requires
            n <= 1199,
            u > 0,
    ;
    assert(pow2(11) == 2048 && pow2(41) == 0x200_0000_0000);
    assert(s <= 128 * u);
    assert(s * (10 * u) <= u * (2048 * u)) by (nonlinear_arith)
        requires
            s <= 128 * u,
            u > 0,
    ;
    lemma_product_near(c, ten, 11);
    let p = c.product(ten);
    let e = p.size() - 10 * s;
    assert(-u <= 0x400_0000_0000 * e <= u) by (nonlinear_arith)
        requires
            -u * u <= 2 * (0x200_0000_0000 * (p.size() * u - s * (10 * u))) <= u * u,
            e == p.size() - 10 * s,
            u > 0,
    ;
    let w = crate::arith::lemma_whole_near(p);
    assert(-u <= 2 * (w * u - p.size()) <= u);
    assert(-4 * u < 4 * (w * u) - 4 * (n * u) < 8 * u);
    assert(w == n || w == n + 1) by (nonlinear_arith)
        requires
            -4 * u < 4 * (w * u) - 4 * (n * u) < 8 * u,
            u > 0,
    ;
}

/// Without data the state says whether the rights of an administrator are missing.
pub proof fn law_temp_status(found: bool, elevated: bool)
    ensures
        temp_status(found, elevated) == "ok"@ <==> found,
        temp_status(found, elevated) == "admin"@ <==> !found && !elevated,
        temp_status(found, elevated) == "none"@ <==> !found && elevated,
{
    reveal_strlit("ok");
    reveal_strlit("admin");
    reveal_strlit("none");
    assert("ok"@[0] == 'o' && "admin"@[0] == 'a' && "none"@[0] == 'n');
}

/// What is told of the graphics cards is that of the first with a name: the name, its
/// memory in units of 2 to the power of 20 bytes, and its driver. Where no card has a
/// name, there is a stand-in.
pub proof fn law_first_card_is_told(cards: Seq<VideoController>, i: int)
    requires
        0 <= i < cards.len(),
        forall|j: int|
            0 <= j < i ==> (#[trigger] cards[j]).name is None || cards[j].name->0@.len() == 0,
    ensures
        ({
            let told = gpu_info_of(cards);
            &&& cards[i].name is Some && cards[i].name->0@.len() > 0 ==> {
                &&& told.ok
                &&& told.model == cards[i].name->0@
                &&& told.vendor == ""@
                &&& told.vram_mb is Some <==> cards[i].adapter_ram is Some
                &&& cards[i].adapter_ram is Some ==> told.vram_mb->0 * 0x10_0000
                    <= cards[i].adapter_ram->0 < (told.vram_mb->0 + 1) * 0x10_0000
                &&& cards[i].driver_version is Some ==> told.driver == cards[i].driver_version->0@
                &&& cards[i].driver_version is None ==> told.driver == ""@
            }
            &&& i == cards.len() - 1 && (cards[i].name is None || cards[i].name->0@.len() == 0)
                ==> !told.ok && told.model == "GPU"@ && told.vram_mb is None
        }),
    decreases i,
{
    if i > 0 {
        assert(!cards[0].has_name());
        let rest = cards.drop_first();
        assert forall|j: int| 0 <= j < i - 1 implies (#[trigger] rest[j]).name is None
            || rest[j].name->0@.len() == 0 by {
            assert(rest[j] == cards[j + 1]);
        }
        law_first_card_is_told(rest, i - 1);
    } else {
        let rest = cards.drop_first();
        assert(rest.len() == cards.len() - 1);
        assert(rest.len() == 0 ==> !gpu_info_of(rest).ok && gpu_info_of(rest).model == "GPU"@
            && gpu_info_of(rest).vram_mb is None);
    }
}

/// The share of memory of a process is its memory in a hundred parts of all, to hardly
/// more than half of the second place.
pub proof fn law_memory_share_is_near(memory: u64, total: u64)
    requires
        memory <= total,
        0 < total < 0x20_0000_0000_0000,
    ensures
        ({
            let (share, u) = (memory_share(memory, total), unit());
            -(total as int) * u <= 100 * (share.size() * total - 100 * memory * u) <= total * u
        }),
{
    let (m, t, u) = (memory as int, total as int, unit());
    lemma_named_wholes();
    lemma_pow2_pos(1074);
    lemma_ratio_near(memory as nat, total as nat);
    let p = of_whole(memory as nat).quotient(of_whole(total as nat)).product(num_of(HUNDRED));
    law_rounding_is_near(p, 100);
    let share = memory_share(memory, total);
    let (d, e) = (p.size() * t - 100 * m * u, share.size() - p.size());
    assert(-55 * u <= 100 * (100 * e) <= 55 * u);
    assert(-55 * (t * u) <= 10000 * (e * t) <= 55 * (t * u)) by (nonlinear_arith)
        requires
            -55 * u <= 100 * (100 * e) <= 55 * u,
            t > 0,
    ;
    assert(share.size() * t - 100 * m * u == d + e * t) by (nonlinear_arith)
        requires
            d == p.size() * t - 100 * m * u,
            e == share.size() - p.size(),
    ;
    assert(-t * u == -(t * u)) by (nonlinear_arith);
    let (w, y) = (t * u, e * t);
    assert(-w <= 100 * (d + y) <= w);
}

/// Every figure of the snapshot is that of the sample, with one place or two: CPU use, the
/// memory in use and all memory in units of 2 to the power of 30 bytes, and the bytes
/// per second of the interface that is shown.
pub proof fn law_snapshot_rounds_the_sample(
    raw: RawStats,
    celsius: Num,
    status: Seq<char>,
    gpu: i32,
    read: i64,
    write: i64,
)
    ensures
        ({
            let s = measured(raw, celsius, status, gpu, read, write);
            let (all, free) = (
                of_whole(raw.total_memory as nat),
                of_whole(raw.available_memory as nat),
            );
            let (ten, hundred, gib) = (of_whole(10), of_whole(100), of_whole(0x4000_0000));
            &&& s.cpu == rounded_to(raw.cpu, ten)
            &&& s.memory.total_gb == rounded_to(all.quotient(gib), hundred)
            &&& raw.available_memory <= raw.total_memory ==> s.memory.used_gb == rounded_to(
                all.difference(free).quotient(gib),
                hundred,
            )
            &&& raw.available_memory > raw.total_memory && raw.available_memory
                < 0x20_0000_0000_0000 ==> s.memory.used_gb == num_of(ZERO)
            &&& match picked(raw.networks@, raw.elapsed) {
                Some(k) => s.rx_bytes_sec == rounded_to(
                    of_whole(raw.networks@[k].received as nat).quotient(raw.elapsed),
                    ten,
                ) && s.tx_bytes_sec == rounded_to(
                    of_whole(raw.networks@[k].transmitted as nat).quotient(raw.elapsed),
                    ten,
                ),
                None => true,
            }
        }),
{
    lemma_named_wholes();
    let (all, free) = (of_whole(raw.total_memory as nat), of_whole(raw.available_memory as nat));
    if raw.available_memory <= raw.total_memory {
        lemma_whole_grows(raw.available_memory, raw.total_memory);
        lemma_difference_range(all, free);
    } else if raw.available_memory < 0x20_0000_0000_0000 {
        let (a, b) = (raw.total_memory as int, raw.available_memory as int);
        crate::arith::law_integer_arithmetic(a, b);
        crate::arith::lemma_integer_exact(a - b);
        assert(used_memory(raw.total_memory, raw.available_memory) == num_of(ZERO)) by {
            assert(all.difference(free) == of_integer(a - b));
            lemma_whole_exact((b - a) as nat);
        }
        lemma_named_patterns();
        let u = unit();
        assert(0 * u == 0 * (0x4000_0000 * u)) by (nonlinear_arith);
        lemma_exact_scaling(num_of(ZERO), num_of(GIBI), num_of(ZERO));
        lemma_zero_rounds(num_of(HUNDRED));
    }
}

/// Seconds are told to the nanosecond, from a thousandth of a second on.
pub proof fn law_seconds_are_exact(nanos: nat)
    requires
        1_000_002 <= nanos < 0x4_0000_0000_0000,
    ensures
        seconds(nanos).from_zero(),
        -unit() <= seconds(nanos).size() * 1_000_000_000 - nanos * unit() <= unit(),
{
    let (w, r, u, b) = (
        nanos / 1_000_000_000,
        nanos % 1_000_000_000,
        unit(),
        num_of(BILLION),
    );
    lemma_named_patterns();
    lemma_pow2_pos(1074);
    lemma2_to64();
    lemma2_to64_rest();
    lemma_whole_exact(w);
    lemma_whole_exact(r);
    assert(w < 0x20_0000);
    assert(pow2(0) == 1 && pow2(52) == 0x10_0000_0000_0000);
    assert(r * u <= (1_000_000_000 * u) * 1) by (nonlinear_arith)
        requires
            r <= 1_000_000_000,
            u > 0,
    ;
    lemma_quotient_near(of_whole(r), b, 0);
    let q = of_whole(r).quotient(b);
    let d = q.size() * 1_000_000_000 - r * u;
    assert(-1_000_000_000 * u <= 0x20_0000_0000_0000 * d <= 1_000_000_000 * u) by (nonlinear_arith)
        requires
            -(1_000_000_000 * u) * u <= 2 * (0x10_0000_0000_0000 * (q.size() * (1_000_000_000 * u)
                - (r * u) * u)) <= (1_000_000_000 * u) * u,
            d == q.size() * 1_000_000_000 - r * u,
            u > 0,
    ;
    let exact = w * u + q.size();
    if q.magnitude() > 0 {
        crate::num::lemma_size_grows(0, q.magnitude());
    }
    assert(0 <= w * u <= 0x1f_ffff * u) by (nonlinear_arith)
        requires
            0 <= w <= 0x1f_ffff,
            u > 0,
    ;
    vstd::arithmetic::power2::lemma_pow2_adds(52, 1043);
    vstd::arithmetic::power2::lemma_pow2_adds(21, 1074);
    vstd::arithmetic::power2::lemma_pow2_adds(31, 1043);
    let g = pow2(1043) as int;
    assert(u == 0x8000_0000 * g);
    assert(0x10_0000_0000_0000 * g == 0x20_0000 * u);
    crate::rounding::lemma_rounding_error(exact, 1, 1043);
    let sum = of_whole(w).sum(q);
    assert(w * u * 1_000_000_000 + r * u == nanos * u) by (nonlinear_arith)
        requires
            nanos == w * 1_000_000_000 + r,
    ;
    assert(nanos * u >= 1_000_002 * u) by (nonlinear_arith)
        requires
            nanos >= 1_000_002,
            u > 0,
    ;
    assert(exact * 1_000_000_000 - nanos * u == d) by (nonlinear_arith)
        requires
            exact == w * u + q.size(),
            w * u * 1_000_000_000 + r * u == nanos * u,
            d == q.size() * 1_000_000_000 - r * u,
    ;
    assert(exact > 0);
    lemma_rounded_is_nearest(exact, 1);
    assert(sum.from_zero() && -g <= 2 * (sum.size() - exact) <= g);
    lemma_milli();
    law_order_is_numeric(num_of(MILLI), sum);
}

/// A thousandth of a second, to the digits that a reading has.
proof fn lemma_milli()
    ensures
        num_of(MILLI).from_zero(),
        1_000_000_000 * num_of(MILLI).size() <= 1_000_001 * unit(),
{
    lemma2_to64();
    lemma2_to64_rest();
    lemma_pow2_pos(1012);
    vstd::arithmetic::power2::lemma_pow2_adds(62, 1012);
    let f = 0x10_0000_0000_0000int;
    assert(MILLI as int / f == 1013 && MILLI as int % f == 0x624dd2f1a9fc);
    let (g, m) = (pow2(1012) as int, f + 0x624dd2f1a9fc);
    assert(num_of(MILLI).size() == m * g);
    assert(1_000_000_000 * (m * g) <= 1_000_001 * (0x4000_0000_0000_0000 * g)) by (nonlinear_arith)
        requires
            m == 0x10624dd2f1a9fc,
            g > 0,
    ;
}

/// How often what is measured: the snapshot every 2.5 seconds, the list of processes
/// every ten, the temperature every minute.
pub proof fn law_intervals()
    ensures
        STATS_INTERVAL == 2500,
        PROC_INTERVAL == 10_000,
        PROC_IDLE_POLL == 2000,
        TEMP_INTERVAL == 60_000,
{
}

} // verus!
