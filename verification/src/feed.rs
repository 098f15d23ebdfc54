//! The feeds of performance counters: `typeperf` runs beside the widget and writes
//! a line of values every two seconds.

use vstd::arithmetic::power2::{lemma2_to64, lemma2_to64_rest, lemma_pow2_pos, pow2};
use vstd::prelude::*;
use crate::arith::{law_whole_part, lemma_product_near, lemma_whole_exact, lemma_whole_near, of_whole, unit};
use crate::csv::{disk_line_value, gpu_line_value, header_types, is_header, law_gpu_percent_in_range, parse_disk_csv_line, parse_gpu_csv_line, parse_header, starts_table};
use crate::digits::{decimal, decimal_text};
use crate::metrics::{AppState, NO_DISK, NO_GPU};
use crate::num::{law_order_is_numeric, lemma_named_patterns, lemma_size_grows, num, num_of, Num, HUNDRED, TEN, THOUSAND};
use crate::sampler::lemma_rounded_percent;
use crate::text::{chars_of, from_utf8_lossy, utf8_text, views};

verus! {

/// How often a feed that has ended is started again.
pub const MAX_RESTARTS: u32 = 3;

/// Milliseconds before a feed that has ended is started again.
pub const RESTART_DELAY: u64 = 10_000;

/// Milliseconds between two looks whether a hidden window can be seen again.
pub const PAUSE_POLL: u64 = 500;

/// Seconds between two lines of values.
pub const FEED_SECONDS: u32 = 2;

// --- Course of a feed --------------------------------------------------------

#[derive(Clone, Copy, Debug, PartialEq, Eq, Structural)]
pub enum Phase {
    /// The program is being started.
    Starting,
    /// The program runs; whether its next line is wanted is not yet known.
    Gated,
    /// A line of the program is being read.
    Reading,
    /// The feed is over.
    Stopped,
}

#[derive(Clone, Copy, Debug, PartialEq, Eq, Structural)]
pub struct Feed {
    pub phase: Phase,
    pub restarts: u32,
    /// Whether the program is suspended. The system counts suspensions, so that
    /// each needs a resumption of its own.
    pub suspended: bool,
}

/// What happens to a feed.
#[derive(Clone, Copy, Debug, PartialEq, Eq, Structural)]
pub enum FeedEvent {
    /// The program was started.
    Started,
    /// The program could not be started.
    Failed,
    /// A look whether the window can be seen.
    Looked { visible: bool },
    /// A line was read.
    Line,
    /// The program closed its output.
    Closed,
}

/// What a feed asks for.
#[derive(Clone, Copy, Debug, PartialEq, Eq, Structural)]
pub enum FeedAction {
    Start,
    Suspend,
    Resume,
    Sleep { millis: u64 },
    Look,
    ReadLine,
    /// End the program, if it still runs, and collect it.
    Reap,
    /// Put the value for no data in place of the last value.
    ClearData,
}

pub open spec fn new_feed() -> Feed {
    Feed { phase: Phase::Starting, restarts: 0, suspended: false }
}

impl Feed {
    /// Only a feed that waits for the window is suspended, and the restarts are
    /// numbered.
    pub open spec fn wf(self) -> bool {
        &&& self.restarts <= MAX_RESTARTS
        &&& self.suspended ==> self.phase == Phase::Gated
    }

    pub open spec fn after(self, event: FeedEvent) -> Feed {
        match (self.phase, event) {
            (Phase::Starting, FeedEvent::Started) => Feed { phase: Phase::Gated, ..self },
            (Phase::Starting, FeedEvent::Failed) => Feed { phase: Phase::Stopped, ..self },
            (Phase::Gated, FeedEvent::Looked { visible }) => if visible {
                Feed { phase: Phase::Reading, suspended: false, ..self }
            } else {
                Feed { suspended: true, ..self }
            },
            (Phase::Reading, FeedEvent::Line) => Feed { phase: Phase::Gated, ..self },
            (Phase::Reading, FeedEvent::Closed) => if self.restarts >= MAX_RESTARTS {
                Feed { phase: Phase::Stopped, ..self }
            } else {
                Feed { phase: Phase::Starting, restarts: (self.restarts + 1) as u32, ..self }
            },
            _ => self,
        }
    }

    pub open spec fn actions(self, event: FeedEvent) -> Seq<FeedAction> {
        match (self.phase, event) {
            (Phase::Starting, FeedEvent::Started) => seq![FeedAction::Look],
            (Phase::Starting, FeedEvent::Failed) => seq![FeedAction::ClearData],
            (Phase::Gated, FeedEvent::Looked { visible }) => if visible {
                if self.suspended {
                    seq![FeedAction::Resume, FeedAction::ReadLine]
                } else {
                    seq![FeedAction::ReadLine]
                }
            } else if self.suspended {
                seq![FeedAction::Sleep { millis: PAUSE_POLL }, FeedAction::Look]
            } else {
                seq![
                    FeedAction::Suspend,
                    FeedAction::Sleep { millis: PAUSE_POLL },
                    FeedAction::Look,
                ]
            },
            (Phase::Reading, FeedEvent::Line) => seq![FeedAction::Look],
            (Phase::Reading, FeedEvent::Closed) => if self.restarts >= MAX_RESTARTS {
                seq![FeedAction::Reap, FeedAction::ClearData]
            } else {
                seq![
                    FeedAction::Reap,
                    FeedAction::Sleep { millis: RESTART_DELAY },
                    FeedAction::Start,
                ]
            },
            _ => Seq::empty(),
        }
    }

    /// A feed whose program is to be started.
    pub fn new() -> (r: Feed)
        ensures
            r == new_feed(),
            r.wf(),
    {
        Feed { phase: Phase::Starting, restarts: 0, suspended: false }
    }

    /// Takes an event in and says what is to be done, in this order. Before each line
    /// comes a look at the window: while it is hidden the program is suspended, once,
    /// and it is resumed once when the window can be seen again. A program that ends
    /// is started again, a few times.
    pub fn step(&mut self, event: FeedEvent) -> (r: Vec<FeedAction>)
        requires
            old(self).wf(),
        ensures
            *final(self) == old(self).after(event),
            r@ == old(self).actions(event),
            final(self).wf(),
    {
        let mut out: Vec<FeedAction> = Vec::new();
        match (self.phase, event) {
            (Phase::Starting, FeedEvent::Started) => {
                self.phase = Phase::Gated;
                out.push(FeedAction::Look);
            },
            (Phase::Starting, FeedEvent::Failed) => {
                self.phase = Phase::Stopped;
                out.push(FeedAction::ClearData);
            },
            (Phase::Gated, FeedEvent::Looked { visible }) => {
                if visible {
                    if self.suspended {
                        out.push(FeedAction::Resume);
                        self.suspended = false;
                    }
                    self.phase = Phase::Reading;
                    out.push(FeedAction::ReadLine);
                } else {
                    if !self.suspended {
                        out.push(FeedAction::Suspend);
                        self.suspended = true;
                    }
                    out.push(FeedAction::Sleep { millis: PAUSE_POLL });
                    out.push(FeedAction::Look);
                }
            },
            (Phase::Reading, FeedEvent::Line) => {
                self.phase = Phase::Gated;
                out.push(FeedAction::Look);
            },
            (Phase::Reading, FeedEvent::Closed) => {
                out.push(FeedAction::Reap);
                if self.restarts >= MAX_RESTARTS {
                    self.phase = Phase::Stopped;
                    out.push(FeedAction::ClearData);
                } else {
                    self.restarts = self.restarts + 1;
                    self.phase = Phase::Starting;
                    out.push(FeedAction::Sleep { millis: RESTART_DELAY });
                    out.push(FeedAction::Start);
                }
            },
            _ => {},
        }
        assert(out@ == old(self).actions(event));
        out
    }
}

/// A feed after a row of events.
pub open spec fn feed_after(events: Seq<FeedEvent>) -> Feed
    decreases events.len(),
{
    if events.len() == 0 {
        new_feed()
    } else {
        feed_after(events.drop_last()).after(events.last())
    }
}

/// Everything that a feed has asked for over a row of events, from its first start
/// on.
pub open spec fn asked(events: Seq<FeedEvent>) -> Seq<FeedAction>
    decreases events.len(),
{
    if events.len() == 0 {
        seq![FeedAction::Start]
    } else {
        asked(events.drop_last()) + feed_after(events.drop_last()).actions(events.last())
    }
}

/// How often an action stands in a row.
pub open spec fn count(actions: Seq<FeedAction>, action: FeedAction) -> nat
    decreases actions.len(),
{
    if actions.len() == 0 {
        0
    } else {
        count(actions.drop_last(), action) + if actions.last() == action {
            1nat
        } else {
            0nat
        }
    }
}

proof fn lemma_count_more(a: Seq<FeedAction>, b: Seq<FeedAction>, action: FeedAction)
    ensures
        count(a + b, action) == count(a, action) + count(b, action),
    decreases b.len(),
{
    if b.len() == 0 {
        assert(a + b == a);
    } else {
        assert((a + b).drop_last() == a + b.drop_last());
        lemma_count_more(a, b.drop_last(), action);
    }
}

proof fn lemma_count_step(events: Seq<FeedEvent>, action: FeedAction)
    requires
        events.len() > 0,
    ensures
        count(asked(events), action) == count(asked(events.drop_last()), action) + count(
            feed_after(events.drop_last()).actions(events.last()),
            action,
        ),
{
    lemma_count_more(
        asked(events.drop_last()),
        feed_after(events.drop_last()).actions(events.last()),
        action,
    );
}

spec fn one_if(condition: bool) -> nat {
    if condition {
        1
    } else {
        0
    }
}

proof fn lemma_count_few(a: FeedAction, b: FeedAction, c: FeedAction, x: FeedAction)
    ensures
        count(Seq::<FeedAction>::empty(), x) == 0,
        count(seq![a], x) == one_if(a == x),
        count(seq![a, b], x) == one_if(a == x) + one_if(b == x),
        count(seq![a, b, c], x) == one_if(a == x) + one_if(b == x) + one_if(c == x),
{
    assert(seq![a].drop_last() == Seq::<FeedAction>::empty());
    assert(seq![a, b].drop_last() == seq![a]);
    assert(seq![a, b, c].drop_last() == seq![a, b]);
    assert(count(Seq::<FeedAction>::empty(), x) == 0);
    assert(count(seq![a], x) == one_if(a == x));
    assert(count(seq![a, b], x) == one_if(a == x) + one_if(b == x));
}

/// How often an event makes a feed ask for an action of the four that are counted.
proof fn lemma_step_counts(feed: Feed, event: FeedEvent, x: FeedAction)
    requires
        x == FeedAction::Start || x == FeedAction::Suspend || x == FeedAction::Resume || x
            == FeedAction::ClearData,
    ensures
        count(feed.actions(event), x) == one_if(feed.actions(event).contains(x)),
{
    let pause = FeedAction::Sleep { millis: PAUSE_POLL };
    let delay = FeedAction::Sleep { millis: RESTART_DELAY };
    lemma_count_few(FeedAction::Suspend, pause, FeedAction::Look, x);
    lemma_count_few(FeedAction::Reap, delay, FeedAction::Start, x);
    lemma_count_few(FeedAction::Reap, FeedAction::ClearData, FeedAction::Look, x);
    lemma_count_few(FeedAction::Resume, FeedAction::ReadLine, FeedAction::Look, x);
    lemma_count_few(pause, FeedAction::Look, FeedAction::Look, x);
    lemma_count_few(FeedAction::Look, FeedAction::Look, FeedAction::Look, x);
    lemma_count_few(FeedAction::ClearData, FeedAction::Look, FeedAction::Look, x);
    lemma_count_few(FeedAction::ReadLine, FeedAction::Look, FeedAction::Look, x);
    let actions = feed.actions(event);
    if actions.len() >= 1 {
        assert(actions.contains(actions[0]));
    }
    if actions.len() >= 2 {
        assert(actions.contains(actions[1]));
    }
    if actions.len() >= 3 {
        assert(actions.contains(actions[2]));
    }
}

/// When an event makes a feed ask for each of the four actions.
proof fn lemma_step_asks(feed: Feed, event: FeedEvent)
    requires
        feed.wf(),
    ensures
        ({
            let actions = feed.actions(event);
            let next = feed.after(event);
            &&& next.wf()
            &&& actions.contains(FeedAction::Start) <==> next.restarts == feed.restarts + 1
            &&& next.restarts == feed.restarts || next.restarts == feed.restarts + 1
            &&& actions.contains(FeedAction::Suspend) <==> !feed.suspended && next.suspended
            &&& actions.contains(FeedAction::Resume) <==> feed.suspended && !next.suspended
            &&& actions.contains(FeedAction::ClearData) <==> feed.phase != Phase::Stopped
                && next.phase == Phase::Stopped
            &&& feed.phase == Phase::Stopped ==> next.phase == Phase::Stopped
        }),
{
    let actions = feed.actions(event);
    if actions.len() >= 1 {
        assert(actions.contains(actions[0]));
    }
    if actions.len() >= 2 {
        assert(actions.contains(actions[1]));
    }
    if actions.len() >= 3 {
        assert(actions.contains(actions[2]));
    }
}

/// The program of a feed is started once and at most three times more. It is
/// suspended at most once at a time and never read while suspended: suspensions and
/// resumptions differ by the one that is under way. The data are cleared when the
/// feed is over, and only then.
pub proof fn law_feed_course(events: Seq<FeedEvent>)
    ensures
        feed_after(events).wf(),
        count(asked(events), FeedAction::Start) == feed_after(events).restarts + 1,
        count(asked(events), FeedAction::Start) <= 4,
        count(asked(events), FeedAction::Suspend) == count(asked(events), FeedAction::Resume)
            + if feed_after(events).suspended {
            1nat
        } else {
            0nat
        },
        feed_after(events).phase == Phase::Reading ==> !feed_after(events).suspended,
        count(asked(events), FeedAction::ClearData) == if feed_after(events).phase
            == Phase::Stopped {
            1nat
        } else {
            0nat
        },
    decreases events.len(),
{
    if events.len() > 0 {
        let before = feed_after(events.drop_last());
        law_feed_course(events.drop_last());
        lemma_step_asks(before, events.last());
        lemma_count_step(events, FeedAction::Start);
        lemma_count_step(events, FeedAction::Suspend);
        lemma_count_step(events, FeedAction::Resume);
        lemma_count_step(events, FeedAction::ClearData);
        lemma_step_counts(before, events.last(), FeedAction::Start);
        lemma_step_counts(before, events.last(), FeedAction::Suspend);
        lemma_step_counts(before, events.last(), FeedAction::Resume);
        lemma_step_counts(before, events.last(), FeedAction::ClearData);
    } else {
        let start = FeedAction::Start;
        lemma_count_few(start, start, start, FeedAction::Start);
        lemma_count_few(start, start, start, FeedAction::Suspend);
        lemma_count_few(start, start, start, FeedAction::Resume);
        lemma_count_few(start, start, start, FeedAction::ClearData);
    }
}

/// A line is read only after a look that found the window visible. A look that finds
/// it hidden leaves the program suspended, and from then on nothing but such a look
/// has it resumed.
pub proof fn law_hidden_feed_rests(feed: Feed, event: FeedEvent)
    requires
        feed.wf(),
    ensures
        feed.actions(event).contains(FeedAction::ReadLine) <==> feed.phase == Phase::Gated && event
            == (FeedEvent::Looked { visible: true }),
        feed.phase == Phase::Gated && event == (FeedEvent::Looked { visible: false })
            ==> feed.after(event).suspended,
        feed.suspended && event != (FeedEvent::Looked { visible: true }) ==> feed.after(
            event,
        ).suspended,
{
    let actions = feed.actions(event);
    if actions.len() >= 1 {
        assert(actions.contains(actions[0]));
    }
    if actions.len() >= 2 {
        assert(actions.contains(actions[1]));
    }
}

// --- Values ------------------------------------------------------------------

/// The counter of GPU use; its name is the same in every language.
pub fn gpu_counters() -> (r: Vec<String>)
    ensures
        views(r@) == seq!["\\GPU Engine(*)\\Utilization Percentage"@],
{
    let mut out: Vec<String> = Vec::new();
    out.push("\\GPU Engine(*)\\Utilization Percentage".to_owned());
    assert(views(out@) == seq!["\\GPU Engine(*)\\Utilization Percentage"@]);
    out
}

/// The arguments of `typeperf` for the given counters: a line every
/// `interval_secs` seconds.
pub fn typeperf_args(counters: &Vec<String>, interval_secs: u32) -> (r: Vec<String>)
    ensures
        views(r@) == views(counters@) + seq!["-si"@, decimal(interval_secs as nat)],
{
    let mut out: Vec<String> = Vec::new();
    let mut i: usize = 0;
    while i < counters.len()
        invariant
            i <= counters.len(),
            views(out@) == views(counters@).take(i as int),
        decreases counters.len() - i,
    {
        let ghost before = views(out@);
        out.push(counters[i].clone());
        assert(views(out@) == before.push(counters@[i as int]@));
        assert(views(counters@).take(i + 1) == views(counters@).take(i as int).push(
            views(counters@)[i as int],
        ));
        i = i + 1;
    }
    assert(views(counters@).take(i as int) == views(counters@));
    out.push("-si".to_owned());
    out.push(decimal_text(interval_secs as u64));
    assert(views(out@) == views(counters@) + seq!["-si"@, decimal(interval_secs as nat)]);
    out
}

/// A reading as a whole number of tenths, as far as it fits.
pub open spec fn tenths(v: Num, low: int, high: int) -> int {
    v.product(num_of(TEN)).nearest_whole().whole_part(low, high)
}

/// The engine types of the columns after a line of the GPU feed.
pub open spec fn gpu_columns(columns: Seq<Seq<char>>, line: Seq<char>) -> Seq<Seq<char>> {
    if is_header(line) {
        header_types(line)
    } else {
        columns
    }
}

/// The GPU use, in tenths of a percent, after a line of the GPU feed.
pub open spec fn gpu_util_after(util: i32, columns: Seq<Seq<char>>, line: Seq<char>) -> i32 {
    match gpu_line_value(line, columns) {
        Some(v) if !is_header(line) => tenths(v, i32::MIN as int, i32::MAX as int) as i32,
        _ => util,
    }
}

/// A line of the GPU feed leaves the GPU use between 0 and 100 percent, or as it
/// was.
pub proof fn law_gpu_use_in_range(util: i32, columns: Seq<Seq<char>>, line: Seq<char>)
    ensures
        gpu_util_after(util, columns, line) == util || 0 <= gpu_util_after(util, columns, line)
            <= 1000,
{
    if gpu_line_value(line, columns) is Some && !is_header(line) {
        let v = gpu_line_value(line, columns)->0;
        law_gpu_percent_in_range(line, columns);
        lemma_rounded_percent(v);
        lemma_named_patterns();
        lemma_pow2_pos(1074);
        let n = v.product(num_of(TEN)).nearest_whole();
        if n.magnitude() < THOUSAND {
            lemma_size_grows(n.magnitude(), THOUSAND as int);
        }
        if 0 < n.magnitude() {
            lemma_size_grows(0, n.magnitude());
        }
        let (s, u) = (n.size(), unit());
        assert(0 <= s / u <= 1000) by (nonlinear_arith)
            requires
                0 <= s <= 1000 * u,
                u > 0,
        ;
    }
}

proof fn lemma_tenths(v: Num, low: int, high: int)
    requires
        v.from_zero(),
        v.size() <= 0x100_0000_0000 * unit(),
        low <= 0,
        high >= 0,
    ensures
        ({
            let t = tenths(v, low, high);
            t == high || -55 * unit() <= 100 * (t * unit() - 10 * v.size()) <= 55 * unit()
        }),
        tenths(v, low, high) <= high,
        tenths(v, low, high) >= 0,
        10 * v.size() <= high * unit() ==> -55 * unit() <= 100 * (tenths(v, low, high) * unit()
            - 10 * v.size()) <= 55 * unit(),
{
    let (s, u, ten) = (v.size(), unit(), num_of(TEN));
    lemma_named_patterns();
    lemma_pow2_pos(1074);
    lemma2_to64();
    lemma2_to64_rest();
    assert(pow2(47) == 0x8000_0000_0000 && pow2(5) == 32);
    assert(s * (10 * u) <= u * (0x8000_0000_0000 * u)) by (nonlinear_arith)
        requires
            s <= 0x100_0000_0000 * u,
            u > 0,
    ;
    lemma_product_near(v, ten, 47);
    let p = v.product(ten);
    let x = p.size() - 10 * s;
    assert(-u <= 64 * x <= u) by (nonlinear_arith)
        requires
            -u * u <= 2 * (32 * (p.size() * u - s * (10 * u))) <= u * u,
            x == p.size() - 10 * s,
            u > 0,
    ;
    let w = lemma_whole_near(p);
    law_whole_part(w, low, high);
    if w > high {
        assert(w * u >= (high + 1) * u) by (nonlinear_arith)
            requires
                w >= high + 1,
                u > 0,
        ;
        assert((high + 1) * u == high * u + u) by (nonlinear_arith);
        assert(!(10 * s <= high * u));
    }
}

/// A line of values under a known header leaves the GPU use that it tells, in tenths of
/// a percent, to the nearest. Every other line leaves the GPU use as it was, and a
/// header, and nothing else, changes what is known of the columns.
pub proof fn law_gpu_lines_are_counted(util: i32, columns: Seq<Seq<char>>, line: Seq<char>, n: nat)
    requires
        n <= 100,
    ensures
        ({
            let t = gpu_util_after(util, columns, line);
            let told = gpu_line_value(line, columns);
            &&& is_header(line) || told is None ==> t == util
            &&& !is_header(line) && told is Some ==> -55 * unit() <= 100 * (t * unit() - 10
                * told->0.size()) <= 55 * unit()
            &&& !is_header(line) && told == Some(of_whole(n)) ==> t == 10 * n
        }),
        is_header(line) ==> gpu_columns(columns, line) == header_types(line),
        !is_header(line) ==> gpu_columns(columns, line) == columns,
{
    if gpu_line_value(line, columns) is Some {
        let v = gpu_line_value(line, columns)->0;
        let u = unit();
        law_gpu_percent_in_range(line, columns);
        lemma_named_patterns();
        lemma_pow2_pos(1074);
        law_order_is_numeric(v, num_of(HUNDRED));
        assert(v.size() <= 100 * u);
        lemma_tenths(v, i32::MIN as int, i32::MAX as int);
        if v == of_whole(n) {
            lemma_whole_exact(n);
            let t = tenths(v, i32::MIN as int, i32::MAX as int);
            assert(t == 10 * n) by (nonlinear_arith)
                requires
                    -55 * u <= 100 * (t * u - 10 * (n * u)) <= 55 * u,
                    u > 0,
            ;
        }
    }
}

/// Takes a line of the GPU feed in: a header names the columns, a line of values
/// under it tells the GPU use.
pub fn publish_gpu_line(state: &mut AppState, columns: &mut Vec<String>, line: &str)
    ensures
        views(final(columns)@) == gpu_columns(views(old(columns)@), line@),
        *final(state) == (AppState {
            gpu_util: gpu_util_after(old(state).gpu_util, views(old(columns)@), line@),
            ..*old(state)
        }),
{
    if starts_table(&chars_of(line)) {
        *columns = parse_header(line);
        return;
    }
    match parse_gpu_csv_line(line, columns) {
        Some(v) => {
            state.gpu_util = v.times(num(TEN)).round().to_whole(
                i32::MIN as i64,
                i32::MAX as i64,
            ) as i32;
        },
        None => {},
    }
}

/// The GPU use after the end of its feed: no data.
pub fn clear_gpu(state: &mut AppState)
    ensures
        *final(state) == (AppState { gpu_util: NO_GPU, ..*old(state) }),
{
    state.gpu_util = NO_GPU;
}

/// The disk rates, in tenths of a byte per second, after a line of the disk feed.
pub open spec fn disk_after(read: i64, write: i64, line: Seq<char>) -> (i64, i64) {
    match disk_line_value(line) {
        Some((r, w)) if !is_header(line) => (
            tenths(r, i64::MIN as int, i64::MAX as int) as i64,
            tenths(w, i64::MIN as int, i64::MAX as int) as i64,
        ),
        _ => (read, write),
    }
}

/// A line of values leaves the disk rates that it tells, what is read and what is
/// written each to the nearest tenth of a byte per second. Every other line leaves them
/// as they were.
pub proof fn law_disk_lines_are_counted(read: i64, write: i64, line: Seq<char>, n: nat)
    requires
        n < 0x100_0000_0000,
    ensures
        ({
            let (r, w) = disk_after(read, write, line);
            let u = unit();
            match disk_line_value(line) {
                Some((reading, writing)) if !is_header(line) => {
                    &&& reading.from_zero() && reading.size() <= 0x100_0000_0000 * u ==> -55 * u
                        <= 100 * (r * u - 10 * reading.size()) <= 55 * u
                    &&& writing.from_zero() && writing.size() <= 0x100_0000_0000 * u ==> -55 * u
                        <= 100 * (w * u - 10 * writing.size()) <= 55 * u
                    &&& reading == of_whole(n) ==> r == 10 * n
                    &&& writing == of_whole(n) ==> w == 10 * n
                },
                _ => r == read && w == write,
            }
        }),
{
    match disk_line_value(line) {
        Some((reading, writing)) if !is_header(line) => {
            lemma_disk_tenths(reading, n);
            lemma_disk_tenths(writing, n);
        },
        _ => {},
    }
}

proof fn lemma_disk_tenths(v: Num, n: nat)
    requires
        n < 0x100_0000_0000,
    ensures
        ({
            let t = tenths(v, i64::MIN as int, i64::MAX as int);
            &&& v.from_zero() && v.size() <= 0x100_0000_0000 * unit() ==> 0 <= t <= i64::MAX && -55
                * unit() <= 100 * (t * unit() - 10 * v.size()) <= 55 * unit()
            &&& v == of_whole(n) ==> t == 10 * n
        }),
{
    let u = unit();
    lemma_pow2_pos(1074);
    lemma_whole_exact(n);
    if v == of_whole(n) {
        assert(n * u <= 0x100_0000_0000 * u) by (nonlinear_arith)
            requires
                n <= 0x100_0000_0000,
                u > 0,
        ;
    }
    if v.from_zero() && v.size() <= 0x100_0000_0000 * u {
        lemma_tenths(v, i64::MIN as int, i64::MAX as int);
        let t = tenths(v, i64::MIN as int, i64::MAX as int);
        if v == of_whole(n) {
            assert(t == 10 * n) by (nonlinear_arith)
                requires
                    -55 * u <= 100 * (t * u - 10 * (n * u)) <= 55 * u,
                    u > 0,
            ;
        }
    }
}

/// Takes a line of the disk feed in.
pub fn publish_disk_line(state: &mut AppState, line: &str)
    ensures
        *final(state) == ({
            let (read, write) = disk_after(old(state).disk_read, old(state).disk_write, line@);
            AppState { disk_read: read, disk_write: write, ..*old(state) }
        }),
{
    if starts_table(&chars_of(line)) {
        return;
    }
    match parse_disk_csv_line(line) {
        Some((read, write)) => {
            state.disk_read = read.times(num(TEN)).round().to_whole(i64::MIN, i64::MAX);
            state.disk_write = write.times(num(TEN)).round().to_whole(i64::MIN, i64::MAX);
        },
        None => {},
    }
}

/// Takes the bytes of a line of the disk feed in. The names of the counters are in
/// the code page of the system and need not be UTF-8.
pub fn publish_disk_bytes(state: &mut AppState, bytes: &Vec<u8>)
    ensures
        *final(state) == ({
            let (read, write) = disk_after(
                old(state).disk_read,
                old(state).disk_write,
                utf8_text(bytes@),
            );
            AppState { disk_read: read, disk_write: write, ..*old(state) }
        }),
{
    let line = from_utf8_lossy(bytes);
    publish_disk_line(state, line.as_str());
}

/// The disk rates after the end of their feed: no data.
pub fn clear_disk(state: &mut AppState)
    ensures
        *final(state) == (AppState { disk_read: NO_DISK, disk_write: NO_DISK, ..*old(state) }),
{
    state.disk_read = NO_DISK;
    state.disk_write = NO_DISK;
}

/// A feed that has ended is started again after ten seconds, three times at most, and
/// then its data are cleared. While the window is hidden, it is looked at twice a second.
pub proof fn law_feed_waits(feed: Feed)
    ensures
        feed.phase == Phase::Reading && feed.restarts < 3 ==> feed.actions(FeedEvent::Closed)
            == seq![FeedAction::Reap, FeedAction::Sleep { millis: 10_000 }, FeedAction::Start]
            && feed.after(FeedEvent::Closed).phase == Phase::Starting && feed.after(
            FeedEvent::Closed,
        ).restarts == feed.restarts + 1,
        feed.phase == Phase::Reading && feed.restarts >= 3 ==> feed.actions(FeedEvent::Closed)
            == seq![FeedAction::Reap, FeedAction::ClearData] && feed.after(FeedEvent::Closed).phase
            == Phase::Stopped,
        feed.phase == Phase::Gated ==> ({
            let actions = feed.actions(FeedEvent::Looked { visible: false });
            &&& actions.last() == FeedAction::Look
            &&& actions[actions.len() - 2] == (FeedAction::Sleep { millis: 500 })
            &&& actions.len() == 3 <==> !feed.suspended
            &&& !feed.suspended ==> actions[0] == FeedAction::Suspend
        }),
        feed.phase == Phase::Starting ==> feed.actions(FeedEvent::Failed) == seq![
            FeedAction::ClearData,
        ] && feed.after(FeedEvent::Failed).phase == Phase::Stopped && feed.after(
            FeedEvent::Started,
        ).phase == Phase::Gated,
        feed.phase == Phase::Reading ==> feed.after(FeedEvent::Line).phase == Phase::Gated,
{
}

} // verus!
