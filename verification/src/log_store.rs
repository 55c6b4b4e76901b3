//! The parsed log of a run, held in memory, and the part of it that falls
//! in a time range, for display.
use vstd::prelude::*;

use std::collections::HashMap;

use crate::vis::{
    ActualCycle, ActualExecution, ActualInstantEvent, ActualMetricPoint, LogRangeData, LogSummary,
};

verus! {

/// The most actual runs returned for one range, over all clients.
pub const MAX_RANGE_EXECUTIONS: usize = 10_000;

/// The most instant events returned for one range, over all clients.
pub const MAX_RANGE_INSTANT_EVENTS: usize = 10_000;

/// The most metric points returned for one range.
pub const MAX_RANGE_METRICS: usize = 10_000;

/// The most cycles returned for one range.
pub const MAX_RANGE_CYCLES: usize = 5_000;

/// A parsed log: its summary, the runs and instant events of each client in
/// time order, the metric points and the cycle starts.
#[derive(Debug, Clone)]
pub struct LogStore {
    pub summary: LogSummary,
    pub executions_by_cid: HashMap<u16, Vec<ActualExecution>>,
    pub instant_events_by_cid: HashMap<u16, Vec<ActualInstantEvent>>,
    pub metrics: Vec<ActualMetricPoint>,
    pub cycles: Vec<ActualCycle>,
}

// ---------------------------------------------------------------------------
// Scans over time keys.

/// `i` is where the keys first exceed `bound`: all keys before it are at
/// most `bound`, and the key there, if any, is above it.
pub open spec fn ends_at(keys: Seq<u64>, bound: u64, i: int) -> bool {
    &&& 0 <= i <= keys.len()
    &&& forall|j: int| 0 <= j < i ==> keys[j] <= bound
    &&& i < keys.len() ==> keys[i] > bound
}

/// The position where the keys first exceed `bound`, or their count.
pub open spec fn first_above(keys: Seq<u64>, bound: u64) -> int {
    choose|i: int| ends_at(keys, bound, i)
}

/// `i` is where the keys first reach `bound`.
pub open spec fn starts_at(keys: Seq<u64>, bound: u64, i: int) -> bool {
    &&& 0 <= i <= keys.len()
    &&& forall|j: int| 0 <= j < i ==> keys[j] < bound
    &&& i < keys.len() ==> keys[i] >= bound
}

/// The position where the keys first reach `bound`, or their count.
pub open spec fn first_reaching(keys: Seq<u64>, bound: u64) -> int {
    choose|i: int| starts_at(keys, bound, i)
}

proof fn lemma_first_above(keys: Seq<u64>, bound: u64, i: int)
    requires
        ends_at(keys, bound, i),
    ensures
        first_above(keys, bound) == i,
{
    let k = first_above(keys, bound);
    assert(ends_at(keys, bound, k));
    if k < i {
        assert(keys[k] <= bound);
    } else if i < k {
        assert(keys[i] <= bound);
    }
}

proof fn lemma_first_reaching(keys: Seq<u64>, bound: u64, i: int)
    requires
        starts_at(keys, bound, i),
    ensures
        first_reaching(keys, bound) == i,
{
    let k = first_reaching(keys, bound);
    assert(starts_at(keys, bound, k));
    if k < i {
        assert(keys[k] < bound);
    } else if i < k {
        assert(keys[i] < bound);
    }
}

/// The start times of runs.
pub open spec fn exec_starts(s: Seq<ActualExecution>) -> Seq<u64> {
    s.map_values(|e: ActualExecution| e.start_ms)
}

/// The times of instant events.
pub open spec fn event_times(s: Seq<ActualInstantEvent>) -> Seq<u64> {
    s.map_values(|e: ActualInstantEvent| e.time_ms)
}

/// The times of metric points.
pub open spec fn metric_times(s: Seq<ActualMetricPoint>) -> Seq<u64> {
    s.map_values(|e: ActualMetricPoint| e.time_ms)
}

/// The start times of cycles.
pub open spec fn cycle_starts(s: Seq<ActualCycle>) -> Seq<u64> {
    s.map_values(|e: ActualCycle| e.start_ms)
}

/// The runs of `s` that end at `start` or later, in order.
pub open spec fn overlapping(s: Seq<ActualExecution>, start: u64) -> Seq<ActualExecution>
    decreases s.len(),
{
    if s.len() == 0 {
        Seq::empty()
    } else {
        overlapping(s.drop_last(), start) + if s.last().start_ms + s.last().duration_ms >= start {
            seq![s.last()]
        } else {
            Seq::empty()
        }
    }
}

/// The runs of a client shown for the range: among those that start by
/// `end`, the ones that end at `start` or later.
pub open spec fn exec_slice(s: Seq<ActualExecution>, start: u64, end: u64) -> Seq<ActualExecution> {
    overlapping(s.take(first_above(exec_starts(s), end)), start)
}

/// The instant events of a client shown for the range: those from the
/// first at `start` or later up to the first after `end`.
pub open spec fn event_slice(s: Seq<ActualInstantEvent>, start: u64, end: u64) -> Seq<
    ActualInstantEvent,
> {
    let i0 = first_reaching(event_times(s), start);
    let rest = s.subrange(i0, s.len() as int);
    rest.take(first_above(event_times(rest), end))
}

/// `a` and `b` with the smaller first.
pub open spec fn min_nat(a: nat, b: nat) -> nat {
    if a <= b {
        a
    } else {
        b
    }
}

/// What is left of `max` once `total` is used.
pub open spec fn room(total: nat, max: nat) -> nat {
    if total <= max {
        (max - total) as nat
    } else {
        0
    }
}

/// The client IDs below `n` that have runs or instant events, in order.
pub open spec fn cids_below(a: Set<u16>, b: Set<u16>, n: nat) -> Seq<u16>
    decreases n,
{
    if n == 0 {
        Seq::empty()
    } else {
        cids_below(a, b, (n - 1) as nat) + if a.contains((n - 1) as u16) || b.contains(
            (n - 1) as u16,
        ) {
            seq![(n - 1) as u16]
        } else {
            Seq::empty()
        }
    }
}

/// The runs shown per client, the count shown and whether some were left
/// out for the cap `max`, for the clients `cids` in order.
pub open spec fn exec_fold(
    m: Map<u16, Vec<ActualExecution>>,
    cids: Seq<u16>,
    start: u64,
    end: u64,
    max: nat,
) -> (Seq<(u16, Seq<ActualExecution>)>, nat, bool)
    decreases cids.len(),
{
    if cids.len() == 0 {
        (Seq::empty(), 0, false)
    } else {
        let prev = exec_fold(m, cids.drop_last(), start, end, max);
        let c = cids.last();
        let cand = if m.contains_key(c) {
            exec_slice(m[c]@, start, end)
        } else {
            Seq::empty()
        };
        let r = room(prev.1, max);
        let took = cand.take(min_nat(r, cand.len()) as int);
        (prev.0.push((c, took)), prev.1 + took.len(), prev.2 || cand.len() > r)
    }
}

/// The instant events shown per client, the count shown and whether some
/// were left out for the cap `max`, for the clients `cids` in order.
pub open spec fn event_fold(
    m: Map<u16, Vec<ActualInstantEvent>>,
    cids: Seq<u16>,
    start: u64,
    end: u64,
    max: nat,
) -> (Seq<(u16, Seq<ActualInstantEvent>)>, nat, bool)
    decreases cids.len(),
{
    if cids.len() == 0 {
        (Seq::empty(), 0, false)
    } else {
        let prev = event_fold(m, cids.drop_last(), start, end, max);
        let c = cids.last();
        let cand = if m.contains_key(c) {
            event_slice(m[c]@, start, end)
        } else {
            Seq::empty()
        };
        let r = room(prev.1, max);
        let took = cand.take(min_nat(r, cand.len()) as int);
        (prev.0.push((c, took)), prev.1 + took.len(), prev.2 || cand.len() > r)
    }
}

/// The metric points considered for the range: from the last one before
/// `start` (or the first) up to the last one by `end`, when some point is
/// at `start` or later.
pub open spec fn metric_candidates(ms: Seq<ActualMetricPoint>, start: u64, end: u64) -> Seq<
    ActualMetricPoint,
> {
    let i0 = first_reaching(metric_times(ms), start);
    let eff = if i0 > 0 {
        i0 - 1
    } else {
        0
    };
    let ie = first_above(metric_times(ms), end);
    if ms.len() > 0 && i0 < ms.len() && eff < ie {
        ms.subrange(eff, ie)
    } else {
        Seq::empty()
    }
}

/// The margin around the range for the cycles shown: two periods, at least
/// 100 ms.
pub open spec fn cycle_margin(cycle_time_ms: u32) -> u64 {
    let ct: u64 = if cycle_time_ms > 1 {
        cycle_time_ms as u64
    } else {
        1
    };
    if ct * 2 > 100 {
        (ct * 2) as u64
    } else {
        100
    }
}

/// The cycles considered for the range widened by the margin.
pub open spec fn cycle_candidates(cs: Seq<ActualCycle>, start: u64, end: u64, margin: u64) -> Seq<
    ActualCycle,
> {
    let lo: u64 = if start >= margin {
        (start - margin) as u64
    } else {
        0
    };
    let hi: u64 = if end + margin <= u64::MAX {
        (end + margin) as u64
    } else {
        u64::MAX
    };
    let i0 = first_reaching(cycle_starts(cs), lo);
    let ie = first_above(cycle_starts(cs), hi);
    if cs.len() > 0 && i0 < cs.len() && i0 <= ie {
        cs.subrange(i0, ie)
    } else {
        Seq::empty()
    }
}

/// The pairs with their lists as sequences.
pub open spec fn pairs_view<T>(v: Seq<(u16, Vec<T>)>) -> Seq<(u16, Seq<T>)> {
    v.map_values(|p: (u16, Vec<T>)| (p.0, p.1@))
}


proof fn lemma_first_above_exists(keys: Seq<u64>, bound: u64)
    ensures
        ends_at(keys, bound, first_above(keys, bound)),
    decreases keys.len(),
{
    if keys.len() == 0 {
        assert(ends_at(keys, bound, 0));
    } else {
        let pre = keys.drop_last();
        lemma_first_above_exists(pre, bound);
        assert(forall|j: int| 0 <= j < pre.len() ==> pre[j] == keys[j]);
        let i = first_above(pre, bound);
        if i < pre.len() {
            assert(ends_at(keys, bound, i));
        } else if keys.last() > bound {
            assert(ends_at(keys, bound, keys.len() - 1));
        } else {
            assert(ends_at(keys, bound, keys.len() as int));
        }
    }
}

proof fn lemma_first_reaching_exists(keys: Seq<u64>, bound: u64)
    ensures
        starts_at(keys, bound, first_reaching(keys, bound)),
    decreases keys.len(),
{
    if keys.len() == 0 {
        assert(starts_at(keys, bound, 0));
    } else {
        let pre = keys.drop_last();
        lemma_first_reaching_exists(pre, bound);
        assert(forall|j: int| 0 <= j < pre.len() ==> pre[j] == keys[j]);
        let i = first_reaching(pre, bound);
        if i < pre.len() {
            assert(starts_at(keys, bound, i));
        } else if keys.last() >= bound {
            assert(starts_at(keys, bound, keys.len() - 1));
        } else {
            assert(starts_at(keys, bound, keys.len() as int));
        }
    }
}

/// The runs of a shorter prefix that overlap come first among those of a
/// longer one.
proof fn lemma_overlapping_prefix(s: Seq<ActualExecution>, start: u64, n: int, m: int)
    requires
        0 <= n <= m <= s.len(),
    ensures
        overlapping(s.take(n), start).len() <= overlapping(s.take(m), start).len(),
        overlapping(s.take(n), start) == overlapping(s.take(m), start).take(
            overlapping(s.take(n), start).len() as int,
        ),
    decreases m - n,
{
    if n < m {
        lemma_overlapping_prefix(s, start, n, m - 1);
        assert(s.take(m).drop_last() =~= s.take(m - 1));
        let a = overlapping(s.take(n), start);
        let b = overlapping(s.take(m - 1), start);
        let c = overlapping(s.take(m), start);
        assert(c.take(b.len() as int) =~= b);
        assert(c.take(a.len() as int) =~= b.take(a.len() as int));
    } else {
        let a = overlapping(s.take(n), start);
        assert(a.take(a.len() as int) =~= a);
    }
}

/// Takes the runs of `execs` shown for the range, as `exec_fold` does for
/// one client, given the count `total` already shown.
fn slice_execs(
    execs: &Vec<ActualExecution>,
    start_ms: u64,
    end_ms: u64,
    total: &mut usize,
    max: usize,
    truncated: &mut bool,
) -> (out: Vec<ActualExecution>)
    ensures
        ({
            let cand = exec_slice(execs@, start_ms, end_ms);
            let r = room(*old(total) as nat, max as nat);
            &&& out@ == cand.take(min_nat(r, cand.len()) as int)
            &&& *final(total) == *old(total) + out@.len()
            &&& *final(truncated) == (*old(truncated) || cand.len() > r)
        }),
{
    let ghost t0 = *total as nat;
    let ghost r = room(t0, max as nat);
    let ghost keys = exec_starts(execs@);
    proof {
        lemma_first_above_exists(keys, end_ms);
    }
    let mut out: Vec<ActualExecution> = Vec::new();
    let mut k: usize = 0;
    while k < execs.len() && execs[k].start_ms <= end_ms
        invariant
            k <= execs@.len(),
            keys == exec_starts(execs@),
            ends_at(keys, end_ms, first_above(keys, end_ms)),
            forall|j: int| 0 <= j < k ==> keys[j] <= end_ms,
            out@ == overlapping(execs@.take(k as int), start_ms),
            out@.len() <= r,
            *total == t0 + out@.len(),
            *truncated == *old(truncated),
            r == room(t0, max as nat),
            t0 == *old(total),
        decreases execs@.len() - k,
    {
        let e = execs[k];
        proof {
            assert(execs@.take(k + 1).drop_last() =~= execs@.take(k as int));
        }
        if e.start_ms.saturating_add(e.duration_ms as u64) >= start_ms {
            if *total >= max {
                *truncated = true;
                proof {
                    let K = first_above(keys, end_ms);
                    assert(keys[k as int] == e.start_ms);
                    assert(K > k) by {
                        if K < k {
                            assert(keys[K] <= end_ms);
                        }
                    }
                    lemma_overlapping_prefix(execs@, start_ms, k + 1, K);
                    assert(overlapping(execs@.take(k + 1), start_ms) == out@.push(e));
                    let cand = exec_slice(execs@, start_ms, end_ms);
                    assert(cand.take(out@.len() as int) =~= overlapping(execs@.take(k + 1), start_ms).take(
                        out@.len() as int,
                    ));
                    assert(out@.push(e).take(out@.len() as int) =~= out@);
                }
                return out;
            }
            out.push(e);
            *total = *total + 1;
        }
        k += 1;
    }
    proof {
        assert(ends_at(keys, end_ms, k as int));
        lemma_first_above(keys, end_ms, k as int);
        let cand = exec_slice(execs@, start_ms, end_ms);
        assert(cand.take(cand.len() as int) =~= cand);
    }
    out
}


/// Takes the instant events of `events` shown for the range, as
/// `event_fold` does for one client, given the count `total` already shown.
fn slice_events(
    events: &Vec<ActualInstantEvent>,
    start_ms: u64,
    end_ms: u64,
    total: &mut usize,
    max: usize,
    truncated: &mut bool,
) -> (out: Vec<ActualInstantEvent>)
    ensures
        ({
            let cand = event_slice(events@, start_ms, end_ms);
            let r = room(*old(total) as nat, max as nat);
            &&& out@ == cand.take(min_nat(r, cand.len()) as int)
            &&& *final(total) == *old(total) + out@.len()
            &&& *final(truncated) == (*old(truncated) || cand.len() > r)
        }),
{
    let ghost t0 = *total as nat;
    let ghost r = room(t0, max as nat);
    let ghost keys = event_times(events@);
    let mut i0: usize = 0;
    while i0 < events.len() && events[i0].time_ms < start_ms
        invariant
            i0 <= events@.len(),
            keys == event_times(events@),
            forall|j: int| 0 <= j < i0 ==> keys[j] < start_ms,
        decreases events@.len() - i0,
    {
        i0 += 1;
    }
    proof {
        assert(starts_at(keys, start_ms, i0 as int));
        lemma_first_reaching(keys, start_ms, i0 as int);
    }
    let ghost rest = events@.subrange(i0 as int, events@.len() as int);
    let ghost rkeys = event_times(rest);
    proof {
        lemma_first_above_exists(rkeys, end_ms);
    }
    let mut out: Vec<ActualInstantEvent> = Vec::new();
    let mut k: usize = i0;
    while k < events.len() && events[k].time_ms <= end_ms
        invariant
            i0 <= k <= events@.len(),
            rest == events@.subrange(i0 as int, events@.len() as int),
            first_reaching(event_times(events@), start_ms) == i0,
            rkeys == event_times(rest),
            ends_at(rkeys, end_ms, first_above(rkeys, end_ms)),
            forall|j: int| 0 <= j < k - i0 ==> rkeys[j] <= end_ms,
            out@ == rest.take(k - i0),
            out@.len() <= r,
            *total == t0 + out@.len(),
            *truncated == *old(truncated),
            r == room(t0, max as nat),
            t0 == *old(total),
        decreases events@.len() - k,
    {
        let e = events[k];
        assert(rest[k - i0] == e);
        if *total >= max {
            *truncated = true;
            proof {
                let K = first_above(rkeys, end_ms);
                assert(rkeys[k - i0] == e.time_ms);
                assert(K > k - i0) by {
                    if K < k - i0 {
                        assert(rkeys[K] <= end_ms);
                    }
                }
                let cand = event_slice(events@, start_ms, end_ms);
                assert(cand.len() == K);
                assert(cand.take(out@.len() as int) =~= out@);
            }
            return out;
        }
        out.push(e);
        *total = *total + 1;
        k += 1;
        assert(out@ =~= rest.take(k - i0));
    }
    proof {
        assert(ends_at(rkeys, end_ms, k - i0));
        lemma_first_above(rkeys, end_ms, k - i0);
        let cand = event_slice(events@, start_ms, end_ms);
        assert(cand.take(cand.len() as int) =~= cand);
    }
    out
}


/// Where the metric point times first reach `bound`.
fn metric_reaching(v: &Vec<ActualMetricPoint>, bound: u64) -> (i: usize)
    ensures
        i as int == first_reaching(metric_times(v@), bound),
        i <= v@.len(),
{
    let mut i: usize = 0;
    while i < v.len() && v[i].time_ms < bound
        invariant
            i <= v@.len(),
            forall|j: int| 0 <= j < i ==> metric_times(v@)[j] < bound,
        decreases v@.len() - i,
    {
        i += 1;
    }
    proof {
        assert(starts_at(metric_times(v@), bound, i as int));
        lemma_first_reaching(metric_times(v@), bound, i as int);
    }
    i
}

/// Where the metric point times first exceed `bound`.
fn metric_above(v: &Vec<ActualMetricPoint>, bound: u64) -> (i: usize)
    ensures
        i as int == first_above(metric_times(v@), bound),
        i <= v@.len(),
{
    let mut i: usize = 0;
    while i < v.len() && v[i].time_ms <= bound
        invariant
            i <= v@.len(),
            forall|j: int| 0 <= j < i ==> metric_times(v@)[j] <= bound,
        decreases v@.len() - i,
    {
        i += 1;
    }
    proof {
        assert(ends_at(metric_times(v@), bound, i as int));
        lemma_first_above(metric_times(v@), bound, i as int);
    }
    i
}

/// The entries of `v` from `from` to `to`, at most `max` of them.
fn metric_range(v: &Vec<ActualMetricPoint>, from: usize, to: usize, max: usize) -> (out: Vec<ActualMetricPoint>)
    requires
        from <= to <= v@.len(),
    ensures
        out@ == v@.subrange(from as int, to as int).take(
            min_nat(max as nat, (to - from) as nat) as int,
        ),
{
    let n = if to - from > max {
        max
    } else {
        to - from
    };
    let mut out: Vec<ActualMetricPoint> = Vec::new();
    let mut k: usize = 0;
    while k < n
        invariant
            k <= n,
            n <= to - from,
            from <= to <= v@.len(),
            out@ == v@.subrange(from as int, from + k),
        decreases n - k,
    {
        out.push(v[from + k]);
        k += 1;
        assert(out@ =~= v@.subrange(from as int, from + k));
    }
    assert(out@ =~= v@.subrange(from as int, to as int).take(n as int));
    out
}

/// Where the cycle start times first reach `bound`.
fn cycle_reaching(v: &Vec<ActualCycle>, bound: u64) -> (i: usize)
    ensures
        i as int == first_reaching(cycle_starts(v@), bound),
        i <= v@.len(),
{
    let mut i: usize = 0;
    while i < v.len() && v[i].start_ms < bound
        invariant
            i <= v@.len(),
            forall|j: int| 0 <= j < i ==> cycle_starts(v@)[j] < bound,
        decreases v@.len() - i,
    {
        i += 1;
    }
    proof {
        assert(starts_at(cycle_starts(v@), bound, i as int));
        lemma_first_reaching(cycle_starts(v@), bound, i as int);
    }
    i
}

/// Where the cycle start times first exceed `bound`.
fn cycle_above(v: &Vec<ActualCycle>, bound: u64) -> (i: usize)
    ensures
        i as int == first_above(cycle_starts(v@), bound),
        i <= v@.len(),
{
    let mut i: usize = 0;
    while i < v.len() && v[i].start_ms <= bound
        invariant
            i <= v@.len(),
            forall|j: int| 0 <= j < i ==> cycle_starts(v@)[j] <= bound,
        decreases v@.len() - i,
    {
        i += 1;
    }
    proof {
        assert(ends_at(cycle_starts(v@), bound, i as int));
        lemma_first_above(cycle_starts(v@), bound, i as int);
    }
    i
}

/// The entries of `v` from `from` to `to`, at most `max` of them.
fn cycle_range(v: &Vec<ActualCycle>, from: usize, to: usize, max: usize) -> (out: Vec<ActualCycle>)
    requires
        from <= to <= v@.len(),
    ensures
        out@ == v@.subrange(from as int, to as int).take(
            min_nat(max as nat, (to - from) as nat) as int,
        ),
{
    let n = if to - from > max {
        max
    } else {
        to - from
    };
    let mut out: Vec<ActualCycle> = Vec::new();
    let mut k: usize = 0;
    while k < n
        invariant
            k <= n,
            n <= to - from,
            from <= to <= v@.len(),
            out@ == v@.subrange(from as int, from + k),
        decreases n - k,
    {
        out.push(v[from + k]);
        k += 1;
        assert(out@ =~= v@.subrange(from as int, from + k));
    }
    assert(out@ =~= v@.subrange(from as int, to as int).take(n as int));
    out
}

/// The client IDs that have runs or instant events, in increasing order.
fn sorted_cids(
    execs: &HashMap<u16, Vec<ActualExecution>>,
    events: &HashMap<u16, Vec<ActualInstantEvent>>,
) -> (r: Vec<u16>)
    ensures
        r@ == cids_below(execs@.dom(), events@.dom(), 0x1_0000),
{
    let mut r: Vec<u16> = Vec::new();
    let mut c: u32 = 0;
    while c < 0x1_0000
        invariant
            c <= 0x1_0000,
            r@ == cids_below(execs@.dom(), events@.dom(), c as nat),
        decreases 0x1_0000 - c,
    {
        let id = c as u16;
        if execs.contains_key(&id) || events.contains_key(&id) {
            r.push(id);
        }
        c += 1;
    }
    r
}


impl LogStore {
    /// A store of the parsed parts of a log.
    pub fn new(
        summary: LogSummary,
        executions_by_cid: HashMap<u16, Vec<ActualExecution>>,
        instant_events_by_cid: HashMap<u16, Vec<ActualInstantEvent>>,
        metrics: Vec<ActualMetricPoint>,
        cycles: Vec<ActualCycle>,
    ) -> (s: Self)
        ensures
            s.summary == summary,
            s.executions_by_cid == executions_by_cid,
            s.instant_events_by_cid == instant_events_by_cid,
            s.metrics == metrics,
            s.cycles == cycles,
    {
        LogStore { summary, executions_by_cid, instant_events_by_cid, metrics, cycles }
    }

    /// The part of the log in the range from `start_ms` to `end_ms`, with
    /// the default caps: see `get_range_with_caps`.
    pub fn get_range(&self, start_ms: u64, end_ms: u64) -> (r: LogRangeData)
        ensures
            range_of(
                *self,
                start_ms,
                end_ms,
                MAX_RANGE_EXECUTIONS as nat,
                MAX_RANGE_INSTANT_EVENTS as nat,
                MAX_RANGE_METRICS as nat,
                MAX_RANGE_CYCLES as nat,
                r,
            ),
    {
        self.get_range_with_caps(
            start_ms,
            end_ms,
            MAX_RANGE_EXECUTIONS,
            MAX_RANGE_INSTANT_EVENTS,
            MAX_RANGE_METRICS,
            MAX_RANGE_CYCLES,
        )
    }

    /// The part of the log in the range from `start_ms` to `end_ms`: see
    /// `range_of`.
    pub fn get_range_with_caps(
        &self,
        start_ms: u64,
        end_ms: u64,
        max_executions: usize,
        max_events: usize,
        max_metrics: usize,
        max_cycles: usize,
    ) -> (r: LogRangeData)
        ensures
            range_of(
                *self,
                start_ms,
                end_ms,
                max_executions as nat,
                max_events as nat,
                max_metrics as nat,
                max_cycles as nat,
                r,
            ),
    {
        if start_ms > end_ms {
            let r = LogRangeData {
                actual_executions_by_cid: Vec::new(),
                actual_instant_events_by_cid: Vec::new(),
                actual_metrics: Vec::new(),
                actual_cycles: Vec::new(),
                is_truncated: false,
            };
            assert(pairs_view(r.actual_executions_by_cid@) =~= Seq::<(u16, Seq<ActualExecution>)>::empty());
            assert(pairs_view(r.actual_instant_events_by_cid@) =~= Seq::<(u16, Seq<ActualInstantEvent>)>::empty());
            return r;
        }
        let cids = sorted_cids(&self.executions_by_cid, &self.instant_events_by_cid);
        let ghost em = self.executions_by_cid@;
        let ghost vm = self.instant_events_by_cid@;

        // Runs of each client.
        let mut actual_executions_by_cid: Vec<(u16, Vec<ActualExecution>)> = Vec::new();
        let mut total_executions: usize = 0;
        let mut exec_truncated = false;
        let mut k: usize = 0;
        while k < cids.len()
            invariant
                k <= cids@.len(),
                em == self.executions_by_cid@,
                ({
                    let f = exec_fold(em, cids@.take(k as int), start_ms, end_ms, max_executions as nat);
                    &&& pairs_view(actual_executions_by_cid@) == f.0
                    &&& total_executions as nat == f.1
                    &&& exec_truncated == f.2
                }),
            decreases cids@.len() - k,
        {
            let cid = cids[k];
            proof {
                let t = cids@.take(k + 1);
                assert(t.drop_last() =~= cids@.take(k as int));
            }
            let ghost before = pairs_view(actual_executions_by_cid@);
            let sliced = match self.executions_by_cid.get(&cid) {
                Some(execs) => slice_execs(
                    execs,
                    start_ms,
                    end_ms,
                    &mut total_executions,
                    max_executions,
                    &mut exec_truncated,
                ),
                None => {
                    assert(Seq::<ActualExecution>::empty().take(0) =~= Seq::<ActualExecution>::empty());
                    Vec::new()
                },
            };
            actual_executions_by_cid.push((cid, sliced));
            assert(pairs_view(actual_executions_by_cid@) =~= before.push((cid, sliced@)));
            k += 1;
        }
        assert(cids@.take(k as int) =~= cids@);

        // Instant events of each client.
        let mut actual_instant_events_by_cid: Vec<(u16, Vec<ActualInstantEvent>)> = Vec::new();
        let mut total_events: usize = 0;
        let mut event_truncated = false;
        let mut k: usize = 0;
        while k < cids.len()
            invariant
                k <= cids@.len(),
                vm == self.instant_events_by_cid@,
                ({
                    let f = event_fold(vm, cids@.take(k as int), start_ms, end_ms, max_events as nat);
                    &&& pairs_view(actual_instant_events_by_cid@) == f.0
                    &&& total_events as nat == f.1
                    &&& event_truncated == f.2
                }),
            decreases cids@.len() - k,
        {
            let cid = cids[k];
            proof {
                let t = cids@.take(k + 1);
                assert(t.drop_last() =~= cids@.take(k as int));
            }
            let ghost before = pairs_view(actual_instant_events_by_cid@);
            let sliced = match self.instant_events_by_cid.get(&cid) {
                Some(events) => slice_events(
                    events,
                    start_ms,
                    end_ms,
                    &mut total_events,
                    max_events,
                    &mut event_truncated,
                ),
                None => {
                    assert(Seq::<ActualInstantEvent>::empty().take(0) =~= Seq::<ActualInstantEvent>::empty());
                    Vec::new()
                },
            };
            actual_instant_events_by_cid.push((cid, sliced));
            assert(pairs_view(actual_instant_events_by_cid@) =~= before.push((cid, sliced@)));
            k += 1;
        }
        assert(cids@.take(k as int) =~= cids@);

        // Metric points, with the one just before the range.
        let mut actual_metrics: Vec<ActualMetricPoint> = Vec::new();
        let mut metric_truncated = false;
        if self.metrics.len() > 0 {
            let i0 = metric_reaching(&self.metrics, start_ms);
            if i0 < self.metrics.len() {
                let eff = if i0 > 0 {
                    i0 - 1
                } else {
                    0
                };
                let ie = metric_above(&self.metrics, end_ms);
                if eff < ie {
                    actual_metrics = metric_range(&self.metrics, eff, ie, max_metrics);
                    metric_truncated = ie - eff > max_metrics;
                }
            }
        }
        proof {
            let mc = metric_candidates(self.metrics@, start_ms, end_ms);
            if mc.len() == 0 {
                assert(actual_metrics@ =~= mc.take(0));
            }
        }

        // Cycles, with a margin around the range.
        let ct: u64 = if self.summary.config.server_config.cycle_time_ms > 1 {
            self.summary.config.server_config.cycle_time_ms as u64
        } else {
            1
        };
        let margin: u64 = if ct * 2 > 100 {
            ct * 2
        } else {
            100
        };
        let lo = start_ms.saturating_sub(margin);
        let hi = end_ms.saturating_add(margin);
        let mut actual_cycles: Vec<ActualCycle> = Vec::new();
        let mut cycle_truncated = false;
        if self.cycles.len() > 0 {
            let i0 = cycle_reaching(&self.cycles, lo);
            if i0 < self.cycles.len() {
                let ie = cycle_above(&self.cycles, hi);
                if i0 <= ie {
                    actual_cycles = cycle_range(&self.cycles, i0, ie, max_cycles);
                    cycle_truncated = ie - i0 > max_cycles;
                }
            }
        }
        proof {
            let cc = cycle_candidates(
                self.cycles@,
                start_ms,
                end_ms,
                cycle_margin(self.summary.config.server_config.cycle_time_ms),
            );
            assert(margin == cycle_margin(self.summary.config.server_config.cycle_time_ms));
            if cc.len() == 0 {
                assert(actual_cycles@ =~= cc.take(0));
            }
        }
        LogRangeData {
            actual_executions_by_cid,
            actual_instant_events_by_cid,
            actual_metrics,
            actual_cycles,
            is_truncated: exec_truncated || event_truncated || metric_truncated || cycle_truncated,
        }
    }
}

/// `r` is the part of the log `s` in the range from `start` to `end`, with
/// the caps given: none when the range is empty; otherwise, for each client
/// with runs or instant events in increasing ID order, the runs that start
/// by `end` and end at `start` or later and the instant events from
/// `start` to `end`, up to the caps over all clients; the metric points of
/// the range with the one just before it; the cycles that start within a
/// margin of two periods (at least 100 ms) around the range; and whether
/// any of these was cut by its cap.
pub open spec fn range_of(
    s: LogStore,
    start: u64,
    end: u64,
    max_e: nat,
    max_v: nat,
    max_m: nat,
    max_c: nat,
    r: LogRangeData,
) -> bool {
    if start > end {
        &&& r.actual_executions_by_cid@.len() == 0
        &&& r.actual_instant_events_by_cid@.len() == 0
        &&& r.actual_metrics@.len() == 0
        &&& r.actual_cycles@.len() == 0
        &&& !r.is_truncated
    } else {
        let cids = cids_below(s.executions_by_cid@.dom(), s.instant_events_by_cid@.dom(), 0x1_0000);
        let ef = exec_fold(s.executions_by_cid@, cids, start, end, max_e);
        let vf = event_fold(s.instant_events_by_cid@, cids, start, end, max_v);
        let mc = metric_candidates(s.metrics@, start, end);
        let cc = cycle_candidates(
            s.cycles@,
            start,
            end,
            cycle_margin(s.summary.config.server_config.cycle_time_ms),
        );
        &&& pairs_view(r.actual_executions_by_cid@) == ef.0
        &&& pairs_view(r.actual_instant_events_by_cid@) == vf.0
        &&& r.actual_metrics@ == mc.take(min_nat(max_m, mc.len()) as int)
        &&& r.actual_cycles@ == cc.take(min_nat(max_c, cc.len()) as int)
        &&& r.is_truncated == (ef.2 || vf.2 || mc.len() > max_m || cc.len() > max_c)
    }
}


/// The number of runs in the lists `ps`.
pub open spec fn runs_shown(ps: Seq<(u16, Seq<ActualExecution>)>) -> nat
    decreases ps.len(),
{
    if ps.len() == 0 {
        0
    } else {
        runs_shown(ps.drop_last()) + ps.last().1.len()
    }
}

/// The number of instant events in the lists `ps`.
pub open spec fn events_shown(ps: Seq<(u16, Seq<ActualInstantEvent>)>) -> nat
    decreases ps.len(),
{
    if ps.len() == 0 {
        0
    } else {
        events_shown(ps.drop_last()) + ps.last().1.len()
    }
}

/// The runs of the client `c` in the range.
pub open spec fn runs_in(m: Map<u16, Vec<ActualExecution>>, c: u16, start: u64, end: u64) -> Seq<ActualExecution> {
    if m.contains_key(c) {
        exec_slice(m[c]@, start, end)
    } else {
        Seq::empty()
    }
}

/// The instant events of the client `c` in the range.
pub open spec fn events_in(m: Map<u16, Vec<ActualInstantEvent>>, c: u16, start: u64, end: u64) -> Seq<
    ActualInstantEvent,
> {
    if m.contains_key(c) {
        event_slice(m[c]@, start, end)
    } else {
        Seq::empty()
    }
}

proof fn lemma_exec_fold(m: Map<u16, Vec<ActualExecution>>, cids: Seq<u16>, start: u64, end: u64, max: nat)
    ensures
        ({
            let f = exec_fold(m, cids, start, end, max);
            &&& f.0.len() == cids.len()
            &&& runs_shown(f.0) == f.1
            &&& f.1 <= max
            &&& forall|k: int|
                0 <= k < cids.len() ==> (#[trigger] f.0[k]).0 == cids[k] && f.0[k].1 == runs_in(
                    m,
                    cids[k],
                    start,
                    end,
                ).take(f.0[k].1.len() as int) && f.0[k].1.len() <= runs_in(m, cids[k], start, end).len()
            &&& !f.2 ==> forall|k: int|
                0 <= k < cids.len() ==> (#[trigger] f.0[k]).1 == runs_in(m, cids[k], start, end)
        }),
    decreases cids.len(),
{
    if cids.len() > 0 {
        let pre = cids.drop_last();
        lemma_exec_fold(m, pre, start, end, max);
        let prev = exec_fold(m, pre, start, end, max);
        let f = exec_fold(m, cids, start, end, max);
        let c = cids.last();
        let cand = runs_in(m, c, start, end);
        assert(f.0.drop_last() == prev.0);
        assert forall|k: int| 0 <= k < cids.len() implies (#[trigger] f.0[k]).0 == cids[k] && f.0[k].1 == runs_in(
            m,
            cids[k],
            start,
            end,
        ).take(f.0[k].1.len() as int) && f.0[k].1.len() <= runs_in(m, cids[k], start, end).len() by {
            if k < pre.len() {
                assert(f.0[k] == prev.0[k]);
                assert(cids[k] == pre[k]);
            } else {
                assert(cand.take(min_nat(room(prev.1, max), cand.len()) as int).len() == min_nat(
                    room(prev.1, max),
                    cand.len(),
                ));
            }
        }
        if !f.2 {
            assert forall|k: int| 0 <= k < cids.len() implies (#[trigger] f.0[k]).1 == runs_in(m, cids[k], start, end) by {
                if k < pre.len() {
                    assert(f.0[k] == prev.0[k]);
                    assert(cids[k] == pre[k]);
                } else {
                    assert(cand.take(cand.len() as int) =~= cand);
                }
            }
        }
    }
}

proof fn lemma_event_fold(m: Map<u16, Vec<ActualInstantEvent>>, cids: Seq<u16>, start: u64, end: u64, max: nat)
    ensures
        ({
            let f = event_fold(m, cids, start, end, max);
            &&& f.0.len() == cids.len()
            &&& events_shown(f.0) == f.1
            &&& f.1 <= max
            &&& forall|k: int|
                0 <= k < cids.len() ==> (#[trigger] f.0[k]).0 == cids[k] && f.0[k].1 == events_in(
                    m,
                    cids[k],
                    start,
                    end,
                ).take(f.0[k].1.len() as int) && f.0[k].1.len() <= events_in(m, cids[k], start, end).len()
            &&& !f.2 ==> forall|k: int|
                0 <= k < cids.len() ==> (#[trigger] f.0[k]).1 == events_in(m, cids[k], start, end)
        }),
    decreases cids.len(),
{
    if cids.len() > 0 {
        let pre = cids.drop_last();
        lemma_event_fold(m, pre, start, end, max);
        let prev = event_fold(m, pre, start, end, max);
        let f = event_fold(m, cids, start, end, max);
        let c = cids.last();
        let cand = events_in(m, c, start, end);
        assert(f.0.drop_last() == prev.0);
        assert forall|k: int| 0 <= k < cids.len() implies (#[trigger] f.0[k]).0 == cids[k] && f.0[k].1 == events_in(
            m,
            cids[k],
            start,
            end,
        ).take(f.0[k].1.len() as int) && f.0[k].1.len() <= events_in(m, cids[k], start, end).len() by {
            if k < pre.len() {
                assert(f.0[k] == prev.0[k]);
                assert(cids[k] == pre[k]);
            } else {
                assert(cand.take(min_nat(room(prev.1, max), cand.len()) as int).len() == min_nat(
                    room(prev.1, max),
                    cand.len(),
                ));
            }
        }
        if !f.2 {
            assert forall|k: int| 0 <= k < cids.len() implies (#[trigger] f.0[k]).1 == events_in(m, cids[k], start, end) by {
                if k < pre.len() {
                    assert(f.0[k] == prev.0[k]);
                    assert(cids[k] == pre[k]);
                } else {
                    assert(cand.take(cand.len() as int) =~= cand);
                }
            }
        }
    }
}

proof fn lemma_cids_below(a: Set<u16>, b: Set<u16>, n: nat)
    requires
        n <= 0x1_0000,
    ensures
        forall|k: int| 0 <= k < cids_below(a, b, n).len() ==> (#[trigger] cids_below(a, b, n)[k]) < n,
        forall|i: int, j: int|
            0 <= i < j < cids_below(a, b, n).len() ==> #[trigger] cids_below(a, b, n)[i]
                < #[trigger] cids_below(a, b, n)[j],
        forall|c: u16| (a.contains(c) || b.contains(c)) && c < n ==> #[trigger] cids_below(a, b, n).contains(c),
    decreases n,
{
    if n > 0 {
        let m = (n - 1) as nat;
        lemma_cids_below(a, b, m);
        let pre = cids_below(a, b, m);
        let all = cids_below(a, b, n);
        assert forall|k: int| 0 <= k < all.len() implies (#[trigger] all[k]) < n by {
            if k < pre.len() {
                assert(all[k] == pre[k]);
            }
        }
        assert forall|i: int, j: int| 0 <= i < j < all.len() implies #[trigger] all[i] < #[trigger] all[j] by {
            assert(all[i] == pre[i]);
            if j < pre.len() {
                assert(all[j] == pre[j]);
            }
        }
        assert forall|c: u16| (a.contains(c) || b.contains(c)) && c < n implies #[trigger] all.contains(c) by {
            if c < m {
                assert(pre.contains(c));
                let k = choose|k: int| 0 <= k < pre.len() && pre[k] == c;
                assert(all[k] == pre[k]);
            } else {
                assert(c == (n - 1) as u16);
                assert(all[all.len() - 1] == c);
            }
        }
    }
}


/// The number of runs in the range of the clients `cids`.
pub open spec fn runs_total(m: Map<u16, Vec<ActualExecution>>, cids: Seq<u16>, start: u64, end: u64) -> nat
    decreases cids.len(),
{
    if cids.len() == 0 {
        0
    } else {
        runs_total(m, cids.drop_last(), start, end) + runs_in(m, cids.last(), start, end).len()
    }
}

/// The number of instant events in the range of the clients `cids`.
pub open spec fn events_total(m: Map<u16, Vec<ActualInstantEvent>>, cids: Seq<u16>, start: u64, end: u64) -> nat
    decreases cids.len(),
{
    if cids.len() == 0 {
        0
    } else {
        events_total(m, cids.drop_last(), start, end) + events_in(m, cids.last(), start, end).len()
    }
}

proof fn lemma_exec_fold_total(m: Map<u16, Vec<ActualExecution>>, cids: Seq<u16>, start: u64, end: u64, max: nat)
    ensures
        exec_fold(m, cids, start, end, max).1 == min_nat(runs_total(m, cids, start, end), max),
        exec_fold(m, cids, start, end, max).2 <==> runs_total(m, cids, start, end) > max,
    decreases cids.len(),
{
    if cids.len() > 0 {
        let pre = cids.drop_last();
        lemma_exec_fold_total(m, pre, start, end, max);
        let prev = exec_fold(m, pre, start, end, max);
        let cand = runs_in(m, cids.last(), start, end);
        assert(cand.take(min_nat(room(prev.1, max), cand.len()) as int).len() == min_nat(
            room(prev.1, max),
            cand.len(),
        ));
    }
}

proof fn lemma_event_fold_total(m: Map<u16, Vec<ActualInstantEvent>>, cids: Seq<u16>, start: u64, end: u64, max: nat)
    ensures
        event_fold(m, cids, start, end, max).1 == min_nat(events_total(m, cids, start, end), max),
        event_fold(m, cids, start, end, max).2 <==> events_total(m, cids, start, end) > max,
    decreases cids.len(),
{
    if cids.len() > 0 {
        let pre = cids.drop_last();
        lemma_event_fold_total(m, pre, start, end, max);
        let prev = event_fold(m, pre, start, end, max);
        let cand = events_in(m, cids.last(), start, end);
        assert(cand.take(min_nat(room(prev.1, max), cand.len()) as int).len() == min_nat(
            room(prev.1, max),
            cand.len(),
        ));
    }
}

proof fn lemma_overlapping_bounds(t: Seq<ActualExecution>, start: u64, end: u64)
    requires
        forall|j: int| 0 <= j < t.len() ==> (#[trigger] t[j]).start_ms <= end,
    ensures
        forall|k: int|
            0 <= k < overlapping(t, start).len() ==> (#[trigger] overlapping(t, start)[k]).start_ms <= end
                && overlapping(t, start)[k].start_ms + overlapping(t, start)[k].duration_ms >= start,
    decreases t.len(),
{
    if t.len() > 0 {
        let pre = t.drop_last();
        assert forall|j: int| 0 <= j < pre.len() implies (#[trigger] pre[j]).start_ms <= end by {
            assert(pre[j] == t[j]);
        }
        lemma_overlapping_bounds(pre, start, end);
        let o = overlapping(t, start);
        let op = overlapping(pre, start);
        assert forall|k: int| 0 <= k < o.len() implies (#[trigger] o[k]).start_ms <= end && o[k].start_ms
            + o[k].duration_ms >= start by {
            if k < op.len() {
                assert(o[k] == op[k]);
            } else {
                assert(o[k] == t[t.len() - 1]);
            }
        }
    }
}

/// Each run shown for a range starts by its end and ends at its start or
/// later.
proof fn lemma_exec_slice_bounds(s: Seq<ActualExecution>, start: u64, end: u64)
    ensures
        forall|k: int|
            0 <= k < exec_slice(s, start, end).len() ==> (#[trigger] exec_slice(s, start, end)[k]).start_ms
                <= end && exec_slice(s, start, end)[k].start_ms + exec_slice(s, start, end)[k].duration_ms
                >= start,
{
    lemma_first_above_exists(exec_starts(s), end);
    let t = s.take(first_above(exec_starts(s), end));
    assert forall|j: int| 0 <= j < t.len() implies (#[trigger] t[j]).start_ms <= end by {
        assert(t[j] == s[j]);
        assert(exec_starts(s)[j] == s[j].start_ms);
    }
    lemma_overlapping_bounds(t, start, end);
}

/// Each instant event shown for a range of a client whose events are in
/// time order lies within the range.
proof fn lemma_event_slice_bounds(s: Seq<ActualInstantEvent>, start: u64, end: u64)
    requires
        crate::log_parser::events_sorted(s),
    ensures
        forall|k: int|
            0 <= k < event_slice(s, start, end).len() ==> start <= (#[trigger] event_slice(
                s,
                start,
                end,
            )[k]).time_ms <= end,
{
    lemma_first_reaching_exists(event_times(s), start);
    let i0 = first_reaching(event_times(s), start);
    let rest = s.subrange(i0, s.len() as int);
    lemma_first_above_exists(event_times(rest), end);
    let fa = first_above(event_times(rest), end);
    let ev = event_slice(s, start, end);
    assert forall|k: int| 0 <= k < ev.len() implies start <= (#[trigger] ev[k]).time_ms <= end by {
        assert(ev[k] == rest[k]);
        assert(rest[k] == s[i0 + k]);
        assert(event_times(rest)[k] == rest[k].time_ms);
        assert(event_times(s)[i0] == s[i0].time_ms);
        if k > 0 {
            assert(s[i0].time_ms <= s[i0 + k].time_ms);
        }
    }
}

/// What a range request gives back: the client lists in increasing order
/// of client ID, one for each client with runs or instant events; no more
/// runs, instant events, metric points or cycles than their caps; each
/// client's list the first runs (or instant events) of the client in the
/// range; and, when nothing was cut, every one of them, every metric point
/// and every cycle of the range.
pub proof fn lemma_range_caps(
    s: LogStore,
    start: u64,
    end: u64,
    max_e: nat,
    max_v: nat,
    max_m: nat,
    max_c: nat,
    r: LogRangeData,
)
    requires
        range_of(s, start, end, max_e, max_v, max_m, max_c, r),
        start <= end,
    ensures
        ({
            let es = pairs_view(r.actual_executions_by_cid@);
            let vs = pairs_view(r.actual_instant_events_by_cid@);
            let em = s.executions_by_cid@;
            let vm = s.instant_events_by_cid@;
            &&& runs_shown(es) <= max_e
            &&& events_shown(vs) <= max_v
            &&& r.actual_metrics@.len() <= max_m
            &&& r.actual_cycles@.len() <= max_c
            &&& es.len() == vs.len()
            &&& forall|k: int| 0 <= k < es.len() ==> (#[trigger] es[k]).0 == vs[k].0
            &&& forall|i: int, j: int| 0 <= i < j < es.len() ==> #[trigger] es[i].0 < #[trigger] es[j].0
            &&& forall|c: u16|
                em.contains_key(c) || vm.contains_key(c) ==> exists|k: int|
                    0 <= k < es.len() && #[trigger] es[k].0 == c && vs[k].0 == c
            &&& forall|k: int|
                0 <= k < es.len() ==> (#[trigger] es[k]).1 == runs_in(em, es[k].0, start, end).take(
                    es[k].1.len() as int,
                ) && vs[k].1 == events_in(vm, vs[k].0, start, end).take(vs[k].1.len() as int)
            &&& !r.is_truncated ==> {
                &&& forall|k: int|
                    0 <= k < es.len() ==> (#[trigger] es[k]).1 == runs_in(em, es[k].0, start, end)
                        && vs[k].1 == events_in(vm, vs[k].0, start, end)
                &&& r.actual_metrics@ == metric_candidates(s.metrics@, start, end)
                &&& r.actual_cycles@ == cycle_candidates(
                    s.cycles@,
                    start,
                    end,
                    cycle_margin(s.summary.config.server_config.cycle_time_ms),
                )
            }
        }),
{
    let em = s.executions_by_cid@;
    let vm = s.instant_events_by_cid@;
    let cids = cids_below(em.dom(), vm.dom(), 0x1_0000);
    lemma_exec_fold(em, cids, start, end, max_e);
    lemma_event_fold(vm, cids, start, end, max_v);
    lemma_cids_below(em.dom(), vm.dom(), 0x1_0000);
    let es = pairs_view(r.actual_executions_by_cid@);
    let vs = pairs_view(r.actual_instant_events_by_cid@);
    assert forall|c: u16| em.contains_key(c) || vm.contains_key(c) implies exists|k: int|
        0 <= k < es.len() && #[trigger] es[k].0 == c && vs[k].0 == c by {
        assert(cids.contains(c));
        let k = choose|k: int| 0 <= k < cids.len() && cids[k] == c;
        assert(es[k].0 == cids[k]);
    }
    let mc = metric_candidates(s.metrics@, start, end);
    let cc = cycle_candidates(s.cycles@, start, end, cycle_margin(s.summary.config.server_config.cycle_time_ms));
    if !r.is_truncated {
        assert(mc.take(mc.len() as int) =~= mc);
        assert(cc.take(cc.len() as int) =~= cc);
    }
}


/// The IDs of the clients with runs or instant events, in increasing order.
pub open spec fn range_ids(s: LogStore) -> Seq<u16> {
    cids_below(s.executions_by_cid@.dom(), s.instant_events_by_cid@.dom(), 0x1_0000)
}

/// How much a range request gives back and when it is cut: of the runs,
/// instant events, metric points and cycles of the range, the first up to
/// each cap, cut exactly when one of them has more than its cap; each run
/// shown starts by the end of the range and ends at its start or later;
/// and where the instant events of every client are in time order, each
/// one shown lies within the range.
pub proof fn lemma_range_window(
    s: LogStore,
    start: u64,
    end: u64,
    max_e: nat,
    max_v: nat,
    max_m: nat,
    max_c: nat,
    r: LogRangeData,
)
    requires
        range_of(s, start, end, max_e, max_v, max_m, max_c, r),
        start <= end,
    ensures
        ({
            let es = pairs_view(r.actual_executions_by_cid@);
            let vs = pairs_view(r.actual_instant_events_by_cid@);
            let em = s.executions_by_cid@;
            let vm = s.instant_events_by_cid@;
            let nr = runs_total(em, range_ids(s), start, end);
            let nv = events_total(vm, range_ids(s), start, end);
            let mc = metric_candidates(s.metrics@, start, end);
            let cc = cycle_candidates(
                s.cycles@,
                start,
                end,
                cycle_margin(s.summary.config.server_config.cycle_time_ms),
            );
            &&& runs_shown(es) == min_nat(nr, max_e)
            &&& events_shown(vs) == min_nat(nv, max_v)
            &&& r.actual_metrics@.len() == min_nat(mc.len(), max_m)
            &&& r.actual_cycles@.len() == min_nat(cc.len(), max_c)
            &&& r.is_truncated == (nr > max_e || nv > max_v || mc.len() > max_m || cc.len() > max_c)
            &&& forall|k: int, q: int|
                0 <= k < es.len() && 0 <= q < es[k].1.len() ==> (#[trigger] es[k].1[q]).start_ms <= end
                    && es[k].1[q].start_ms + es[k].1[q].duration_ms >= start
            &&& (forall|c: u16| #[trigger] vm.contains_key(c) ==> crate::log_parser::events_sorted(vm[c]@))
                ==> forall|k: int, q: int|
                0 <= k < vs.len() && 0 <= q < vs[k].1.len() ==> start <= (#[trigger] vs[k].1[q]).time_ms
                    <= end
        }),
{
    let em = s.executions_by_cid@;
    let vm = s.instant_events_by_cid@;
    let cids = range_ids(s);
    lemma_exec_fold(em, cids, start, end, max_e);
    lemma_event_fold(vm, cids, start, end, max_v);
    lemma_exec_fold_total(em, cids, start, end, max_e);
    lemma_event_fold_total(vm, cids, start, end, max_v);
    let es = pairs_view(r.actual_executions_by_cid@);
    let vs = pairs_view(r.actual_instant_events_by_cid@);
    assert(es == exec_fold(em, cids, start, end, max_e).0);
    assert(vs == event_fold(vm, cids, start, end, max_v).0);
    assert forall|k: int, q: int| 0 <= k < es.len() && 0 <= q < es[k].1.len() implies (
    #[trigger] es[k].1[q]).start_ms <= end && es[k].1[q].start_ms + es[k].1[q].duration_ms >= start by {
        let full = runs_in(em, cids[k], start, end);
        assert(es[k].1[q] == full[q]);
        if em.contains_key(cids[k]) {
            lemma_exec_slice_bounds(em[cids[k]]@, start, end);
        }
    }
    if forall|c: u16| #[trigger] vm.contains_key(c) ==> crate::log_parser::events_sorted(vm[c]@) {
        assert forall|k: int, q: int| 0 <= k < vs.len() && 0 <= q < vs[k].1.len() implies start <= (
        #[trigger] vs[k].1[q]).time_ms <= end by {
            let full = events_in(vm, cids[k], start, end);
            assert(vs[k].1[q] == full[q]);
            if vm.contains_key(cids[k]) {
                lemma_event_slice_bounds(vm[cids[k]]@, start, end);
            }
        }
    }
}

} // verus!
