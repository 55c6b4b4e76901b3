//! Plan simulation: the scheduler runs over simulated time, each process
//! taking its expected duration, and the planned runs and the number of
//! runs in progress are recorded.
use vstd::prelude::*;

use std::collections::HashMap;

use crate::config::{
    errors_view, find_last, floating_in, last_index, validation_errors, ClientConfig,
    SchedulerConfig, ClientRule, has_client,
};
use crate::entry::{all_unmet, ProcessEntry, ProcessState};
use crate::scheduler::{
    deps_exist, distinct_cids, done_rel, done_state, entry_of, has_cid, lemma_start_points,
    lemma_start_points_member, not_ready_state, ready_rel, same_shape, start_points, start_rel,
    started_changes, starts_on_done, ProcessStateChange, Scheduler,
};
use crate::vis::{ExecutionStatus, PlannedExecution, PlannedMetricPoint, SimulationResult};

verus! {

/// The most events a simulation handles.
pub const MAX_SIMULATION_LOOPS: u32 = 100_000;

/// The shortest planned run.
pub const MIN_DURATION_MS: u32 = 5;

/// What happens at a point of simulated time.
#[derive(Clone, Copy, PartialEq, Eq, Structural)]
pub enum EventKind {
    /// The cycle with this number starts.
    ServerCycle(i64),
    /// The run with this instance ID of this process ends.
    ProcessDone(u16, u32),
}

/// An event at a point of simulated time.
#[derive(Clone, Copy)]
pub struct SimulationEvent {
    pub time_ms: u32,
    pub kind: EventKind,
}

/// The order of events at the same time: ends come before cycle starts.
pub open spec fn kind_rank(k: EventKind) -> int {
    match k {
        EventKind::ProcessDone(..) => 0,
        EventKind::ServerCycle(_) => 1,
    }
}

/// `a` is handled before `b`: it is earlier, or at the same time an end
/// while `b` is a cycle start.
pub open spec fn comes_before(a: SimulationEvent, b: SimulationEvent) -> bool {
    a.time_ms < b.time_ms || (a.time_ms == b.time_ms && kind_rank(a.kind) < kind_rank(b.kind))
}

/// `k` is the position of the next event in `q`: no event comes before it,
/// and it comes before every event ahead of it in the queue.
pub open spec fn is_next(q: Seq<SimulationEvent>, k: int) -> bool {
    &&& 0 <= k < q.len()
    &&& forall|j: int| 0 <= j < q.len() ==> !comes_before(#[trigger] q[j], q[k])
    &&& forall|j: int| 0 <= j < k ==> comes_before(q[k], #[trigger] q[j])
}

fn comes_before_exec(a: &SimulationEvent, b: &SimulationEvent) -> (r: bool)
    ensures
        r == comes_before(*a, *b),
{
    if a.time_ms != b.time_ms {
        a.time_ms < b.time_ms
    } else {
        match (a.kind, b.kind) {
            (EventKind::ProcessDone(_, _), EventKind::ServerCycle(_)) => true,
            _ => false,
        }
    }
}

/// Takes the next event out of the queue: see `is_next`.
pub fn pop_next(events: &mut Vec<SimulationEvent>) -> (r: Option<SimulationEvent>)
    ensures
        old(events)@.len() == 0 ==> r is None && final(events)@ == old(events)@,
        old(events)@.len() > 0 ==> exists|k: int|
            is_next(old(events)@, k) && r == Some(old(events)@[k]) && final(events)@ == old(
                events,
            )@.remove(k),
{
    if events.len() == 0 {
        return None;
    }
    let mut best: usize = 0;
    let mut j: usize = 1;
    while j < events.len()
        invariant
            1 <= j <= events@.len(),
            best < j,
            forall|q: int| 0 <= q < j ==> !comes_before(#[trigger] events@[q], events@[best as int]),
            forall|q: int| 0 <= q < best ==> comes_before(events@[best as int], #[trigger] events@[q]),
        decreases events@.len() - j,
    {
        if comes_before_exec(&events[j], &events[best]) {
            best = j;
        }
        j += 1;
    }
    let ghost q0 = events@;
    let e = events.remove(best);
    assert(is_next(q0, best as int));
    Some(e)
}

/// The planned duration of a run of the client `c`.
pub open spec fn planned_duration(c: ClientConfig) -> u32 {
    if c.expected_duration_ms > MIN_DURATION_MS {
        c.expected_duration_ms
    } else {
        MIN_DURATION_MS
    }
}

/// The instance IDs of the last runs of the processes `deps`, for those
/// that have run, in order.
pub open spec fn dep_instances(last: Map<u16, u32>, deps: Seq<u16>) -> Seq<u32>
    decreases deps.len(),
{
    if deps.len() == 0 {
        Seq::empty()
    } else {
        dep_instances(last, deps.drop_last()) + if last.contains_key(deps.last()) {
            seq![last[deps.last()]]
        } else {
            Seq::empty()
        }
    }
}

/// Where the cycle `cycle` starts, in milliseconds, kept to 32 bits.
pub open spec fn cycle_base(cycle: int, cycle_time_ms: u32) -> u32 {
    (cycle * cycle_time_ms) as u32
}

/// The runs in progress and the planned runs recorded so far.
pub struct SimulationRecorder {
    pub instance_counter: u32,
    /// The instance ID of the run in progress of each process.
    pub current_running: HashMap<u16, u32>,
    /// The instance ID of the last finished run of each process.
    pub last_instance_ids: HashMap<u16, u32>,
    pub executions: Vec<PlannedExecution>,
    pub metrics: Vec<PlannedMetricPoint>,
}

/// The planned run `e` is the one described.
pub open spec fn run_is(
    e: PlannedExecution,
    id: u32,
    cid: u16,
    cycle: i64,
    cycle_time_ms: u32,
    time_ms: u32,
    duration_ms: u32,
    deps: Seq<u32>,
    status: ExecutionStatus,
) -> bool {
    &&& e.instance_id == id
    &&& e.cid == cid
    &&& e.cycle == cycle
    &&& e.cycle_offset_ms == if time_ms >= cycle_base(cycle as int, cycle_time_ms) {
        (time_ms - cycle_base(cycle as int, cycle_time_ms)) as u32
    } else {
        0
    }
    &&& e.start_ms == time_ms
    &&& e.duration_ms == duration_ms
    &&& e.depends_instance_ids@ == deps
    &&& e.status == status
}

/// The position of the first planned run with instance ID `id`.
pub open spec fn first_run(es: Seq<PlannedExecution>, id: u32) -> Option<int>
    decreases es.len(),
{
    if es.len() == 0 {
        None
    } else {
        match first_run(es.drop_last(), id) {
            Some(k) => Some(k),
            None => if es.last().instance_id == id {
                Some(es.len() - 1)
            } else {
                None
            },
        }
    }
}

impl SimulationRecorder {
    /// Nothing recorded yet.
    pub fn new() -> (r: Self)
        ensures
            r.instance_counter == 0,
            r.current_running@ == Map::<u16, u32>::empty(),
            r.last_instance_ids@ == Map::<u16, u32>::empty(),
            r.executions@.len() == 0,
            r.metrics@.len() == 0,
    {
        SimulationRecorder {
            instance_counter: 0,
            current_running: HashMap::new(),
            last_instance_ids: HashMap::new(),
            executions: Vec::new(),
            metrics: Vec::new(),
        }
    }

    /// Records the number of runs in progress at `time_ms`: a point at the
    /// same time as the last one replaces it.
    pub fn record_metric(&mut self, time_ms: u32)
        ensures
            ({
                let p = PlannedMetricPoint {
                    time_ms: time_ms,
                    running_count: old(self).current_running@.len() as u32,
                };
                let ms = old(self).metrics@;
                final(self).metrics@ == if ms.len() > 0 && ms.last().time_ms == time_ms {
                    ms.update(ms.len() - 1, p)
                } else {
                    ms.push(p)
                }
            }),
            final(self).instance_counter == old(self).instance_counter,
            final(self).current_running@ == old(self).current_running@,
            final(self).last_instance_ids@ == old(self).last_instance_ids@,
            final(self).executions@ == old(self).executions@,
    {
        let running_count = #[verifier::truncate] (self.current_running.len() as u32);
        let p = PlannedMetricPoint { time_ms, running_count };
        let n = self.metrics.len();
        if n > 0 && self.metrics[n - 1].time_ms == time_ms {
            self.metrics.set(n - 1, p);
        } else {
            self.metrics.push(p);
        }
    }

    /// The instance IDs of the last runs of the processes `deps`.
    fn dep_ids(&self, deps: &Vec<u16>) -> (r: Vec<u32>)
        ensures
            r@ == dep_instances(self.last_instance_ids@, deps@),
    {
        let mut out: Vec<u32> = Vec::new();
        let mut k: usize = 0;
        while k < deps.len()
            invariant
                k <= deps.len(),
                out@ == dep_instances(self.last_instance_ids@, deps@.take(k as int)),
            decreases deps.len() - k,
        {
            proof {
                let t = deps@.take(k + 1);
                assert(t.drop_last() =~= deps@.take(k as int));
            }
            match self.last_instance_ids.get(&deps[k]) {
                Some(id) => {
                    out.push(*id);
                },
                None => {},
            }
            k += 1;
        }
        assert(deps@.take(k as int) =~= deps@);
        out
    }

    /// Marks the first planned run with instance ID `id` as overrun.
    fn mark_overrun(&mut self, id: u32)
        ensures
            final(self).executions@ == match first_run(old(self).executions@, id) {
                Some(k) => old(self).executions@.update(
                    k,
                    PlannedExecution { status: ExecutionStatus::Overrun, ..old(self).executions@[k] },
                ),
                None => old(self).executions@,
            },
            final(self).instance_counter == old(self).instance_counter,
            final(self).current_running@ == old(self).current_running@,
            final(self).last_instance_ids@ == old(self).last_instance_ids@,
            final(self).metrics@ == old(self).metrics@,
    {
        let mut k: usize = 0;
        while k < self.executions.len()
            invariant
                k <= self.executions@.len(),
                *self == *old(self),
                first_run(self.executions@.take(k as int), id) is None,
            decreases self.executions@.len() - k,
        {
            proof {
                let t = self.executions@.take(k + 1);
                assert(t.drop_last() =~= self.executions@.take(k as int));
            }
            if self.executions[k].instance_id == id {
                proof {
                    lemma_first_run_prefix(self.executions@, id, k as int + 1);
                }
                let mut e = self.executions.remove(k);
                e.status = ExecutionStatus::Overrun;
                self.executions.insert(k, e);
                assert(self.executions@ =~= old(self).executions@.update(
                    k as int,
                    PlannedExecution { status: ExecutionStatus::Overrun, ..old(self).executions@[k as int] },
                ));
                return;
            }
            k += 1;
        }
        proof {
            assert(self.executions@.take(k as int) =~= self.executions@);
        }
    }
}

/// The first run found is in range and has the instance ID.
proof fn lemma_first_run_range(es: Seq<PlannedExecution>, id: u32)
    ensures
        first_run(es, id) is Some ==> 0 <= first_run(es, id)->0 < es.len() && es[first_run(
            es,
            id,
        )->0].instance_id == id,
    decreases es.len(),
{
    if es.len() > 0 {
        lemma_first_run_range(es.drop_last(), id);
    }
}

/// The first run found in a prefix is the first run of the whole list.
proof fn lemma_first_run_prefix(es: Seq<PlannedExecution>, id: u32, n: int)
    requires
        0 <= n <= es.len(),
        first_run(es.take(n), id) is Some,
    ensures
        first_run(es, id) == first_run(es.take(n), id),
    decreases es.len() - n,
{
    if n < es.len() {
        let t = es.take(n + 1);
        assert(t.drop_last() =~= es.take(n));
        lemma_first_run_prefix(es, id, n + 1);
    } else {
        assert(es.take(n) =~= es);
    }
}


/// The static part of a simulation.
pub struct SimulationContext {
    pub cycle_time_ms: u32,
    pub client_configs: Vec<ClientConfig>,
}

/// The recorder as mathematical values.
pub struct RecorderView {
    pub counter: u32,
    pub running: Map<u16, u32>,
    pub last: Map<u16, u32>,
    pub executions: Seq<PlannedExecution>,
    pub metrics: Seq<PlannedMetricPoint>,
}

impl View for SimulationRecorder {
    type V = RecorderView;

    open spec fn view(&self) -> RecorderView {
        RecorderView {
            counter: self.instance_counter,
            running: self.current_running@,
            last: self.last_instance_ids@,
            executions: self.executions@,
            metrics: self.metrics@,
        }
    }
}

/// `v1` is `v0` with one more planned run, the one described, under the
/// next instance ID.
pub open spec fn run_added(
    v0: RecorderView,
    v1: RecorderView,
    cid: u16,
    cycle: i64,
    cycle_time_ms: u32,
    time_ms: u32,
    duration_ms: u32,
    deps: Seq<u32>,
    status: ExecutionStatus,
) -> bool {
    &&& v1.counter == v0.counter.wrapping_add(1)
    &&& v1.executions.len() == v0.executions.len() + 1
    &&& v1.executions.drop_last() == v0.executions
    &&& run_is(
        v1.executions.last(),
        v0.counter,
        cid,
        cycle,
        cycle_time_ms,
        time_ms,
        duration_ms,
        deps,
        status,
    )
    &&& v1.metrics == v0.metrics
}

/// The run in progress of the process `cid`, if any, has finished: it is
/// now its last run.
pub open spec fn run_finished(v0: RecorderView, v1: RecorderView, cid: u16) -> bool {
    if v0.running.contains_key(cid) {
        v1 == RecorderView {
            running: v0.running.remove(cid),
            last: v0.last.insert(cid, v0.running[cid]),
            ..v0
        }
    } else {
        v1 == v0
    }
}

/// How the state change `ch` at `time_ms`, in the cycle `cycle`, is
/// recorded, with `q0` and `q1` the event queue before and after: a start
/// plans a run and its end, an overrun marks the run, a skip plans a run
/// that does not happen, and an end finishes the run in progress.
pub open spec fn change_recorded(
    v0: RecorderView,
    v1: RecorderView,
    q0: Seq<SimulationEvent>,
    q1: Seq<SimulationEvent>,
    time_ms: u32,
    ch: ProcessStateChange,
    cycle: i64,
    cfgs: Seq<ClientConfig>,
    cycle_time_ms: u32,
) -> bool {
    match last_index(cfgs, ch.cid) {
        None => v1 == v0 && q1 == q0,
        Some(i) => {
            let c = cfgs[i];
            let dur = planned_duration(c);
            match ch.after {
                ProcessState::Running => {
                    &&& run_added(
                        v0,
                        v1,
                        ch.cid,
                        cycle,
                        cycle_time_ms,
                        time_ms,
                        dur,
                        dep_instances(v0.last, c.depends@),
                        ExecutionStatus::Normal,
                    )
                    &&& v1.running == v0.running.insert(ch.cid, v0.counter)
                    &&& v1.last == v0.last
                    &&& q1 == q0.push(
                        SimulationEvent {
                            time_ms: if time_ms + dur <= u32::MAX {
                                (time_ms + dur) as u32
                            } else {
                                u32::MAX
                            },
                            kind: EventKind::ProcessDone(ch.cid, v0.counter),
                        },
                    )
                },
                ProcessState::Overrun => {
                    &&& q1 == q0
                    &&& v1 == if v0.running.contains_key(ch.cid) {
                        RecorderView {
                            executions: match first_run(v0.executions, v0.running[ch.cid]) {
                                Some(k) => v0.executions.update(
                                    k,
                                    PlannedExecution {
                                        status: ExecutionStatus::Overrun,
                                        ..v0.executions[k]
                                    },
                                ),
                                None => v0.executions,
                            },
                            ..v0
                        }
                    } else {
                        v0
                    }
                },
                ProcessState::Skip => {
                    &&& run_added(
                        v0,
                        v1,
                        ch.cid,
                        cycle,
                        cycle_time_ms,
                        time_ms,
                        dur,
                        Seq::empty(),
                        ExecutionStatus::Skip,
                    )
                    &&& v1.running == v0.running
                    &&& v1.last == v0.last
                    &&& q1 == q0
                },
                ProcessState::Late => {
                    &&& q1 == q0
                    &&& if ch.before == ProcessState::Overrun {
                        run_finished(v0, v1, ch.cid)
                    } else {
                        v1 == v0
                    }
                },
                ProcessState::Idle => {
                    &&& q1 == q0
                    &&& if ch.before == ProcessState::Running {
                        run_finished(v0, v1, ch.cid)
                    } else {
                        v1 == v0
                    }
                },
                ProcessState::Ready => v1 == v0 && q1 == q0,
            }
        },
    }
}

/// Where the cycle `cycle` starts, kept to 32 bits.
fn cycle_base_exec(cycle: i64, cycle_time_ms: u32) -> (r: u32)
    ensures
        r == cycle_base(cycle as int, cycle_time_ms),
{
    let a: i128 = cycle as i128;
    let b: i128 = cycle_time_ms as i128;
    assert(-0x8000_0000_0000_0000 * 0x1_0000_0000 <= a * b <= 0x8000_0000_0000_0000 * 0x1_0000_0000)
        by (nonlinear_arith)
        requires
            -0x8000_0000_0000_0000 <= a < 0x8000_0000_0000_0000,
            0 <= b < 0x1_0000_0000,
    ;
    let p: i128 = a * b;
    #[verifier::truncate] (p as u32)
}

impl SimulationRecorder {
    /// Plans a run of the client `c`, as described by `run_added`.
    fn add_run(
        &mut self,
        c: &ClientConfig,
        time_ms: u32,
        cycle: i64,
        cycle_time_ms: u32,
        deps: Vec<u32>,
        status: ExecutionStatus,
    ) -> (id: u32)
        ensures
            id == old(self)@.counter,
            run_added(
                old(self)@,
                final(self)@,
                c.client_id,
                cycle,
                cycle_time_ms,
                time_ms,
                planned_duration(*c),
                deps@,
                status,
            ),
            final(self)@.running == old(self)@.running,
            final(self)@.last == old(self)@.last,
    {
        let duration_ms = if c.expected_duration_ms > MIN_DURATION_MS {
            c.expected_duration_ms
        } else {
            MIN_DURATION_MS
        };
        let id = self.instance_counter;
        self.instance_counter = self.instance_counter.wrapping_add(1);
        let base = cycle_base_exec(cycle, cycle_time_ms);
        let cycle_offset_ms = time_ms.saturating_sub(base);
        let ghost e0 = self.executions@;
        self.executions.push(
            PlannedExecution {
                instance_id: id,
                cid: c.client_id,
                cycle,
                cycle_offset_ms,
                start_ms: time_ms,
                duration_ms,
                depends_instance_ids: deps,
                status,
            },
        );
        assert(self.executions@.drop_last() =~= e0);
        id
    }

    /// Finishes the run in progress of the process `cid`: see
    /// `run_finished`.
    fn finish_run(&mut self, cid: u16)
        ensures
            run_finished(old(self)@, final(self)@, cid),
    {
        let ghost v0 = self@;
        match self.current_running.remove(&cid) {
            Some(id) => {
                self.last_instance_ids.insert(cid, id);
                assert(self@.running =~= v0.running.remove(cid));
                assert(self@.last =~= v0.last.insert(cid, v0.running[cid]));
            },
            None => {
                assert(self@.running =~= v0.running);
            },
        }
    }

    /// Records the state change `change` at `time_ms` in the cycle
    /// `current_cycle`: see `change_recorded`.
    pub fn record_change(
        &mut self,
        time_ms: u32,
        change: &ProcessStateChange,
        current_cycle: i64,
        ctx: &SimulationContext,
        events: &mut Vec<SimulationEvent>,
    )
        ensures
            change_recorded(
                old(self)@,
                final(self)@,
                old(events)@,
                final(events)@,
                time_ms,
                *change,
                current_cycle,
                ctx.client_configs@,
                ctx.cycle_time_ms,
            ),
    {
        let i = match find_last(&ctx.client_configs, change.cid) {
            Some(i) => i,
            None => {
                return;
            },
        };
        proof {
            crate::config::lemma_last_index(ctx.client_configs@, change.cid);
        }
        let c = &ctx.client_configs[i];
        match change.after {
            ProcessState::Running => {
                let deps = self.dep_ids(&c.depends);
                let id = self.add_run(c, time_ms, current_cycle, ctx.cycle_time_ms, deps, ExecutionStatus::Normal);
                self.current_running.insert(change.cid, id);
                let duration_ms = if c.expected_duration_ms > MIN_DURATION_MS {
                    c.expected_duration_ms
                } else {
                    MIN_DURATION_MS
                };
                events.push(
                    SimulationEvent {
                        time_ms: time_ms.saturating_add(duration_ms),
                        kind: EventKind::ProcessDone(change.cid, id),
                    },
                );
            },
            ProcessState::Overrun => {
                match self.current_running.get(&change.cid) {
                    Some(id) => {
                        let id = *id;
                        self.mark_overrun(id);
                    },
                    None => {},
                }
            },
            ProcessState::Skip => {
                let _ = self.add_run(
                    c,
                    time_ms,
                    current_cycle,
                    ctx.cycle_time_ms,
                    Vec::new(),
                    ExecutionStatus::Skip,
                );
            },
            ProcessState::Late => {
                if change.before == ProcessState::Overrun {
                    self.finish_run(change.cid);
                }
            },
            ProcessState::Idle => {
                if change.before == ProcessState::Running {
                    self.finish_run(change.cid);
                }
            },
            ProcessState::Ready => {},
        }
    }
}


/// The recorder once the number of runs in progress at `time_ms` is
/// recorded: see `record_metric`.
pub open spec fn metric_recorded(v: RecorderView, time_ms: u32) -> RecorderView {
    let p = PlannedMetricPoint { time_ms: time_ms, running_count: v.running.len() as u32 };
    RecorderView {
        metrics: if v.metrics.len() > 0 && v.metrics.last().time_ms == time_ms {
            v.metrics.update(v.metrics.len() - 1, p)
        } else {
            v.metrics.push(p)
        },
        ..v
    }
}

/// The state changes `chs` at `time_ms` were recorded in order, through
/// the recorders `vs` and the queues `qs`.
pub open spec fn changes_chain(
    vs: Seq<RecorderView>,
    qs: Seq<Seq<SimulationEvent>>,
    time_ms: u32,
    chs: Seq<ProcessStateChange>,
    cycle: i64,
    cfgs: Seq<ClientConfig>,
    cycle_time_ms: u32,
) -> bool {
    &&& vs.len() == chs.len() + 1
    &&& qs.len() == chs.len() + 1
    &&& forall|k: int|
        0 <= k < chs.len() ==> #[trigger] change_recorded(
            vs[k],
            vs[k + 1],
            qs[k],
            qs[k + 1],
            time_ms,
            chs[k],
            cycle,
            cfgs,
            cycle_time_ms,
        )
}

/// Every planned run is of a configured client, takes its planned
/// duration, and a skipped run depends on nothing.
pub open spec fn runs_ok(cfgs: Seq<ClientConfig>, es: Seq<PlannedExecution>) -> bool {
    forall|k: int|
        0 <= k < es.len() ==> {
            let e = #[trigger] es[k];
            &&& last_index(cfgs, e.cid) is Some
            &&& e.duration_ms == planned_duration(cfgs[last_index(cfgs, e.cid)->0])
            &&& e.status == ExecutionStatus::Skip ==> e.depends_instance_ids@.len() == 0
        }
}

/// No planned run starts after `time_ms`.
pub open spec fn starts_by(es: Seq<PlannedExecution>, time_ms: u32) -> bool {
    forall|k: int| 0 <= k < es.len() ==> (#[trigger] es[k]).start_ms <= time_ms
}

/// Each planned run has its position as instance ID, counted in 32 bits.
pub open spec fn ids_in_order(es: Seq<PlannedExecution>) -> bool {
    forall|k: int| 0 <= k < es.len() ==> (#[trigger] es[k]).instance_id as int == k % 0x1_0000_0000
}

/// The next instance ID is the number of planned runs, counted in 32 bits,
/// and each planned run has its position as instance ID.
pub open spec fn numbered(v: RecorderView) -> bool {
    &&& v.counter as int == v.executions.len() % 0x1_0000_0000
    &&& ids_in_order(v.executions)
}

/// The metric points are in strictly increasing time order.
pub open spec fn metrics_increasing(ms: Seq<PlannedMetricPoint>) -> bool {
    forall|a: int, b: int| 0 <= a < b < ms.len() ==> #[trigger] ms[a].time_ms < #[trigger] ms[b].time_ms
}

/// No queued event is earlier than `now`.
pub open spec fn queue_from(q: Seq<SimulationEvent>, now: u32) -> bool {
    forall|j: int| 0 <= j < q.len() ==> (#[trigger] q[j]).time_ms >= now
}

/// `q1` is `q0` with run ends queued after it.
pub open spec fn appended(q0: Seq<SimulationEvent>, q1: Seq<SimulationEvent>) -> bool {
    &&& q1.len() >= q0.len()
    &&& q1.subrange(0, q0.len() as int) == q0
    &&& forall|j: int| q0.len() <= j < q1.len() ==> (#[trigger] q1[j]).kind is ProcessDone
}

proof fn lemma_appended_trans(q0: Seq<SimulationEvent>, q1: Seq<SimulationEvent>, q2: Seq<SimulationEvent>)
    requires
        appended(q0, q1),
        appended(q1, q2),
    ensures
        appended(q0, q2),
{
    assert(q2.subrange(0, q0.len() as int) =~= q1.subrange(0, q0.len() as int));
    assert forall|j: int| q0.len() <= j < q2.len() implies (#[trigger] q2[j]).kind is ProcessDone by {
        if j < q1.len() {
            assert(q2[j] == q2.subrange(0, q1.len() as int)[j]);
        }
    }
}

/// Where the cycle `c` starts, or the largest `u32` when that is later.
pub open spec fn cycle_start(c: int, cycle_time_ms: u32) -> u32 {
    if c * cycle_time_ms > u32::MAX {
        u32::MAX
    } else {
        (c * cycle_time_ms) as u32
    }
}

/// Each queued cycle start is at the time its cycle starts.
pub open spec fn cycles_timed(q: Seq<SimulationEvent>, cycle_time_ms: u32) -> bool {
    forall|j: int|
        0 <= j < q.len() ==> match (#[trigger] q[j]).kind {
            EventKind::ServerCycle(c) => q[j].time_ms == cycle_start(c as int, cycle_time_ms),
            _ => true,
        }
}

/// The process `id` starts when its dependencies complete, by the rule of
/// its configuration.
pub open spec fn floats(cfgs: Seq<ClientConfig>, id: u16) -> bool {
    match last_index(cfgs, id) {
        Some(i) => floating_in(cfgs, cfgs[i]),
        None => false,
    }
}

/// The planned run `e` of a process that starts on its own cycle starts at
/// the start of the cycle it is planned in, and when it is a normal run,
/// the trigger of its process fires in that cycle.
pub open spec fn run_on_cycle(cfgs: Seq<ClientConfig>, cycle_time_ms: u32, e: PlannedExecution) -> bool {
    last_index(cfgs, e.cid) is Some && !floats(cfgs, e.cid) ==> {
        let c = cfgs[last_index(cfgs, e.cid)->0];
        &&& e.start_ms == cycle_start(e.cycle as int, cycle_time_ms)
        &&& e.status == ExecutionStatus::Normal ==> c.cycle > 0 && (e.cycle as int) % (c.cycle as int)
            == c.cycle_offset as int
    }
}

/// Each planned run satisfies `run_on_cycle`.
pub open spec fn runs_on_cycle(cfgs: Seq<ClientConfig>, cycle_time_ms: u32, es: Seq<PlannedExecution>) -> bool {
    forall|k: int| 0 <= k < es.len() ==> #[trigger] run_on_cycle(cfgs, cycle_time_ms, es[k])
}

/// The change `ch`, recorded at `time_ms` in the cycle `cycle`, plans a run
/// of a process that starts on its own cycle only at the start of that
/// cycle, and starts it only in a cycle in which its trigger fires.
pub open spec fn start_on_cycle(
    cfgs: Seq<ClientConfig>,
    cycle_time_ms: u32,
    ch: ProcessStateChange,
    cycle: i64,
    time_ms: u32,
) -> bool {
    (ch.after == ProcessState::Running || ch.after == ProcessState::Skip) && last_index(cfgs, ch.cid) is Some
        && !floats(cfgs, ch.cid) ==> {
        let c = cfgs[last_index(cfgs, ch.cid)->0];
        &&& time_ms == cycle_start(cycle as int, cycle_time_ms)
        &&& ch.after == ProcessState::Running ==> c.cycle > 0 && (cycle as int) % (c.cycle as int)
            == c.cycle_offset as int
    }
}

/// Each entry floats by the rule of the configuration of its process.
pub open spec fn entries_rules(es: Seq<ProcessEntry>, cfgs: Seq<ClientConfig>) -> bool {
    forall|j: int| 0 <= j < es.len() ==> (#[trigger] es[j]).is_floating == floats(cfgs, es[j].cid)
}

/// The trigger `t` is that of the configuration of its process.
pub open spec fn trigger_of(cfgs: Seq<ClientConfig>, t: CycleTrigger) -> bool {
    match last_index(cfgs, t.cid) {
        Some(i) => t.cycle == cfgs[i].cycle as i64 && t.cycle_offset == cfgs[i].cycle_offset as i64,
        None => false,
    }
}

/// A cycle start of the process `cid` starts no other process.
proof fn lemma_start_changes(
    s0: Scheduler,
    sa: Scheduler,
    cid: u16,
    r: Result<Vec<ProcessStateChange>, String>,
)
    requires
        s0.wf(),
        start_rel(s0, sa, cid, r),
        r is Ok,
    ensures
        forall|a: int|
            0 <= a < r->Ok_0@.len() && (#[trigger] r->Ok_0@[a]).after == ProcessState::Running
                ==> r->Ok_0@[a].cid == cid,
{
    let e0 = s0.entries@;
    let e = sa.entries@;
    let chs = r->Ok_0@;
    assert(s0.graph_start@.contains(cid));
    assert(s0.graph_start@ == start_points(e0));
    lemma_start_points(e0, cid);
    let i = choose|i: int| 0 <= i < e0.len() && #[trigger] e0[i].cid == cid && !e0[i].is_floating;
    let same = s0.graph_forward_same_cycle@;
    let f = same[i]@;
    assert(0 <= i < s0.entries@.len() && s0.entries@[i].cid == cid && s0.graph_start@.contains(cid));
    if !e0[i].deps_met() {
        assert forall|j: int| 0 <= j < e.len() && (#[trigger] e[j]).state == ProcessState::Running
            implies e0[j].state == ProcessState::Running by {}
        lemma_no_new_running(e0, e, chs);
    } else if crate::scheduler::all_ready(e0, f) {
    } else {
        assert forall|j: int| 0 <= j < e.len() && (#[trigger] e[j]).state == ProcessState::Running
            implies e0[j].state == ProcessState::Running by {
            assert(e[j].state == not_ready_state(e0, same, f, e0[j]));
        }
        lemma_no_new_running(e0, e, chs);
    }
}

/// A change log of entries of which none became `Running` starts none.
proof fn lemma_no_new_running(e0: Seq<ProcessEntry>, e: Seq<ProcessEntry>, chs: Seq<ProcessStateChange>)
    requires
        crate::scheduler::changes_match(e0, e, chs),
        e0.len() == e.len(),
        forall|j: int| 0 <= j < e.len() && (#[trigger] e[j]).state == ProcessState::Running
            ==> e0[j].state == ProcessState::Running,
    ensures
        forall|a: int| 0 <= a < chs.len() ==> (#[trigger] chs[a]).after != ProcessState::Running,
{
    reveal(crate::scheduler::changes_match);
    assert forall|a: int| 0 <= a < chs.len() implies (#[trigger] chs[a]).after != ProcessState::Running by {
        let j = choose|j: int|
            0 <= j < e0.len() && #[trigger] e0[j].cid == (#[trigger] chs[a]).cid && chs[a].before
                == e0[j].state && chs[a].after == e[j].state && e0[j].state != e[j].state;
    }
}

/// Each start caused by a process completing is that of a floating entry.
proof fn lemma_started_changes(entries: Seq<ProcessEntry>, cid: u16, afters: Seq<u16>, list: Seq<u16>)
    ensures
        forall|b: int|
            0 <= b < started_changes(entries, cid, afters, list).len() ==> {
                let ch = #[trigger] started_changes(entries, cid, afters, list)[b];
                &&& ch.after == ProcessState::Running
                &&& has_cid(entries, ch.cid)
                &&& entry_of(entries, ch.cid).is_floating
            },
    decreases list.len(),
{
    if list.len() > 0 {
        lemma_started_changes(entries, cid, afters, list.drop_last());
        let pre = started_changes(entries, cid, afters, list.drop_last());
        let all = started_changes(entries, cid, afters, list);
        assert forall|b: int| 0 <= b < all.len() implies {
            let ch = #[trigger] all[b];
            &&& ch.after == ProcessState::Running
            &&& has_cid(entries, ch.cid)
            &&& entry_of(entries, ch.cid).is_floating
        } by {
            if b < pre.len() {
                assert(all[b] == pre[b]);
            }
        }
    }
}

/// The end of a run starts only floating processes and skips none.
proof fn lemma_done_changes(
    s0: Scheduler,
    sa: Scheduler,
    cid: u16,
    r: Result<Vec<ProcessStateChange>, String>,
)
    requires
        done_rel(s0, sa, cid, r),
        r is Ok,
    ensures
        forall|a: int|
            0 <= a < r->Ok_0@.len() ==> {
                let ch = #[trigger] r->Ok_0@[a];
                &&& ch.after != ProcessState::Skip
                &&& ch.after == ProcessState::Running ==> has_cid(s0.entries@, ch.cid) && entry_of(
                    s0.entries@,
                    ch.cid,
                ).is_floating
            },
{
    let e0 = s0.entries@;
    let chs = r->Ok_0@;
    let i = choose|i: int| 0 <= i < e0.len() && #[trigger] e0[i].cid == cid;
    let st = e0[i].state;
    let afters = if st == ProcessState::Running {
        crate::scheduler::succ(s0.graph_forward@, cid)
    } else {
        Seq::empty()
    };
    lemma_started_changes(e0, cid, afters, afters);
    let sc = started_changes(e0, cid, afters, afters);
    assert forall|a: int| 0 <= a < chs.len() implies {
        let ch = #[trigger] chs[a];
        &&& ch.after != ProcessState::Skip
        &&& ch.after == ProcessState::Running ==> has_cid(e0, ch.cid) && entry_of(e0, ch.cid).is_floating
    } by {
        if a > 0 {
            assert(chs[a] == sc[a - 1]);
        }
    }
}

/// The changes of a cycle start of a trigger that fires, at the start of
/// the cycle, satisfy `start_on_cycle`.
proof fn lemma_start_on_cycle(
    s0: Scheduler,
    sa: Scheduler,
    t: CycleTrigger,
    r: Result<Vec<ProcessStateChange>, String>,
    cfgs: Seq<ClientConfig>,
    cycle_time_ms: u32,
    cycle: i64,
    time_ms: u32,
)
    requires
        s0.wf(),
        start_rel(s0, sa, t.cid, r),
        r is Ok,
        trigger_of(cfgs, t),
        fires(t, cycle),
        0 <= cycle,
        time_ms == cycle_start(cycle as int, cycle_time_ms),
    ensures
        forall|a: int|
            0 <= a < r->Ok_0@.len() ==> #[trigger] start_on_cycle(
                cfgs,
                cycle_time_ms,
                r->Ok_0@[a],
                cycle,
                time_ms,
            ),
{
    lemma_start_changes(s0, sa, t.cid, r);
    assert forall|a: int| 0 <= a < r->Ok_0@.len() implies #[trigger] start_on_cycle(
        cfgs,
        cycle_time_ms,
        r->Ok_0@[a],
        cycle,
        time_ms,
    ) by {
        let ch = r->Ok_0@[a];
        if ch.after == ProcessState::Running {
            assert(ch.cid == t.cid);
        }
    }
}

/// The changes of the end of a run, with entries that float by the rules
/// of `cfgs`, satisfy `start_on_cycle`.
proof fn lemma_done_on_cycle(
    s0: Scheduler,
    sa: Scheduler,
    cid: u16,
    r: Result<Vec<ProcessStateChange>, String>,
    cfgs: Seq<ClientConfig>,
    cycle_time_ms: u32,
    cycle: i64,
    time_ms: u32,
)
    requires
        done_rel(s0, sa, cid, r),
        r is Ok,
        entries_rules(s0.entries@, cfgs),
    ensures
        forall|a: int|
            0 <= a < r->Ok_0@.len() ==> #[trigger] start_on_cycle(
                cfgs,
                cycle_time_ms,
                r->Ok_0@[a],
                cycle,
                time_ms,
            ),
{
    lemma_done_changes(s0, sa, cid, r);
    let e0 = s0.entries@;
    assert forall|a: int| 0 <= a < r->Ok_0@.len() implies #[trigger] start_on_cycle(
        cfgs,
        cycle_time_ms,
        r->Ok_0@[a],
        cycle,
        time_ms,
    ) by {
        let ch = r->Ok_0@[a];
        if ch.after == ProcessState::Running {
            let k = choose|k: int| 0 <= k < e0.len() && #[trigger] e0[k].cid == ch.cid;
            assert(entry_of(e0, ch.cid) == e0[k]);
            assert(e0[k].is_floating == floats(cfgs, e0[k].cid));
        }
    }
}

/// Having the same shape is transitive.
proof fn lemma_shape_trans(a: Seq<ProcessEntry>, b: Seq<ProcessEntry>, c: Seq<ProcessEntry>)
    requires
        same_shape(a, b),
        same_shape(b, c),
    ensures
        same_shape(a, c),
{
    assert forall|i: int| 0 <= i < a.len() implies {
        &&& (#[trigger] a[i]).cid == c[i].cid
        &&& a[i].is_floating == c[i].is_floating
        &&& a[i].deps() == c[i].deps()
    } by {
        assert(b[i].cid == c[i].cid);
    }
}

/// Entries of the same shape float by the same rules.
proof fn lemma_rules_kept(a: Seq<ProcessEntry>, b: Seq<ProcessEntry>, cfgs: Seq<ClientConfig>)
    requires
        entries_rules(a, cfgs),
        same_shape(a, b),
    ensures
        entries_rules(b, cfgs),
{
    assert forall|j: int| 0 <= j < b.len() implies (#[trigger] b[j]).is_floating == floats(cfgs, b[j].cid) by {
        assert(a[j].cid == b[j].cid);
    }
}

/// Queuing run ends keeps the queued cycle starts, at their times.
proof fn lemma_appended_keeps(q0: Seq<SimulationEvent>, q1: Seq<SimulationEvent>, cycle_time_ms: u32)
    requires
        appended(q0, q1),
        cycles_timed(q0, cycle_time_ms),
        exists|j: int| 0 <= j < q0.len() && (#[trigger] q0[j]).kind is ServerCycle,
    ensures
        cycles_timed(q1, cycle_time_ms),
        exists|j: int| 0 <= j < q1.len() && (#[trigger] q1[j]).kind is ServerCycle,
{
    let j = choose|j: int| 0 <= j < q0.len() && (#[trigger] q0[j]).kind is ServerCycle;
    assert(q1[j] == q1.subrange(0, q0.len() as int)[j]);
    assert forall|i: int| 0 <= i < q1.len() implies match (#[trigger] q1[i]).kind {
        EventKind::ServerCycle(c) => q1[i].time_ms == cycle_start(c as int, cycle_time_ms),
        _ => true,
    } by {
        if i < q0.len() {
            assert(q1[i] == q1.subrange(0, q0.len() as int)[i]);
        }
    }
}

/// The cycle after `c` starts one cycle time after it, or at the largest
/// `u32`.
proof fn lemma_cycle_start_next(c: int, cycle_time_ms: u32)
    requires
        c >= 0,
    ensures
        add_sat(cycle_start(c, cycle_time_ms), cycle_time_ms) == cycle_start(c + 1, cycle_time_ms),
{
    assert((c + 1) * cycle_time_ms == c * cycle_time_ms + cycle_time_ms) by (nonlinear_arith);
    assert(c * cycle_time_ms >= 0) by (nonlinear_arith)
        requires
            c >= 0,
    ;
}

/// Recording one change keeps the planned runs valid, leaves the metric
/// points alone and queues nothing earlier than its time.
proof fn lemma_change_recorded(
    v0: RecorderView,
    v1: RecorderView,
    q0: Seq<SimulationEvent>,
    q1: Seq<SimulationEvent>,
    time_ms: u32,
    ch: ProcessStateChange,
    cycle: i64,
    cfgs: Seq<ClientConfig>,
    cycle_time_ms: u32,
)
    requires
        change_recorded(v0, v1, q0, q1, time_ms, ch, cycle, cfgs, cycle_time_ms),
        runs_ok(cfgs, v0.executions),
        numbered(v0),
        starts_by(v0.executions, time_ms),
        runs_on_cycle(cfgs, cycle_time_ms, v0.executions),
        start_on_cycle(cfgs, cycle_time_ms, ch, cycle, time_ms),
        queue_from(q0, time_ms),
    ensures
        runs_ok(cfgs, v1.executions),
        numbered(v1),
        starts_by(v1.executions, time_ms),
        runs_on_cycle(cfgs, cycle_time_ms, v1.executions),
        v1.metrics == v0.metrics,
        queue_from(q1, time_ms),
        q1 == q0 || (q1.len() == q0.len() + 1 && q1.drop_last() == q0 && q1.last().kind is ProcessDone),
{
    lemma_last_index_some(cfgs, ch.cid);
    match last_index(cfgs, ch.cid) {
        None => {},
        Some(i) => {
            match ch.after {
                ProcessState::Running | ProcessState::Skip => {
                    assert forall|k: int| 0 <= k < v1.executions.len() implies {
                        let e = #[trigger] v1.executions[k];
                        &&& last_index(cfgs, e.cid) is Some
                        &&& e.duration_ms == planned_duration(cfgs[last_index(cfgs, e.cid)->0])
                        &&& e.status == ExecutionStatus::Skip ==> e.depends_instance_ids@.len() == 0
                    } by {
                        if k < v0.executions.len() {
                            assert(v1.executions[k] == v1.executions.drop_last()[k]);
                        }
                    }
                    assert forall|k: int| 0 <= k < v1.executions.len() implies (#[trigger] v1.executions[k]).instance_id as int
                        == k % 0x1_0000_0000 by {
                        if k < v0.executions.len() {
                            assert(v1.executions[k] == v1.executions.drop_last()[k]);
                        }
                    }
                    assert forall|k: int| 0 <= k < v1.executions.len() implies (#[trigger] v1.executions[k]).start_ms
                        <= time_ms by {
                        if k < v0.executions.len() {
                            assert(v1.executions[k] == v1.executions.drop_last()[k]);
                        }
                    }
                    assert forall|k: int| 0 <= k < v1.executions.len() implies #[trigger] run_on_cycle(
                        cfgs,
                        cycle_time_ms,
                        v1.executions[k],
                    ) by {
                        if k < v0.executions.len() {
                            assert(v1.executions[k] == v1.executions.drop_last()[k]);
                        }
                    }
                },
                ProcessState::Overrun => {
                    if v0.running.contains_key(ch.cid) {
                        match first_run(v0.executions, v0.running[ch.cid]) {
                            Some(k) => {
                                lemma_first_run_range(v0.executions, v0.running[ch.cid]);
                                assert forall|j: int| 0 <= j < v1.executions.len() implies {
                                    let e = #[trigger] v1.executions[j];
                                    &&& last_index(cfgs, e.cid) is Some
                                    &&& e.duration_ms == planned_duration(
                                        cfgs[last_index(cfgs, e.cid)->0],
                                    )
                                    &&& e.status == ExecutionStatus::Skip
                                        ==> e.depends_instance_ids@.len() == 0
                                } by {
                                    assert(v0.executions[j].cid == v1.executions[j].cid);
                                }
                                assert forall|j: int| 0 <= j < v1.executions.len() implies (#[trigger] v1.executions[j]).instance_id as int
                                    == j % 0x1_0000_0000 by {
                                    assert(v0.executions[j].instance_id == v1.executions[j].instance_id);
                                }
                                assert forall|j: int| 0 <= j < v1.executions.len() implies (#[trigger] v1.executions[j]).start_ms
                                    <= time_ms by {
                                    assert(v0.executions[j].start_ms == v1.executions[j].start_ms);
                                }
                                assert forall|j: int| 0 <= j < v1.executions.len() implies #[trigger] run_on_cycle(
                                    cfgs,
                                    cycle_time_ms,
                                    v1.executions[j],
                                ) by {
                                    assert(run_on_cycle(cfgs, cycle_time_ms, v0.executions[j]));
                                }
                            },
                            None => {},
                        }
                    }
                },
                _ => {},
            }
        },
    }
}

/// A run that is not skipped, of a process that starts on its own cycle,
/// is planned in a cycle in which the trigger of its process fires.
pub open spec fn run_fires(cfgs: Seq<ClientConfig>, e: PlannedExecution) -> bool {
    last_index(cfgs, e.cid) is Some && !floats(cfgs, e.cid) && e.status != ExecutionStatus::Skip ==> {
        let c = cfgs[last_index(cfgs, e.cid)->0];
        c.cycle > 0 && (e.cycle as int) % (c.cycle as int) == c.cycle_offset as int
    }
}

/// Each run in progress is found by its instance ID and is not skipped.
pub open spec fn running_tracked(v: RecorderView) -> bool {
    forall|c: u16|
        #[trigger] v.running.contains_key(c) ==> match first_run(v.executions, v.running[c]) {
            Some(k) => v.executions[k].status != ExecutionStatus::Skip,
            None => false,
        }
}

/// While no instance ID has been used twice (at most 2^32 runs), the runs
/// in progress are tracked and every run that is not skipped satisfies
/// `run_fires`.
pub open spec fn marks_ok(cfgs: Seq<ClientConfig>, v: RecorderView) -> bool {
    v.executions.len() <= 0x1_0000_0000 ==> {
        &&& running_tracked(v)
        &&& forall|k: int| 0 <= k < v.executions.len() ==> #[trigger] run_fires(cfgs, v.executions[k])
    }
}

/// Changing a run but not its instance ID finds the same runs.
proof fn lemma_first_run_update(es: Seq<PlannedExecution>, k: int, x: PlannedExecution, id: u32)
    requires
        0 <= k < es.len(),
        x.instance_id == es[k].instance_id,
    ensures
        first_run(es.update(k, x), id) == first_run(es, id),
    decreases es.len(),
{
    let u = es.update(k, x);
    if k < es.len() - 1 {
        assert(u.drop_last() =~= es.drop_last().update(k, x));
        lemma_first_run_update(es.drop_last(), k, x, id);
    } else {
        assert(u.drop_last() =~= es.drop_last());
    }
}

/// Recording one change keeps `marks_ok`.
proof fn lemma_marks_kept(
    v0: RecorderView,
    v1: RecorderView,
    q0: Seq<SimulationEvent>,
    q1: Seq<SimulationEvent>,
    time_ms: u32,
    ch: ProcessStateChange,
    cycle: i64,
    cfgs: Seq<ClientConfig>,
    cycle_time_ms: u32,
)
    requires
        change_recorded(v0, v1, q0, q1, time_ms, ch, cycle, cfgs, cycle_time_ms),
        numbered(v0),
        start_on_cycle(cfgs, cycle_time_ms, ch, cycle, time_ms),
        marks_ok(cfgs, v0),
    ensures
        marks_ok(cfgs, v1),
        v1.executions.len() >= v0.executions.len(),
{
    lemma_last_index_some(cfgs, ch.cid);
    match last_index(cfgs, ch.cid) {
        None => {},
        Some(i) => {
            match ch.after {
                ProcessState::Running | ProcessState::Skip => {
                    if v1.executions.len() <= 0x1_0000_0000 {
                        let es = v0.executions;
                        assert(v1.executions.drop_last() == es);
                        assert forall|c: u16| #[trigger] v1.running.contains_key(c) implies match first_run(
                            v1.executions,
                            v1.running[c],
                        ) {
                            Some(k) => v1.executions[k].status != ExecutionStatus::Skip,
                            None => false,
                        } by {
                            if ch.after == ProcessState::Running && c == ch.cid {
                                lemma_first_run_range(es, v0.counter);
                                if first_run(es, v0.counter) is Some {
                                    let k = first_run(es, v0.counter)->0;
                                    assert(es[k].instance_id as int == k % 0x1_0000_0000);
                                }
                            } else {
                                assert(v0.running.contains_key(c));
                                let k = first_run(es, v0.running[c])->0;
                                lemma_first_run_range(es, v0.running[c]);
                                assert(v1.executions[k] == es[k]);
                            }
                        }
                        assert forall|k: int| 0 <= k < v1.executions.len() implies #[trigger] run_fires(
                            cfgs,
                            v1.executions[k],
                        ) by {
                            if k < es.len() {
                                assert(v1.executions[k] == es[k]);
                            }
                        }
                    }
                },
                ProcessState::Overrun => {
                    if v0.running.contains_key(ch.cid) {
                        let id = v0.running[ch.cid];
                        lemma_first_run_range(v0.executions, id);
                        match first_run(v0.executions, id) {
                            Some(k) => {
                                let x = PlannedExecution { status: ExecutionStatus::Overrun, ..v0.executions[k] };
                                if v1.executions.len() <= 0x1_0000_0000 {
                                    assert forall|c: u16| #[trigger] v1.running.contains_key(c) implies match first_run(
                                        v1.executions,
                                        v1.running[c],
                                    ) {
                                        Some(k) => v1.executions[k].status != ExecutionStatus::Skip,
                                        None => false,
                                    } by {
                                        lemma_first_run_update(v0.executions, k, x, v0.running[c]);
                                        lemma_first_run_range(v0.executions, v0.running[c]);
                                    }
                                    assert forall|j: int| 0 <= j < v1.executions.len() implies #[trigger] run_fires(
                                        cfgs,
                                        v1.executions[j],
                                    ) by {
                                        assert(run_fires(cfgs, v0.executions[j]));
                                    }
                                }
                            },
                            None => {},
                        }
                    }
                },
                _ => {},
            }
        },
    }
}

/// What `last_index` finds has the ID.
proof fn lemma_last_index_some(cfgs: Seq<ClientConfig>, id: u16)
    ensures
        last_index(cfgs, id) is Some ==> 0 <= last_index(cfgs, id)->0 < cfgs.len() && cfgs[last_index(
            cfgs,
            id,
        )->0].client_id == id,
{
    crate::config::lemma_last_index(cfgs, id);
}

impl SimulationRecorder {
    /// Records the state changes `changes` at `time_ms` in order, then the
    /// number of runs in progress.
    pub fn record_changes(
        &mut self,
        time_ms: u32,
        changes: &Vec<ProcessStateChange>,
        current_cycle: i64,
        ctx: &SimulationContext,
        events: &mut Vec<SimulationEvent>,
    )
        requires
            runs_ok(ctx.client_configs@, old(self).executions@),
            numbered(old(self)@),
            marks_ok(ctx.client_configs@, old(self)@),
            starts_by(old(self).executions@, time_ms),
            runs_on_cycle(ctx.client_configs@, ctx.cycle_time_ms, old(self).executions@),
            forall|a: int|
                0 <= a < changes@.len() ==> #[trigger] start_on_cycle(
                    ctx.client_configs@,
                    ctx.cycle_time_ms,
                    changes@[a],
                    current_cycle,
                    time_ms,
                ),
            metrics_increasing(old(self).metrics@),
            old(self).metrics@.len() > 0 ==> old(self).metrics@.last().time_ms <= time_ms,
            queue_from(old(events)@, time_ms),
        ensures
            recorded(
                old(self)@,
                old(events)@,
                final(self)@,
                final(events)@,
                time_ms,
                changes@,
                current_cycle,
                ctx.client_configs@,
                ctx.cycle_time_ms,
            ),
            runs_ok(ctx.client_configs@, final(self).executions@),
            numbered(final(self)@),
            marks_ok(ctx.client_configs@, final(self)@),
            starts_by(final(self).executions@, time_ms),
            appended(old(events)@, final(events)@),
            runs_on_cycle(ctx.client_configs@, ctx.cycle_time_ms, final(self).executions@),
            metrics_increasing(final(self).metrics@),
            final(self).metrics@.len() > 0,
            final(self).metrics@.last().time_ms == time_ms,
            queue_from(final(events)@, time_ms),
            final(events)@.len() >= old(events)@.len(),
            final(events)@.subrange(0, old(events)@.len() as int) == old(events)@,
            forall|j: int|
                old(events)@.len() <= j < final(events)@.len() ==> (#[trigger] final(events)@[j]).kind is ProcessDone,
    {
        let ghost mut vs: Seq<RecorderView> = seq![self@];
        let ghost mut qs: Seq<Seq<SimulationEvent>> = seq![events@];
        let ghost m0 = self.metrics@;
        let mut k: usize = 0;
        while k < changes.len()
            invariant
                k <= changes.len(),
                changes_chain(
                    vs,
                    qs,
                    time_ms,
                    changes@.take(k as int),
                    current_cycle,
                    ctx.client_configs@,
                    ctx.cycle_time_ms,
                ),
                vs[0] == old(self)@,
                qs[0] == old(events)@,
                self@ == vs.last(),
                events@ == qs.last(),
                runs_ok(ctx.client_configs@, self.executions@),
                numbered(self@),
                marks_ok(ctx.client_configs@, self@),
                starts_by(self.executions@, time_ms),
                runs_on_cycle(ctx.client_configs@, ctx.cycle_time_ms, self.executions@),
                forall|a: int|
                    0 <= a < changes@.len() ==> #[trigger] start_on_cycle(
                        ctx.client_configs@,
                        ctx.cycle_time_ms,
                        changes@[a],
                        current_cycle,
                        time_ms,
                    ),
                self.metrics@ == m0,
                queue_from(events@, time_ms),
                events@.len() >= old(events)@.len(),
                events@.subrange(0, old(events)@.len() as int) == old(events)@,
                forall|j: int|
                    old(events)@.len() <= j < events@.len() ==> (#[trigger] events@[j]).kind is ProcessDone,
            decreases changes.len() - k,
        {
            let ghost v0 = self@;
            let ghost q0 = events@;
            self.record_change(time_ms, &changes[k], current_cycle, ctx, events);
            proof {
                assert(start_on_cycle(
                    ctx.client_configs@,
                    ctx.cycle_time_ms,
                    changes@[k as int],
                    current_cycle,
                    time_ms,
                ));
                lemma_marks_kept(
                    v0,
                    self@,
                    q0,
                    events@,
                    time_ms,
                    changes@[k as int],
                    current_cycle,
                    ctx.client_configs@,
                    ctx.cycle_time_ms,
                );
                lemma_change_recorded(
                    v0,
                    self@,
                    q0,
                    events@,
                    time_ms,
                    changes@[k as int],
                    current_cycle,
                    ctx.client_configs@,
                    ctx.cycle_time_ms,
                );
                let vs1 = vs.push(self@);
                let qs1 = qs.push(events@);
                let t = changes@.take(k + 1);
                assert forall|j: int| 0 <= j < t.len() implies #[trigger] change_recorded(
                    vs1[j],
                    vs1[j + 1],
                    qs1[j],
                    qs1[j + 1],
                    time_ms,
                    t[j],
                    current_cycle,
                    ctx.client_configs@,
                    ctx.cycle_time_ms,
                ) by {
                    if j < k {
                        assert(t[j] == changes@.take(k as int)[j]);
                    }
                }
                vs = vs1;
                qs = qs1;
                if events@ != q0 {
                    assert(events@.subrange(0, old(events)@.len() as int) =~= q0.subrange(
                        0,
                        old(events)@.len() as int,
                    ));
                    assert forall|j: int|
                        old(events)@.len() <= j < events@.len() implies (#[trigger] events@[j]).kind is ProcessDone by {
                        if j < q0.len() {
                            assert(events@[j] == q0[j]);
                        }
                    }
                }
            }
            k += 1;
        }
        assert(changes@.take(k as int) =~= changes@);
        let ghost before = self@;
        self.record_metric(time_ms);
        assert(self@ == metric_recorded(before, time_ms)) by {
            assert(self@.metrics =~= metric_recorded(before, time_ms).metrics);
        }
    }
}


/// A process started by the cycle, with its period and offset.
pub struct CycleTrigger {
    pub cid: u16,
    pub cycle: i64,
    pub cycle_offset: i64,
}

/// What a simulation that ran to its end gives: no configuration errors,
/// valid planned runs, each with its position as instance ID, and metric
/// points in time order.
pub open spec fn plan_ok(cfgs: Seq<ClientConfig>, res: SimulationResult) -> bool {
    &&& res.config_errors@ == Map::<u16, Vec<String>>::empty()
    &&& runs_ok(cfgs, res.executions@)
    &&& ids_in_order(res.executions@)
    &&& metrics_increasing(res.metrics@)
}

/// The queued cycle starts are numbered from 0 to `last`.
pub open spec fn cycles_within(q: Seq<SimulationEvent>, last: i64) -> bool {
    forall|j: int|
        0 <= j < q.len() ==> match (#[trigger] q[j]).kind {
            EventKind::ServerCycle(c) => 0 <= c <= last,
            _ => true,
        }
}

/// Queuing run ends keeps the queued cycle starts in range.
proof fn lemma_cycles_kept(q0: Seq<SimulationEvent>, q1: Seq<SimulationEvent>, last: i64)
    requires
        cycles_within(q0, last),
        q1.len() >= q0.len(),
        q1.subrange(0, q0.len() as int) == q0,
        forall|j: int| q0.len() <= j < q1.len() ==> (#[trigger] q1[j]).kind is ProcessDone,
    ensures
        cycles_within(q1, last),
{
    assert forall|j: int| 0 <= j < q1.len() implies match (#[trigger] q1[j]).kind {
        EventKind::ServerCycle(c) => 0 <= c <= last,
        _ => true,
    } by {
        if j < q0.len() {
            assert(q1[j] == q1.subrange(0, q0.len() as int)[j]);
        }
    }
}

// ---------------------------------------------------------------------------
// The simulation as a sequence of states.

/// The state of a simulation between two events: the scheduler, the
/// recorder, the queued events, the time and the current cycle.
pub struct SimState {
    pub sched: Scheduler,
    pub rec: RecorderView,
    pub queue: Seq<SimulationEvent>,
    pub now: u32,
    pub cycle: i64,
}

/// `READY` from `cid` moved the scheduler from `a` to `b`.
pub open spec fn ready_step(a: Scheduler, b: Scheduler, cid: u16) -> bool {
    exists|r: Result<Vec<ProcessStateChange>, String>| #[trigger] ready_rel(a, b, cid, r)
}

/// `READY` from each of `cids` in turn moved the scheduler through `ss`.
pub open spec fn readies(ss: Seq<Scheduler>, cids: Seq<u16>) -> bool {
    &&& ss.len() == cids.len() + 1
    &&& forall|k: int| 0 <= k < cids.len() ==> #[trigger] ready_step(ss[k], ss[k + 1], cids[k])
}

/// The `READY` reports that follow the changes of a cycle start: one from
/// each process that skipped, two from each that is late.
pub open spec fn start_readies(chs: Seq<ProcessStateChange>) -> Seq<u16>
    decreases chs.len(),
{
    if chs.len() == 0 {
        Seq::empty()
    } else {
        let c = chs.last();
        start_readies(chs.drop_last()) + match c.after {
            ProcessState::Skip => seq![c.cid],
            ProcessState::Late => seq![c.cid, c.cid],
            _ => Seq::empty(),
        }
    }
}

/// The `READY` reports that follow the changes of the process `cid`
/// finishing, told by its first change: one when it became `Idle`, two
/// when it is late.
pub open spec fn done_readies(chs: Seq<ProcessStateChange>, cid: u16) -> Seq<u16>
    decreases chs.len(),
{
    if chs.len() == 0 {
        Seq::empty()
    } else if chs[0].cid == cid {
        match chs[0].after {
            ProcessState::Idle => seq![cid],
            ProcessState::Late => seq![cid, cid],
            _ => Seq::empty(),
        }
    } else {
        done_readies(chs.drop_first(), cid)
    }
}

/// The changes `chs` at `time_ms` took the recorder from `r0` to `r1` and
/// the queue from `q0` to `q1`: each change recorded in turn, then the
/// number of runs in progress.
pub open spec fn recorded(
    r0: RecorderView,
    q0: Seq<SimulationEvent>,
    r1: RecorderView,
    q1: Seq<SimulationEvent>,
    time_ms: u32,
    chs: Seq<ProcessStateChange>,
    cycle: i64,
    cfgs: Seq<ClientConfig>,
    cycle_time_ms: u32,
) -> bool {
    exists|vs: Seq<RecorderView>, qs: Seq<Seq<SimulationEvent>>|
        #[trigger] changes_chain(vs, qs, time_ms, chs, cycle, cfgs, cycle_time_ms) && vs[0] == r0
            && qs[0] == q0 && r1 == metric_recorded(vs.last(), time_ms) && q1 == qs.last()
}

/// The scheduler moved from `s0` to `sa` with the changes `chs`, which were
/// recorded; then `READY` came from each of `cids`.
pub open spec fn reacted(
    s0: SimState,
    s1: SimState,
    sa: Scheduler,
    chs: Seq<ProcessStateChange>,
    cids: Seq<u16>,
    cfgs: Seq<ClientConfig>,
    cycle_time_ms: u32,
) -> bool {
    &&& recorded(s0.rec, s0.queue, s1.rec, s1.queue, s0.now, chs, s0.cycle, cfgs, cycle_time_ms)
    &&& s1.now == s0.now
    &&& s1.cycle == s0.cycle
    &&& exists|ss: Seq<Scheduler>| #[trigger] readies(ss, cids) && ss[0] == sa && ss.last() == s1.sched
}

/// The trigger `t` fires in the cycle `cycle`.
pub open spec fn fires(t: CycleTrigger, cycle: i64) -> bool {
    t.cycle > 0 && cycle % t.cycle == t.cycle_offset
}

/// The trigger `t`, tried in the current cycle, took the simulation from
/// `s0` to `s1`.
pub open spec fn trigger_step(
    s0: SimState,
    s1: SimState,
    t: CycleTrigger,
    cfgs: Seq<ClientConfig>,
    cycle_time_ms: u32,
) -> bool {
    if !fires(t, s0.cycle) {
        s1 == s0
    } else {
        exists|sa: Scheduler, r: Result<Vec<ProcessStateChange>, String>|
            #[trigger] start_rel(s0.sched, sa, t.cid, r) && match r {
                Ok(chs) => reacted(s0, s1, sa, chs@, start_readies(chs@), cfgs, cycle_time_ms),
                Err(_) => s1 == SimState { sched: sa, ..s0 },
            }
    }
}

/// The triggers `ts`, tried in turn, took the simulation through `sts`.
pub open spec fn triggers_run(
    sts: Seq<SimState>,
    ts: Seq<CycleTrigger>,
    cfgs: Seq<ClientConfig>,
    cycle_time_ms: u32,
) -> bool {
    &&& sts.len() == ts.len() + 1
    &&& forall|k: int|
        0 <= k < ts.len() ==> #[trigger] trigger_step(sts[k], sts[k + 1], ts[k], cfgs, cycle_time_ms)
}

/// The end of the run `id` of the process `cid` took the simulation from
/// `s0` to `s1`; an end of a run no longer in progress changes nothing.
pub open spec fn done_step(
    s0: SimState,
    s1: SimState,
    cid: u16,
    id: u32,
    cfgs: Seq<ClientConfig>,
    cycle_time_ms: u32,
) -> bool {
    if !(s0.rec.running.contains_key(cid) && s0.rec.running[cid] == id) {
        s1 == s0
    } else {
        exists|sa: Scheduler, r: Result<Vec<ProcessStateChange>, String>|
            #[trigger] done_rel(s0.sched, sa, cid, r) && match r {
                Ok(chs) => reacted(s0, s1, sa, chs@, done_readies(chs@, cid), cfgs, cycle_time_ms),
                Err(_) => s1 == SimState { sched: sa, ..s0 },
            }
    }
}

/// `a + b`, or the largest `u32` when that overflows.
pub open spec fn add_sat(a: u32, b: u32) -> u32 {
    if a + b > u32::MAX {
        u32::MAX
    } else {
        (a + b) as u32
    }
}

/// The next event of `s0`, handled, led to `s1`; it is not the start of
/// the cycle `last`, nor of a later one.
pub open spec fn event_step(
    s0: SimState,
    s1: SimState,
    ts: Seq<CycleTrigger>,
    last: i64,
    cfgs: Seq<ClientConfig>,
    cycle_time_ms: u32,
) -> bool {
    exists|k: int|
        #[trigger] is_next(s0.queue, k) && {
            let ev = s0.queue[k];
            let base = SimState { queue: s0.queue.remove(k), now: ev.time_ms, ..s0 };
            match ev.kind {
                EventKind::ServerCycle(c) => c < last && exists|sts: Seq<SimState>|
                    #[trigger] triggers_run(sts, ts, cfgs, cycle_time_ms) && sts[0] == SimState {
                        cycle: c,
                        queue: base.queue.push(
                            SimulationEvent {
                                time_ms: add_sat(ev.time_ms, cycle_time_ms),
                                kind: EventKind::ServerCycle((c + 1) as i64),
                            },
                        ),
                        ..base
                    } && sts.last() == s1,
                EventKind::ProcessDone(cid, id) => done_step(base, s1, cid, id, cfgs, cycle_time_ms),
            }
        }
}

/// The simulation stops at `s`: no event is left, or the next one starts
/// the cycle `last` or a later one.
pub open spec fn stops(s: SimState, last: i64) -> bool {
    ||| s.queue.len() == 0
    ||| exists|k: int|
        #[trigger] is_next(s.queue, k) && match s.queue[k].kind {
            EventKind::ServerCycle(c) => c >= last,
            _ => false,
        }
}

/// Each state of `sts` follows from the one before by handling its next
/// event.
pub open spec fn sim_run(
    sts: Seq<SimState>,
    ts: Seq<CycleTrigger>,
    last: i64,
    cfgs: Seq<ClientConfig>,
    cycle_time_ms: u32,
) -> bool {
    &&& sts.len() >= 1
    &&& forall|k: int|
        0 <= k < sts.len() - 1 ==> #[trigger] event_step(sts[k], sts[k + 1], ts, last, cfgs, cycle_time_ms)
}

/// Whether the client `c` of `cfgs` starts when its dependencies complete,
/// by the rule of its ID.
pub open spec fn rule_floating(cfgs: Seq<ClientConfig>, c: ClientConfig) -> bool {
    floating_in(cfgs, cfgs[last_index(cfgs, c.client_id)->0])
}

/// `es` are the entries of the clients `cfgs`: `Idle`, no dependency
/// completed, floating by their rule.
pub open spec fn entries_of(es: Seq<ProcessEntry>, cfgs: Seq<ClientConfig>) -> bool {
    &&& es.len() == cfgs.len()
    &&& forall|i: int|
        0 <= i < cfgs.len() ==> {
            &&& (#[trigger] es[i]).cid == cfgs[i].client_id
            &&& es[i].state == ProcessState::Idle
            &&& es[i].dependency_statuses@ == all_unmet(cfgs[i].depends@)
            &&& es[i].is_floating == rule_floating(cfgs, cfgs[i])
        }
}

/// The cycle triggers of the first `n` clients of `cfgs`: one for each that
/// does not float, in order.
pub open spec fn triggers_of(cfgs: Seq<ClientConfig>, n: int) -> Seq<CycleTrigger>
    decreases n,
{
    if n <= 0 {
        Seq::empty()
    } else {
        let c = cfgs[n - 1];
        triggers_of(cfgs, n - 1) + if rule_floating(cfgs, c) {
            Seq::empty()
        } else {
            seq![CycleTrigger { cid: c.client_id, cycle: c.cycle as i64, cycle_offset: c.cycle_offset as i64 }]
        }
    }
}

/// The longest cycle of the first `n` clients, at least 1.
pub open spec fn max_cycle_of(cfgs: Seq<ClientConfig>, n: int) -> int
    decreases n,
{
    if n <= 0 {
        1
    } else {
        let m = max_cycle_of(cfgs, n - 1);
        if cfgs[n - 1].cycle > m {
            cfgs[n - 1].cycle as int
        } else {
            m
        }
    }
}

/// The client IDs of `cfgs`, in order.
pub open spec fn client_ids(cfgs: Seq<ClientConfig>) -> Seq<u16> {
    Seq::new(cfgs.len(), |i: int| cfgs[i].client_id)
}

/// The first state of the simulation of `cfgs`: a scheduler built on their
/// entries that received `READY` from each client in order, nothing
/// recorded, and the start of cycle 0 queued at time 0.
pub open spec fn sim_start(s: SimState, cfgs: Seq<ClientConfig>) -> bool {
    &&& exists|ss: Seq<Scheduler>|
        #[trigger] readies(ss, client_ids(cfgs)) && ss[0].wf() && entries_of(ss[0].entries@, cfgs)
            && ss.last() == s.sched
    &&& s.rec == RecorderView {
        counter: 0,
        running: Map::empty(),
        last: Map::empty(),
        executions: Seq::empty(),
        metrics: Seq::empty(),
    }
    &&& s.queue == seq![SimulationEvent { time_ms: 0, kind: EventKind::ServerCycle(0) }]
    &&& s.now == 0
    &&& s.cycle == 0
}

/// The simulation state held by the variables of the loop.
pub open spec fn state_of(
    sched: Scheduler,
    rec: RecorderView,
    queue: Seq<SimulationEvent>,
    now: u32,
    cycle: i64,
) -> SimState {
    SimState { sched, rec, queue, now, cycle }
}

/// `READY` from `c` extends a chain of reports.
proof fn lemma_readies_push(ss: Seq<Scheduler>, cids: Seq<u16>, x: Scheduler, c: u16)
    requires
        readies(ss, cids),
        ready_step(ss.last(), x, c),
    ensures
        readies(ss.push(x), cids.push(c)),
{
    let ss1 = ss.push(x);
    let c1 = cids.push(c);
    assert forall|k: int| 0 <= k < c1.len() implies #[trigger] ready_step(ss1[k], ss1[k + 1], c1[k]) by {
        if k < cids.len() {
            assert(ss1[k] == ss[k] && ss1[k + 1] == ss[k + 1] && c1[k] == cids[k]);
        } else {
            assert(ss1[k] == ss.last());
        }
    }
}

/// `READY` from `cid`, recorded in the chain of schedulers `ss`.
fn report_ready(
    scheduler: &mut Scheduler,
    cid: u16,
    Ghost(ss): Ghost<Seq<Scheduler>>,
    Ghost(cids): Ghost<Seq<u16>>,
)
    requires
        old(scheduler).wf(),
        readies(ss, cids),
        ss.last() == *old(scheduler),
    ensures
        final(scheduler).wf(),
        readies(ss.push(*final(scheduler)), cids.push(cid)),
        same_shape(old(scheduler).entries@, final(scheduler).entries@),
{
    let ghost s0 = *scheduler;
    let r = scheduler.on_ready(cid);
    proof {
        assert(ready_rel(s0, *scheduler, cid, r));
        assert(ready_step(s0, *scheduler, cid));
        lemma_readies_push(ss, cids, *scheduler, cid);
    }
}

/// After a cycle start, `READY` from each process that skipped, and twice
/// from each late one.
fn react_start(scheduler: &mut Scheduler, changes: &Vec<ProcessStateChange>)
    requires
        old(scheduler).wf(),
    ensures
        final(scheduler).wf(),
        exists|ss: Seq<Scheduler>|
            #[trigger] readies(ss, start_readies(changes@)) && ss[0] == *old(scheduler) && ss.last()
                == *final(scheduler),
        same_shape(old(scheduler).entries@, final(scheduler).entries@),
{
    let ghost mut ss: Seq<Scheduler> = seq![*scheduler];
    let ghost s_init = *scheduler;
    let mut k: usize = 0;
    proof {
        assert(changes@.take(0) =~= Seq::<ProcessStateChange>::empty());
        assert(start_readies(changes@.take(0)) =~= Seq::<u16>::empty());
        assert(same_shape(s_init.entries@, scheduler.entries@));
    }
    while k < changes.len()
        invariant
            k <= changes.len(),
            scheduler.wf(),
            readies(ss, start_readies(changes@.take(k as int))),
            ss[0] == s_init,
            ss.last() == *scheduler,
            same_shape(s_init.entries@, scheduler.entries@),
        decreases changes.len() - k,
    {
        let ghost before = *scheduler;
        let ghost cs = start_readies(changes@.take(k as int));
        let c = changes[k].cid;
        proof {
            assert(changes@.take(k + 1).drop_last() =~= changes@.take(k as int));
            assert(changes@.take(k + 1).last() == changes@[k as int]);
        }
        match changes[k].after {
            ProcessState::Skip => {
                report_ready(scheduler, c, Ghost(ss), Ghost(cs));
                proof {
                    lemma_shape_trans(s_init.entries@, before.entries@, scheduler.entries@);
                    ss = ss.push(*scheduler);
                    assert(start_readies(changes@.take(k + 1)) =~= cs.push(c));
                }
            },
            ProcessState::Late => {
                report_ready(scheduler, c, Ghost(ss), Ghost(cs));
                proof {
                    lemma_shape_trans(s_init.entries@, before.entries@, scheduler.entries@);
                    ss = ss.push(*scheduler);
                }
                let ghost mid = *scheduler;
                report_ready(scheduler, c, Ghost(ss), Ghost(cs.push(c)));
                proof {
                    lemma_shape_trans(s_init.entries@, mid.entries@, scheduler.entries@);
                    ss = ss.push(*scheduler);
                    assert(start_readies(changes@.take(k + 1)) =~= cs.push(c).push(c));
                }
            },
            _ => {
                proof {
                    assert(start_readies(changes@.take(k + 1)) =~= cs);
                }
            },
        }
        k += 1;
    }
    proof {
        assert(changes@.take(k as int) =~= changes@);
    }
}

/// After the process `cid` finished, `READY` from it once when it became
/// `Idle` and twice when it is late, told by its first change.
fn react_done(scheduler: &mut Scheduler, changes: &Vec<ProcessStateChange>, cid: u16)
    requires
        old(scheduler).wf(),
    ensures
        final(scheduler).wf(),
        exists|ss: Seq<Scheduler>|
            #[trigger] readies(ss, done_readies(changes@, cid)) && ss[0] == *old(scheduler)
                && ss.last() == *final(scheduler),
        same_shape(old(scheduler).entries@, final(scheduler).entries@),
{
    let ghost s_init = *scheduler;
    let ghost ss: Seq<Scheduler> = seq![*scheduler];
    let ghost e: Seq<u16> = Seq::empty();
    let mut k: usize = 0;
    proof {
        assert(changes@.skip(0) =~= changes@);
    }
    while k < changes.len()
        invariant
            k <= changes.len(),
            scheduler.wf(),
            ss == seq![s_init],
            *scheduler == s_init,
            s_init == *old(scheduler),
            e == Seq::<u16>::empty(),
            done_readies(changes@, cid) == done_readies(changes@.skip(k as int), cid),
        decreases changes.len() - k,
    {
        proof {
            assert(changes@.skip(k as int)[0] == changes@[k as int]);
            assert(changes@.skip(k as int).drop_first() =~= changes@.skip(k + 1));
        }
        if changes[k].cid == cid {
            assert(readies(ss, e));
            match changes[k].after {
                ProcessState::Idle => {
                    report_ready(scheduler, cid, Ghost(ss), Ghost(e));
                    proof {
                        assert(e.push(cid) =~= seq![cid]);
                        assert(done_readies(changes@.skip(k as int), cid) == seq![cid]);
                        assert(readies(ss.push(*scheduler), done_readies(changes@, cid)));
                        assert(ss.push(*scheduler).last() == *scheduler);
                        assert(ss.push(*scheduler)[0] == ss[0]);
                    }
                },
                ProcessState::Late => {
                    report_ready(scheduler, cid, Ghost(ss), Ghost(e));
                    let ghost ss1 = ss.push(*scheduler);
                    let ghost mid = *scheduler;
                    report_ready(scheduler, cid, Ghost(ss1), Ghost(e.push(cid)));
                    proof {
                        lemma_shape_trans(s_init.entries@, mid.entries@, scheduler.entries@);
                        assert(e.push(cid).push(cid) =~= seq![cid, cid]);
                        assert(done_readies(changes@.skip(k as int), cid) == seq![cid, cid]);
                        assert(readies(ss1.push(*scheduler), done_readies(changes@, cid)));
                        assert(ss1.push(*scheduler).last() == *scheduler);
                        assert(ss1.push(*scheduler)[0] == ss[0]);
                    }
                },
                _ => {
                    proof {
                        assert(done_readies(changes@.skip(k as int), cid) == e);
                        assert(readies(ss, done_readies(changes@, cid)));
                    }
                },
            }
            return;
        }
        k += 1;
    }
    proof {
        assert(changes@.skip(k as int) =~= Seq::<ProcessStateChange>::empty());
        assert(readies(ss, e));
        assert(same_shape(s_init.entries@, scheduler.entries@));
    }
}

/// What the simulation keeps true between its events: a valid scheduler,
/// valid planned runs, metric points in order and not later than `now`,
/// nothing queued before `now`, and no queued cycle after `last`.
pub open spec fn sim_inv(
    sched: Scheduler,
    rec: RecorderView,
    queue: Seq<SimulationEvent>,
    now: u32,
    last: i64,
    cfgs: Seq<ClientConfig>,
) -> bool {
    &&& sched.wf()
    &&& runs_ok(cfgs, rec.executions)
    &&& numbered(rec)
    &&& marks_ok(cfgs, rec)
    &&& starts_by(rec.executions, now)
    &&& metrics_increasing(rec.metrics)
    &&& rec.metrics.len() > 0 ==> rec.metrics.last().time_ms <= now
    &&& queue_from(queue, now)
    &&& cycles_within(queue, last)
}

/// Tries the trigger `t` in the cycle `cycle`: when it fires, its process
/// starts, and the changes are recorded and followed by `READY` reports.
fn fire_trigger(
    t: &CycleTrigger,
    scheduler: &mut Scheduler,
    recorder: &mut SimulationRecorder,
    events: &mut Vec<SimulationEvent>,
    now: u32,
    cycle: i64,
    last: i64,
    ctx: &SimulationContext,
)
    requires
        0 <= cycle,
        sim_inv(*old(scheduler), old(recorder)@, old(events)@, now, last, ctx.client_configs@),
        trigger_of(ctx.client_configs@, *t),
        now == cycle_start(cycle as int, ctx.cycle_time_ms),
        entries_rules(old(scheduler).entries@, ctx.client_configs@),
        runs_on_cycle(ctx.client_configs@, ctx.cycle_time_ms, old(recorder).executions@),
    ensures
        sim_inv(*final(scheduler), final(recorder)@, final(events)@, now, last, ctx.client_configs@),
        appended(old(events)@, final(events)@),
        entries_rules(final(scheduler).entries@, ctx.client_configs@),
        runs_on_cycle(ctx.client_configs@, ctx.cycle_time_ms, final(recorder).executions@),
        trigger_step(
            state_of(*old(scheduler), old(recorder)@, old(events)@, now, cycle),
            state_of(*final(scheduler), final(recorder)@, final(events)@, now, cycle),
            *t,
            ctx.client_configs@,
            ctx.cycle_time_ms,
        ),
{
    let ghost s0 = state_of(*scheduler, recorder@, events@, now, cycle);
    assert(events@.subrange(0, events@.len() as int) =~= events@);
    if t.cycle > 0 && cycle % t.cycle == t.cycle_offset {
        let r = scheduler.on_start(t.cid);
        let ghost sa = *scheduler;
        proof {
            assert(start_rel(s0.sched, sa, t.cid, r));
            lemma_rules_kept(s0.sched.entries@, sa.entries@, ctx.client_configs@);
            if r is Ok {
                lemma_start_on_cycle(s0.sched, sa, *t, r, ctx.client_configs@, ctx.cycle_time_ms, cycle, now);
            }
        }
        match r {
            Ok(changes) => {
                let ghost q1 = events@;
                recorder.record_changes(now, &changes, cycle, ctx, events);
                proof {
                    lemma_cycles_kept(q1, events@, last);
                }
                react_start(scheduler, &changes);
                proof {
                    lemma_rules_kept(sa.entries@, scheduler.entries@, ctx.client_configs@);
                    let s1 = state_of(*scheduler, recorder@, events@, now, cycle);
                    assert(reacted(s0, s1, sa, changes@, start_readies(changes@), ctx.client_configs@, ctx.cycle_time_ms));
                }
            },
            Err(_) => {
                proof {
                    assert(state_of(*scheduler, recorder@, events@, now, cycle) == SimState { sched: sa, ..s0 });
                }
            },
        }
    }
}

/// The triggers `ts`, tried in turn, extended by one more.
proof fn lemma_triggers_push(
    sts: Seq<SimState>,
    ts: Seq<CycleTrigger>,
    x: SimState,
    t: CycleTrigger,
    cfgs: Seq<ClientConfig>,
    cycle_time_ms: u32,
)
    requires
        triggers_run(sts, ts, cfgs, cycle_time_ms),
        trigger_step(sts.last(), x, t, cfgs, cycle_time_ms),
    ensures
        triggers_run(sts.push(x), ts.push(t), cfgs, cycle_time_ms),
{
    let s1 = sts.push(x);
    let t1 = ts.push(t);
    assert forall|k: int| 0 <= k < t1.len() implies #[trigger] trigger_step(s1[k], s1[k + 1], t1[k], cfgs, cycle_time_ms) by {
        if k < ts.len() {
            assert(s1[k] == sts[k] && s1[k + 1] == sts[k + 1] && t1[k] == ts[k]);
        } else {
            assert(s1[k] == sts.last());
        }
    }
}

/// Tries every trigger in turn in the cycle `cycle`.
fn fire_triggers(
    triggers: &Vec<CycleTrigger>,
    scheduler: &mut Scheduler,
    recorder: &mut SimulationRecorder,
    events: &mut Vec<SimulationEvent>,
    now: u32,
    cycle: i64,
    last: i64,
    ctx: &SimulationContext,
)
    requires
        0 <= cycle,
        sim_inv(*old(scheduler), old(recorder)@, old(events)@, now, last, ctx.client_configs@),
        forall|k: int| 0 <= k < triggers@.len() ==> #[trigger] trigger_of(ctx.client_configs@, triggers@[k]),
        now == cycle_start(cycle as int, ctx.cycle_time_ms),
        entries_rules(old(scheduler).entries@, ctx.client_configs@),
        runs_on_cycle(ctx.client_configs@, ctx.cycle_time_ms, old(recorder).executions@),
    ensures
        sim_inv(*final(scheduler), final(recorder)@, final(events)@, now, last, ctx.client_configs@),
        appended(old(events)@, final(events)@),
        entries_rules(final(scheduler).entries@, ctx.client_configs@),
        runs_on_cycle(ctx.client_configs@, ctx.cycle_time_ms, final(recorder).executions@),
        exists|sts: Seq<SimState>|
            #[trigger] triggers_run(sts, triggers@, ctx.client_configs@, ctx.cycle_time_ms) && sts[0]
                == state_of(*old(scheduler), old(recorder)@, old(events)@, now, cycle) && sts.last()
                == state_of(*final(scheduler), final(recorder)@, final(events)@, now, cycle),
{
    let ghost mut sts: Seq<SimState> = seq![state_of(*scheduler, recorder@, events@, now, cycle)];
    let ghost s_init = sts[0];
    assert(events@.subrange(0, events@.len() as int) =~= events@);
    let mut k: usize = 0;
    proof {
        assert(triggers@.take(0) =~= Seq::<CycleTrigger>::empty());
    }
    while k < triggers.len()
        invariant
            k <= triggers.len(),
            0 <= cycle,
            sim_inv(*scheduler, recorder@, events@, now, last, ctx.client_configs@),
            triggers_run(sts, triggers@.take(k as int), ctx.client_configs@, ctx.cycle_time_ms),
            sts[0] == s_init,
            sts.last() == state_of(*scheduler, recorder@, events@, now, cycle),
            appended(old(events)@, events@),
            forall|k: int| 0 <= k < triggers@.len() ==> #[trigger] trigger_of(ctx.client_configs@, triggers@[k]),
            now == cycle_start(cycle as int, ctx.cycle_time_ms),
            entries_rules(scheduler.entries@, ctx.client_configs@),
            runs_on_cycle(ctx.client_configs@, ctx.cycle_time_ms, recorder.executions@),
        decreases triggers.len() - k,
    {
        let ghost qa = events@;
        fire_trigger(&triggers[k], scheduler, recorder, events, now, cycle, last, ctx);
        proof {
            lemma_appended_trans(old(events)@, qa, events@);
            let x = state_of(*scheduler, recorder@, events@, now, cycle);
            lemma_triggers_push(sts, triggers@.take(k as int), x, triggers@[k as int], ctx.client_configs@, ctx.cycle_time_ms);
            assert(triggers@.take(k + 1) =~= triggers@.take(k as int).push(triggers@[k as int]));
            sts = sts.push(x);
        }
        k += 1;
    }
    proof {
        assert(triggers@.take(k as int) =~= triggers@);
    }
}

/// The end of the run `instance_id` of the process `cid`: when that run is
/// still in progress, the process is done, and the changes are recorded and
/// followed by its `READY` reports.
fn handle_done(
    cid: u16,
    instance_id: u32,
    scheduler: &mut Scheduler,
    recorder: &mut SimulationRecorder,
    events: &mut Vec<SimulationEvent>,
    now: u32,
    cycle: i64,
    last: i64,
    ctx: &SimulationContext,
)
    requires
        sim_inv(*old(scheduler), old(recorder)@, old(events)@, now, last, ctx.client_configs@),
        entries_rules(old(scheduler).entries@, ctx.client_configs@),
        runs_on_cycle(ctx.client_configs@, ctx.cycle_time_ms, old(recorder).executions@),
    ensures
        sim_inv(*final(scheduler), final(recorder)@, final(events)@, now, last, ctx.client_configs@),
        appended(old(events)@, final(events)@),
        entries_rules(final(scheduler).entries@, ctx.client_configs@),
        runs_on_cycle(ctx.client_configs@, ctx.cycle_time_ms, final(recorder).executions@),
        done_step(
            state_of(*old(scheduler), old(recorder)@, old(events)@, now, cycle),
            state_of(*final(scheduler), final(recorder)@, final(events)@, now, cycle),
            cid,
            instance_id,
            ctx.client_configs@,
            ctx.cycle_time_ms,
        ),
{
    let ghost s0 = state_of(*scheduler, recorder@, events@, now, cycle);
    assert(events@.subrange(0, events@.len() as int) =~= events@);
    let current = match recorder.current_running.get(&cid) {
        Some(id) => *id == instance_id,
        None => false,
    };
    if current {
        let r = scheduler.on_done(cid);
        let ghost sa = *scheduler;
        proof {
            assert(done_rel(s0.sched, sa, cid, r));
            lemma_rules_kept(s0.sched.entries@, sa.entries@, ctx.client_configs@);
            if r is Ok {
                lemma_done_on_cycle(s0.sched, sa, cid, r, ctx.client_configs@, ctx.cycle_time_ms, cycle, now);
            }
        }
        match r {
            Ok(changes) => {
                let ghost q1 = events@;
                recorder.record_changes(now, &changes, cycle, ctx, events);
                proof {
                    lemma_cycles_kept(q1, events@, last);
                }
                react_done(scheduler, &changes, cid);
                proof {
                    lemma_rules_kept(sa.entries@, scheduler.entries@, ctx.client_configs@);
                    let s1 = state_of(*scheduler, recorder@, events@, now, cycle);
                    assert(reacted(s0, s1, sa, changes@, done_readies(changes@, cid), ctx.client_configs@, ctx.cycle_time_ms));
                }
            },
            Err(_) => {
                proof {
                    assert(state_of(*scheduler, recorder@, events@, now, cycle) == SimState { sched: sa, ..s0 });
                }
            },
        }
    }
}

/// Each state of `sts.push(x)` follows from the one before when `x`
/// follows from the last of `sts`.
proof fn lemma_sim_push(
    sts: Seq<SimState>,
    x: SimState,
    ts: Seq<CycleTrigger>,
    last: i64,
    cfgs: Seq<ClientConfig>,
    cycle_time_ms: u32,
)
    requires
        sim_run(sts, ts, last, cfgs, cycle_time_ms),
        event_step(sts.last(), x, ts, last, cfgs, cycle_time_ms),
    ensures
        sim_run(sts.push(x), ts, last, cfgs, cycle_time_ms),
{
    let s1 = sts.push(x);
    assert forall|k: int| 0 <= k < s1.len() - 1 implies #[trigger] event_step(
        s1[k],
        s1[k + 1],
        ts,
        last,
        cfgs,
        cycle_time_ms,
    ) by {
        if k < sts.len() - 1 {
            assert(s1[k] == sts[k] && s1[k + 1] == sts[k + 1]);
        } else {
            assert(s1[k] == sts.last());
        }
    }
}

/// The cycle at whose start the simulation of `cfgs` stops: one more than
/// the longest period.
pub open spec fn last_cycle(cfgs: Seq<ClientConfig>) -> i64 {
    (max_cycle_of(cfgs, cfgs.len() as int) + 1) as i64
}

/// The simulation of `cfgs`, with cycles of `cycle_time_ms`, went through
/// the states `sts`: from its first state, each state follows from the one
/// before by handling the next event.
pub open spec fn sim_trace(sts: Seq<SimState>, cfgs: Seq<ClientConfig>, cycle_time_ms: u32) -> bool {
    &&& sim_run(sts, triggers_of(cfgs, cfgs.len() as int), last_cycle(cfgs), cfgs, cycle_time_ms)
    &&& sim_start(sts[0], cfgs)
}

/// The simulation of `cfgs` ended in the state `s` after handling
/// `sts.len() - 1` events, within the limit of `MAX_SIMULATION_LOOPS`
/// events taken from the queue; taking the event that stops it counts.
pub open spec fn sim_finished(sts: Seq<SimState>, cfgs: Seq<ClientConfig>, cycle_time_ms: u32) -> bool {
    &&& sim_trace(sts, cfgs, cycle_time_ms)
    &&& stops(sts.last(), last_cycle(cfgs))
    &&& if sts.last().queue.len() == 0 {
        sts.len() <= MAX_SIMULATION_LOOPS + 1
    } else {
        sts.len() <= MAX_SIMULATION_LOOPS
    }
}

/// The simulation of `cfgs` handled `MAX_SIMULATION_LOOPS` events through
/// `sts` and had more to take.
pub open spec fn sim_overran(sts: Seq<SimState>, cfgs: Seq<ClientConfig>, cycle_time_ms: u32) -> bool {
    &&& sim_trace(sts, cfgs, cycle_time_ms)
    &&& sts.len() == MAX_SIMULATION_LOOPS + 1
    &&& sts.last().queue.len() > 0
}

/// The entries of a configuration that validates make a process graph:
/// no two share an ID, each dependency is an entry, and one entry starts on
/// its own cycle.
proof fn lemma_graph_ok(es: Seq<ProcessEntry>, cfgs: Seq<ClientConfig>)
    requires
        entries_of(es, cfgs),
        cfgs.len() > 0,
        validation_errors(cfgs).is_empty(),
    ensures
        distinct_cids(es),
        deps_exist(es),
        start_points(es).len() > 0,
        entries_rules(es, cfgs),
{
    assert forall|j: int| 0 <= j < es.len() implies (#[trigger] es[j]).is_floating == floats(cfgs, es[j].cid) by {
        crate::cycles::lemma_rule_of_valid(cfgs, j);
    }
    crate::cycles::lemma_validation_exact(cfgs);
    assert forall|a: int, b: int|
        0 <= a < es.len() && 0 <= b < es.len() && a != b implies #[trigger] es[a].cid
        != #[trigger] es[b].cid by {
        if a < b {
            assert(cfgs[a].client_id != cfgs[b].client_id);
        } else {
            assert(cfgs[b].client_id != cfgs[a].client_id);
        }
    }
    assert forall|a: int, k: int|
        0 <= a < es.len() && 0 <= k < es[a].deps().len() implies has_cid(
            es,
            #[trigger] es[a].deps()[k],
        ) by {
        let c = cfgs[a];
        assert(es[a].deps()[k] == c.depends@[k]);
        assert(crate::config::config_errors(cfgs, cfgs[a]).len() == 0);
        crate::cycles::lemma_links_clean(cfgs, c, c.depends@, k);
        crate::config::lemma_last_index(cfgs, c.depends@[k]);
        let j = last_index(cfgs, c.depends@[k])->0;
        assert(es[j].cid == c.depends@[k]);
    }
    crate::cycles::lemma_start_point_exists(cfgs);
    let j = choose|j: int|
        0 <= j < cfgs.len() && !floating_in(cfgs, cfgs[last_index(cfgs, #[trigger] cfgs[j].client_id)->0]);
    assert(!es[j].is_floating);
    lemma_start_points_member(es, j);
}

/// Simulates the plan of `config`: the processes run as scheduled, each
/// taking its expected duration (at least `MIN_DURATION_MS`) and reporting
/// `READY` right after each change, for one cycle more than the longest
/// period. A configuration with no client gives an empty result, one that
/// does not validate gives its errors. For one that validates the result is
/// what the run of `sim_trace` from its first state reaches when it stops
/// (`sim_finished`), unless taking events goes past `MAX_SIMULATION_LOOPS`
/// (`sim_overran`), which is then the only error.
pub fn simulate_plan(config: SchedulerConfig) -> (r: Result<SimulationResult, String>)
    ensures
        config.client_configs@.len() == 0 ==> r is Ok && r->Ok_0.executions@.len() == 0
            && r->Ok_0.metrics@.len() == 0 && r->Ok_0.config_errors@ == Map::<
            u16,
            Vec<String>,
        >::empty(),
        config.client_configs@.len() > 0 && !validation_errors(config.client_configs@).is_empty()
            ==> r is Ok && r->Ok_0.executions@.len() == 0 && r->Ok_0.metrics@.len() == 0
            && errors_view(r->Ok_0.config_errors@) == validation_errors(config.client_configs@),
        config.client_configs@.len() > 0 && validation_errors(config.client_configs@).is_empty()
            ==> match r {
            Ok(res) => {
                &&& plan_ok(config.client_configs@, res)
                &&& starts_by(
                    res.executions@,
                    cycle_start(last_cycle(config.client_configs@) as int, config.server_config.cycle_time_ms),
                )
                &&& runs_on_cycle(config.client_configs@, config.server_config.cycle_time_ms, res.executions@)
                &&& res.executions@.len() <= 0x1_0000_0000 ==> {
                    &&& forall|k: int| 0 <= k < res.executions@.len() ==> (#[trigger] res.executions@[k]).instance_id == k
                    &&& forall|k: int|
                        0 <= k < res.executions@.len() ==> #[trigger] run_fires(config.client_configs@, res.executions@[k])
                }
                &&& exists|sts: Seq<SimState>|
                    #[trigger] sim_finished(sts, config.client_configs@, config.server_config.cycle_time_ms)
                        && res.executions@ == sts.last().rec.executions && res.metrics@
                        == sts.last().rec.metrics
            },
            Err(e) => e@ == "Simulation reached loop limit"@ && exists|sts: Seq<SimState>|
                #[trigger] sim_overran(sts, config.client_configs@, config.server_config.cycle_time_ms),
        },
{
    if config.client_configs.len() == 0 {
        return Ok(SimulationResult::empty());
    }
    match config.validate() {
        Ok(()) => {},
        Err(errs) => {
            return Ok(SimulationResult::error(errs));
        },
    }
    let rules = config.get_client_rules();
    let ghost cfgs = config.client_configs@;
    let ghost cycle_time_ms = config.server_config.cycle_time_ms;
    let mut entries: Vec<ProcessEntry> = Vec::new();
    let mut triggers: Vec<CycleTrigger> = Vec::new();
    let mut max_cycle: u32 = 1;
    let mut i: usize = 0;
    while i < config.client_configs.len()
        invariant
            i <= cfgs.len(),
            cfgs == config.client_configs@,
            forall|id: u16| rules@.contains_key(id) <==> has_client(cfgs, id),
            forall|id: u16|
                #[trigger] rules@.contains_key(id) ==> rules@[id] == (ClientRule {
                    client_id: id,
                    is_floating: floating_in(cfgs, cfgs[last_index(cfgs, id)->0]),
                }),
            entries@.len() == i,
            forall|j: int| 0 <= j < i ==> (#[trigger] entries@[j]).wf(),
            forall|j: int|
                0 <= j < i ==> {
                    &&& (#[trigger] entries@[j]).cid == cfgs[j].client_id
                    &&& entries@[j].state == ProcessState::Idle
                    &&& entries@[j].dependency_statuses@ == all_unmet(cfgs[j].depends@)
                    &&& entries@[j].is_floating == rule_floating(cfgs, cfgs[j])
                },
            triggers@ == triggers_of(cfgs, i as int),
            forall|k: int| 0 <= k < triggers@.len() ==> #[trigger] trigger_of(cfgs, triggers@[k]),
            validation_errors(cfgs).is_empty(),
            max_cycle == max_cycle_of(cfgs, i as int),
            1 <= max_cycle <= 255,
        decreases cfgs.len() - i,
    {
        let client = &config.client_configs[i];
        let ghost old_entries = entries@;
        let ghost old_triggers = triggers@;
        proof {
            assert(has_client(cfgs, client.client_id)) by {
                assert(cfgs[i as int].client_id == client.client_id);
            }
        }
        let floating = match rules.get(&client.client_id) {
            Some(rule) => rule.is_floating,
            None => false,
        };
        entries.push(ProcessEntry::new(client.client_id, &client.depends, floating));
        if !floating {
            triggers.push(
                CycleTrigger {
                    cid: client.client_id,
                    cycle: client.cycle as i64,
                    cycle_offset: client.cycle_offset as i64,
                },
            );
        }
        proof {
            assert(triggers@ =~= triggers_of(cfgs, i + 1));
            crate::cycles::lemma_rule_of_valid(cfgs, i as int);
            assert forall|k: int| 0 <= k < triggers@.len() implies #[trigger] trigger_of(cfgs, triggers@[k]) by {
                if k < old_triggers.len() {
                    assert(triggers@[k] == old_triggers[k]);
                }
            }
            assert forall|j: int| 0 <= j < i + 1 implies {
                &&& (#[trigger] entries@[j]).cid == cfgs[j].client_id
                &&& entries@[j].state == ProcessState::Idle
                &&& entries@[j].dependency_statuses@ == all_unmet(cfgs[j].depends@)
                &&& entries@[j].is_floating == rule_floating(cfgs, cfgs[j])
            } by {
                if j < i {
                    assert(entries@[j] == old_entries[j]);
                }
            }
        }
        if client.cycle as u32 > max_cycle {
            max_cycle = client.cycle as u32;
        }
        i += 1;
    }
    proof {
        assert(entries_of(entries@, cfgs));
        lemma_graph_ok(entries@, cfgs);
    }
    let ctx = SimulationContext {
        cycle_time_ms: config.server_config.cycle_time_ms,
        client_configs: config.client_configs,
    };
    let mut scheduler = Scheduler::new(entries);
    let ghost s_new = scheduler;
    assert(entries_of(s_new.entries@, cfgs));
    let ghost mut ss: Seq<Scheduler> = seq![scheduler];
    let mut i: usize = 0;
    proof {
        assert(client_ids(cfgs).take(0) =~= Seq::<u16>::empty());
    }
    while i < ctx.client_configs.len()
        invariant
            i <= cfgs.len(),
            ctx.client_configs@ == cfgs,
            scheduler.wf(),
            readies(ss, client_ids(cfgs).take(i as int)),
            ss[0] == s_new,
            ss.last() == scheduler,
            entries_rules(scheduler.entries@, cfgs),
        decreases cfgs.len() - i,
    {
        let ghost cs = client_ids(cfgs).take(i as int);
        let ghost before = scheduler;
        report_ready(&mut scheduler, ctx.client_configs[i].client_id, Ghost(ss), Ghost(cs));
        proof {
            lemma_rules_kept(before.entries@, scheduler.entries@, cfgs);
            ss = ss.push(scheduler);
            assert(client_ids(cfgs).take(i + 1) =~= cs.push(cfgs[i as int].client_id));
        }
        i += 1;
    }
    proof {
        assert(client_ids(cfgs).take(i as int) =~= client_ids(cfgs));
    }
    let mut events: Vec<SimulationEvent> = Vec::new();
    events.push(SimulationEvent { time_ms: 0, kind: EventKind::ServerCycle(0) });
    let mut recorder = SimulationRecorder::new();
    let max_manager_cycle: i64 = max_cycle as i64 + 1;
    let mut loop_count: u32 = 0;
    let mut now: u32 = 0;
    let mut manager_cycle: i64 = 0;
    let ghost ts = triggers@;
    let ghost mut sts: Seq<SimState> = seq![state_of(scheduler, recorder@, events@, now, manager_cycle)];
    proof {
        assert(recorder@.running =~= Map::<u16, u32>::empty());
        assert(recorder@.last =~= Map::<u16, u32>::empty());
        assert(events@ =~= seq![SimulationEvent { time_ms: 0, kind: EventKind::ServerCycle(0) }]);
        assert(recorder@.executions =~= Seq::<PlannedExecution>::empty());
        assert(recorder@.metrics =~= Seq::<PlannedMetricPoint>::empty());
        assert(readies(ss, client_ids(cfgs)) && ss[0].wf() && entries_of(ss[0].entries@, cfgs)
            && ss.last() == sts[0].sched);
        assert(sim_start(sts[0], cfgs));
        assert(events@[0].kind is ServerCycle);
        assert(cycle_start(0, cycle_time_ms) == 0);
        assert forall|j: int| 0 <= j < events@.len() implies match (#[trigger] events@[j]).kind {
            EventKind::ServerCycle(c) => 0 <= c <= max_manager_cycle,
            _ => true,
        } by {}
    }
    loop
        invariant_except_break
            sts.last() == state_of(scheduler, recorder@, events@, now, manager_cycle),
            sts.len() == loop_count + 1,
            exists|j: int| 0 <= j < events@.len() && (#[trigger] events@[j]).kind is ServerCycle,
        invariant
            0 <= manager_cycle <= max_manager_cycle,
            cfgs == config.client_configs@,
            cycle_time_ms == config.server_config.cycle_time_ms,
            ctx.cycle_time_ms == cycle_time_ms,
            cfgs.len() > 0,
            validation_errors(cfgs).is_empty(),
            scheduler.wf(),
            ctx.client_configs@ == cfgs,
            triggers@ == ts,
            ts == triggers_of(cfgs, cfgs.len() as int),
            max_manager_cycle == last_cycle(cfgs),
            2 <= max_manager_cycle <= 256,
            loop_count <= MAX_SIMULATION_LOOPS,
            runs_ok(cfgs, recorder.executions@),
            numbered(recorder@),
            marks_ok(cfgs, recorder@),
            metrics_increasing(recorder.metrics@),
            recorder.metrics@.len() > 0 ==> recorder.metrics@.last().time_ms <= now,
            queue_from(events@, now),
            cycles_within(events@, max_manager_cycle),
            cycles_timed(events@, cycle_time_ms),
            starts_by(recorder.executions@, now),
            entries_rules(scheduler.entries@, cfgs),
            runs_on_cycle(cfgs, cycle_time_ms, recorder.executions@),
            forall|k: int| 0 <= k < ts.len() ==> #[trigger] trigger_of(cfgs, ts[k]),
            sim_trace(sts, cfgs, cycle_time_ms),
        ensures
            cfgs == config.client_configs@,
            cycle_time_ms == config.server_config.cycle_time_ms,
            runs_ok(cfgs, recorder.executions@),
            numbered(recorder@),
            marks_ok(cfgs, recorder@),
            metrics_increasing(recorder.metrics@),
            sim_finished(sts, cfgs, cycle_time_ms),
            sts.last().rec == recorder@,
            starts_by(recorder.executions@, cycle_start(last_cycle(cfgs) as int, cycle_time_ms)),
            runs_on_cycle(cfgs, cycle_time_ms, recorder.executions@),
        decreases MAX_SIMULATION_LOOPS + 1 - loop_count,
    {
        let ghost q0 = events@;
        let ghost s0 = sts.last();
        let event = match pop_next(&mut events) {
            Some(e) => e,
            None => {
                break;
            },
        };
        let ghost k = choose|k: int| is_next(q0, k) && Some(event) == Some(q0[k]) && events@ == q0.remove(k);
        proof {
            assert forall|j: int| 0 <= j < events@.len() implies (#[trigger] events@[j]).time_ms >= event.time_ms by {
                if j < k {
                    assert(events@[j] == q0[j]);
                } else {
                    assert(events@[j] == q0[j + 1]);
                }
            }
            assert forall|j: int| 0 <= j < events@.len() implies match (#[trigger] events@[j]).kind {
                EventKind::ServerCycle(c) => 0 <= c <= max_manager_cycle,
                _ => true,
            } by {
                if j < k {
                    assert(events@[j] == q0[j]);
                } else {
                    assert(events@[j] == q0[j + 1]);
                }
            }
            assert forall|j: int| 0 <= j < events@.len() implies match (#[trigger] events@[j]).kind {
                EventKind::ServerCycle(c) => events@[j].time_ms == cycle_start(c as int, cycle_time_ms),
                _ => true,
            } by {
                if j < k {
                    assert(events@[j] == q0[j]);
                } else {
                    assert(events@[j] == q0[j + 1]);
                }
            }
            assert(event.time_ms >= now);
            assert(match event.kind {
                EventKind::ServerCycle(c) => 0 <= c <= max_manager_cycle && event.time_ms == cycle_start(
                    c as int,
                    cycle_time_ms,
                ),
                _ => true,
            });
            assert forall|j: int| 0 <= j < recorder.executions@.len() implies (
            #[trigger] recorder.executions@[j]).start_ms <= event.time_ms by {}
            if event.kind is ProcessDone {
                let w = choose|j: int| 0 <= j < q0.len() && (#[trigger] q0[j]).kind is ServerCycle;
                if w < k {
                    assert(events@[w] == q0[w]);
                } else {
                    assert(events@[w - 1] == q0[w]);
                }
            }
        }
        now = event.time_ms;
        loop_count += 1;
        if loop_count > MAX_SIMULATION_LOOPS {
            proof {
                assert(sim_overran(sts, cfgs, cycle_time_ms));
            }
            return Err(String::from_str("Simulation reached loop limit"));
        }
        match event.kind {
            EventKind::ServerCycle(cycle) => {
                manager_cycle = cycle;
                if cycle >= max_manager_cycle {
                    proof {
                        assert(is_next(s0.queue, k));
                    }
                    break;
                }
                proof {
                    lemma_cycle_start_next(cycle as int, cycle_time_ms);
                }
                events.push(
                    SimulationEvent {
                        time_ms: now.saturating_add(ctx.cycle_time_ms),
                        kind: EventKind::ServerCycle(cycle + 1),
                    },
                );
                assert(cycles_within(events@, max_manager_cycle)) by {
                    assert forall|j: int| 0 <= j < events@.len() implies match (#[trigger] events@[j]).kind {
                        EventKind::ServerCycle(c) => 0 <= c <= max_manager_cycle,
                        _ => true,
                    } by {
                        if j < events@.len() - 1 {
                            assert(events@[j] == events@.drop_last()[j]);
                        }
                    }
                }
                assert(cycles_timed(events@, cycle_time_ms)) by {
                    assert forall|j: int| 0 <= j < events@.len() implies match (#[trigger] events@[j]).kind {
                        EventKind::ServerCycle(c) => events@[j].time_ms == cycle_start(c as int, cycle_time_ms),
                        _ => true,
                    } by {
                        if j < events@.len() - 1 {
                            assert(events@[j] == events@.drop_last()[j]);
                        }
                    }
                }
                assert(events@[events@.len() - 1].kind is ServerCycle);
                assert(now == cycle_start(cycle as int, cycle_time_ms));
                let ghost qa = events@;
                fire_triggers(&triggers, &mut scheduler, &mut recorder, &mut events, now, cycle, max_manager_cycle, &ctx);
                proof {
                    lemma_appended_keeps(qa, events@, cycle_time_ms);
                    let x = state_of(scheduler, recorder@, events@, now, manager_cycle);
                    assert(event_step(s0, x, ts, last_cycle(cfgs), cfgs, cycle_time_ms));
                    lemma_sim_push(sts, x, ts, last_cycle(cfgs), cfgs, cycle_time_ms);
                    sts = sts.push(x);
                }
            },
            EventKind::ProcessDone(cid, instance_id) => {
                let ghost qa = events@;
                handle_done(cid, instance_id, &mut scheduler, &mut recorder, &mut events, now, manager_cycle, max_manager_cycle, &ctx);
                proof {
                    lemma_appended_keeps(qa, events@, cycle_time_ms);
                    let x = state_of(scheduler, recorder@, events@, now, manager_cycle);
                    assert(event_step(s0, x, ts, last_cycle(cfgs), cfgs, cycle_time_ms));
                    lemma_sim_push(sts, x, ts, last_cycle(cfgs), cfgs, cycle_time_ms);
                    sts = sts.push(x);
                }
            },
        }
    }
    Ok(SimulationResult::new(recorder.executions, recorder.metrics, HashMap::new()))
}


/// The dependency instance IDs of a new run list, in the order of its
/// dependencies, the instance ID of the last finished run of each
/// dependency that has one, and nothing else: every dependency with a
/// finished run is listed, not only the first.
pub proof fn lemma_dep_instances(last: Map<u16, u32>, deps: Seq<u16>)
    ensures
        dep_instances(last, deps) == deps.filter(|d: u16| last.contains_key(d)).map_values(
            |d: u16| last[d],
        ),
        forall|k: int|
            0 <= k < deps.len() && last.contains_key(deps[k]) ==> dep_instances(last, deps).contains(
                last[deps[k]],
            ),
        dep_instances(last, deps).len() <= deps.len(),
    decreases deps.len(),
{
    reveal(Seq::filter);
    let pred = |d: u16| last.contains_key(d);
    let f = |d: u16| last[d];
    if deps.len() > 0 {
        let pre = deps.drop_last();
        lemma_dep_instances(last, pre);
        let fp = pre.filter(pred);
        assert(deps.filter(pred) == if pred(deps.last()) {
            fp.push(deps.last())
        } else {
            fp
        });
        if pred(deps.last()) {
            assert(fp.push(deps.last()).map_values(f) =~= fp.map_values(f) + seq![last[deps.last()]]);
        } else {
            assert(fp.map_values(f) =~= fp.map_values(f) + Seq::<u32>::empty());
        }
        let r = dep_instances(last, deps);
        let rp = dep_instances(last, pre);
        assert forall|k: int| 0 <= k < deps.len() && last.contains_key(deps[k]) implies r.contains(
            last[deps[k]],
        ) by {
            if k < pre.len() {
                assert(pre[k] == deps[k]);
                let q = choose|q: int| 0 <= q < rp.len() && rp[q] == last[pre[k]];
                assert(r[q] == rp[q]);
            } else {
                assert(r[r.len() - 1] == last[deps[k]]);
            }
        }
    }
}

} // verus!
