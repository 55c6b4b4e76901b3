//! The server's control logic: client connections, cycles and the response
//! to each request, as a state machine that the server loop drives with
//! events and the current time.
use vstd::prelude::*;

use std::collections::HashMap;

use crate::config::{has_client, id_msg, last_index, lemma_last_index, ClientConfig, ClientRule};
use crate::entry::{all_unmet, ProcessEntry, ProcessState};
use crate::message::{
    extras_view, find_key, type_text, Message, MessageType, MessageView, PROTOCOL_VERSION,
};
use crate::scheduler::{
    deps_exist, distinct_cids, done_rel, entry_index, has_cid, ready_rel, reset_rel, same_shape,
    start_points, start_rel,
    ProcessStateChange, Scheduler,
};
use crate::server::{
    ClientState, ClientStats, ManagerProcExited, ManagerProcExiting, ManagerProcRunning,
    ManagerProcStarting, ManagerState,
};
use crate::text::{dec_digits, pad3, push_decimal};

verus! {

/// The largest cycle number; the cycle after it is cycle 0. It is odd, so
/// the cycle count wraps around on an even period.
pub const CYCLE_MAX: i64 = 999_999_999_999;

/// An event for the server.
pub enum Event {
    /// Shutdown requested.
    Abort,
    /// The cycle trigger fired, with the global cycle count.
    CycleStart(u64),
    /// A message from a client.
    ClientMsg(Message),
}

/// A client as the server sees it.
pub struct ClientInfo {
    pub config: ClientConfig,
    pub state: ClientState,
    /// The message ID of the client's last request.
    pub last_mid: u8,
    pub stats: ClientStats,
    /// When the current run started, in milliseconds.
    pub running_start_at: Option<u64>,
}

/// The statistics defaults, as mathematical values.
pub open spec fn default_stats(s: ClientStats) -> bool {
    &&& s.trigger_count == 0
    &&& s.success_count == 0
    &&& s.skip_count == 0
    &&& s.late_count == 0
    &&& s.overrun_count == 0
    &&& s.time_min == u32::MAX
    &&& s.time_max == 0
    &&& s.time_sum == 0
    &&& s.overrun_time_min == u32::MAX
    &&& s.overrun_time_max == 0
    &&& s.overrun_time_sum == 0
}

impl ClientInfo {
    pub fn new(config: ClientConfig) -> (c: Self)
        ensures
            c.config == config,
            c.state == ClientState::Disconnected,
            c.last_mid == 255,
            default_stats(c.stats),
            c.running_start_at is None,
    {
        ClientInfo {
            config,
            state: ClientState::Disconnected,
            last_mid: 255,
            stats: ClientStats::default(),
            running_start_at: None,
        }
    }

    /// Set the state of the client.
    pub fn set_client_state(&mut self, state: ClientState) -> (ok: bool)
        ensures
            ok,
            final(self).state == state,
            final(self).config == old(self).config,
            final(self).last_mid == old(self).last_mid,
            final(self).stats == old(self).stats,
            final(self).running_start_at == old(self).running_start_at,
    {
        self.state = state;
        true
    }
}

/// Time stamps of the server's phases, in milliseconds.
pub struct ServerStats {
    pub interval_cycle: u32,
    pub created_at: u64,
    pub running_start_at: Option<u64>,
    pub exiting_start_at: Option<u64>,
    /// The global cycle count when the server started running.
    pub start_cycle: u64,
    /// The last global cycle count seen.
    pub last_cycle: u64,
}

/// `b - a`, or 0 when `a` is later.
pub open spec fn since(b: u64, a: u64) -> u64 {
    if b >= a {
        (b - a) as u64
    } else {
        0
    }
}

/// The number of connected clients.
pub open spec fn active_count(cs: Seq<ClientInfo>) -> nat
    decreases cs.len(),
{
    if cs.len() == 0 {
        0
    } else {
        active_count(cs.drop_last()) + if cs.last().state != ClientState::Disconnected {
            1nat
        } else {
            0nat
        }
    }
}

/// The server's state.
pub struct ManagerContext {
    pub state: ManagerState,
    /// The state changed and its entry actions are due.
    pub state_changed: bool,
    /// Why the server is exiting.
    pub exit_reason: Option<Vec<(String, String)>>,
    /// The clients, in the order of the scheduler's entries.
    pub clients: Vec<ClientInfo>,
    pub num_active_clients: usize,
    /// The current cycle, `-1` before the first.
    pub running_cycle: i64,
    pub sched: Scheduler,
    /// The processes started by the cycle.
    pub graph_start: Vec<u16>,
    pub stats: ServerStats,
    /// A statistics report is due.
    pub stats_due: bool,
}

/// The server's state as mathematical values.
pub struct ManagerView {
    pub state: ManagerState,
    pub state_changed: bool,
    /// The extras that an exit notice carries.
    pub exit_reason: Seq<(Seq<char>, Seq<char>)>,
    pub clients: Seq<ClientInfo>,
    pub num_active_clients: int,
    pub running_cycle: int,
    pub sched: Scheduler,
    pub graph_start: Seq<u16>,
    pub stats: ServerStats,
    pub stats_due: bool,
}

impl View for ManagerContext {
    type V = ManagerView;

    open spec fn view(&self) -> ManagerView {
        ManagerView {
            state: self.state,
            state_changed: self.state_changed,
            exit_reason: reason_view(self.exit_reason),
            clients: self.clients@,
            num_active_clients: self.num_active_clients as int,
            running_cycle: self.running_cycle as int,
            sched: self.sched,
            graph_start: self.graph_start@,
            stats: self.stats,
            stats_due: self.stats_due,
        }
    }
}

/// Position `i` of the configurations is the last one with its ID.
pub open spec fn is_last(cfgs: Seq<ClientConfig>, i: int) -> bool {
    last_index(cfgs, cfgs[i].client_id) == Some(i)
}

/// The positions of the configurations kept when each ID keeps its last
/// one, in order, among the first `n`.
pub open spec fn kept(cfgs: Seq<ClientConfig>, n: nat) -> Seq<int>
    decreases n,
{
    if n == 0 {
        Seq::empty()
    } else {
        kept(cfgs, (n - 1) as nat) + if is_last(cfgs, n - 1) {
            seq![n - 1]
        } else {
            Seq::empty()
        }
    }
}

impl ManagerContext {
    /// The invariant: the clients match the scheduler's entries one to one,
    /// the count of connected clients is right and the cycle is in range.
    pub open spec fn wf(&self) -> bool {
        &&& self.sched.wf()
        &&& self.clients@.len() == self.sched.entries@.len()
        &&& forall|i: int|
            0 <= i < self.clients@.len() ==> (#[trigger] self.clients@[i]).config.client_id
                == self.sched.entries@[i].cid && self.clients@[i].config.cycle > 0
        &&& self.num_active_clients == active_count(self.clients@)
        &&& -1 <= self.running_cycle <= CYCLE_MAX
        &&& self.graph_start@ == self.sched.graph_start@
    }
}

proof fn lemma_kept_step(cfgs: Seq<ClientConfig>, k: int)
    requires
        0 <= k < cfgs.len(),
    ensures
        kept(cfgs, (k + 1) as nat) == kept(cfgs, k as nat) + if is_last(cfgs, k) {
            seq![k]
        } else {
            Seq::<int>::empty()
        },
{
}

/// The kept positions are increasing, in range and last of their ID.
proof fn lemma_kept(cfgs: Seq<ClientConfig>, n: nat)
    requires
        n <= cfgs.len(),
    ensures
        forall|j: int|
            0 <= j < kept(cfgs, n).len() ==> 0 <= #[trigger] kept(cfgs, n)[j] < n && is_last(
                cfgs,
                kept(cfgs, n)[j],
            ),
        forall|a: int, b: int|
            0 <= a < b < kept(cfgs, n).len() ==> kept(cfgs, n)[a] < kept(cfgs, n)[b],
        forall|i: int| 0 <= i < n && is_last(cfgs, i) ==> kept(cfgs, n).contains(i),
    decreases n,
{
    if n > 0 {
        lemma_kept(cfgs, (n - 1) as nat);
        let pre = kept(cfgs, (n - 1) as nat);
        if is_last(cfgs, n - 1) {
            assert(kept(cfgs, n) == pre.push(n - 1));
            assert forall|i: int| 0 <= i < n && is_last(cfgs, i) implies kept(cfgs, n).contains(i) by {
                if i < n - 1 {
                    let j = choose|j: int| 0 <= j < pre.len() && pre[j] == i;
                    assert(kept(cfgs, n)[j] == i);
                } else {
                    assert(kept(cfgs, n)[pre.len() as int] == i);
                }
            }
        } else {
            assert(kept(cfgs, n) =~= pre);
        }
    }
}

/// No client is connected: the count is zero.
proof fn lemma_active_count_none(cs: Seq<ClientInfo>)
    requires
        forall|j: int| 0 <= j < cs.len() ==> (#[trigger] cs[j]).state == ClientState::Disconnected,
    ensures
        active_count(cs) == 0,
    decreases cs.len(),
{
    if cs.len() > 0 {
        lemma_active_count_none(cs.drop_last());
        assert(cs.last() == cs[cs.len() - 1]);
    }
}

/// Two kept positions with the same ID are the same position.
proof fn lemma_last_unique(cfgs: Seq<ClientConfig>, a: int, b: int)
    requires
        is_last(cfgs, a),
        is_last(cfgs, b),
        cfgs[a].client_id == cfgs[b].client_id,
    ensures
        a == b,
{
}

/// The server's state for the configured clients: each client ID keeps
/// its last configuration, disconnected; its process is idle and floats as
/// its rule says; the server is `Starting` since `now`.
pub open spec fn initial_context(
    c: ManagerContext,
    configs: Seq<ClientConfig>,
    rules: Map<u16, ClientRule>,
    stats_interval_cycle: u32,
    now: u64,
) -> bool {
    &&& c.wf()
    &&& c.state == ManagerState::Starting
    &&& !c.state_changed
    &&& c.exit_reason is None
    &&& c.num_active_clients == 0
    &&& c.running_cycle == -1
    &&& !c.stats_due
    &&& c.stats == (ServerStats {
        interval_cycle: stats_interval_cycle,
        created_at: now,
        running_start_at: None,
        exiting_start_at: None,
        start_cycle: 0,
        last_cycle: 0,
    })
    &&& c.clients@.len() == kept(configs, configs.len()).len()
    &&& forall|j: int|
        0 <= j < c.clients@.len() ==> {
            let cfg = configs[kept(configs, configs.len())[j]];
            &&& (#[trigger] c.clients@[j]).config == cfg
            &&& c.clients@[j].state == ClientState::Disconnected
            &&& c.clients@[j].last_mid == 255
            &&& default_stats(c.clients@[j].stats)
            &&& c.clients@[j].running_start_at is None
            &&& c.sched.entries@[j].state == ProcessState::Idle
            &&& c.sched.entries@[j].is_floating == rules[cfg.client_id].is_floating
            &&& c.sched.entries@[j].dependency_statuses@ == all_unmet(cfg.depends@)
        }
}

impl ManagerContext {
    /// The server's state for the configured clients: each client ID keeps
    /// its last configuration, its process floats as its rule says, and
    /// the server starts in `Starting` at `now`.
    pub fn new(
        configs: Vec<ClientConfig>,
        rules: HashMap<u16, ClientRule>,
        stats_interval_cycle: u32,
        now: u64,
    ) -> (c: Self)
        requires
            configs@.len() > 0,
            forall|i: int|
                0 <= i < configs@.len() ==> rules@.contains_key(#[trigger] configs@[i].client_id),
            forall|i: int, k: int|
                0 <= i < configs@.len() && 0 <= k < configs@[i].depends@.len() ==> has_client(
                    configs@,
                    #[trigger] configs@[i].depends@[k],
                ),
            exists|i: int|
                0 <= i < configs@.len() && !rules@[#[trigger] configs@[i].client_id].is_floating,
            forall|i: int| 0 <= i < configs@.len() ==> (#[trigger] configs@[i]).cycle > 0,
        ensures
            initial_context(c, configs@, rules@, stats_interval_cycle, now),
    {
        let ghost orig = configs@;
        let mut configs = configs;
        let mut clients: Vec<ClientInfo> = Vec::new();
        let mut entries: Vec<ProcessEntry> = Vec::new();
        let mut k: usize = 0;
        let ghost n = orig.len();
        assert(n == configs.len());
        proof {
            lemma_kept(orig, n as nat);
        }
        while configs.len() > 0
            invariant
                k <= n,
                n == orig.len(),
                n <= usize::MAX,
                configs@.len() + k == n,
                configs@ == orig.skip(k as int),
                forall|j: int| 0 <= j < entries@.len() ==> (#[trigger] entries@[j]).wf(),
                clients@.len() == entries@.len(),
                clients@.len() == kept(orig, k as nat).len(),
                forall|i: int| 0 <= i < orig.len() ==> rules@.contains_key(#[trigger] orig[i].client_id),
                forall|i: int| 0 <= i < orig.len() ==> (#[trigger] orig[i]).cycle > 0,
                forall|j: int|
                    0 <= j < clients@.len() ==> {
                        let cfg = orig[kept(orig, k as nat)[j]];
                        &&& (#[trigger] clients@[j]).config == cfg
                        &&& clients@[j].state == ClientState::Disconnected
                        &&& clients@[j].last_mid == 255
                        &&& default_stats(clients@[j].stats)
                        &&& clients@[j].running_start_at is None
                        &&& entries@[j].cid == cfg.client_id
                        &&& entries@[j].wf()
                        &&& entries@[j].state == ProcessState::Idle
                        &&& entries@[j].is_floating == rules@[cfg.client_id].is_floating
                        &&& entries@[j].dependency_statuses@ == all_unmet(cfg.depends@)
                    },
            decreases configs.len(),
        {
            assert(k < n);
            proof {
                lemma_kept_step(orig, k as int);
                assert(orig.skip(k as int)[0] == orig[k as int]);
                assert(orig.skip(k as int).remove(0) =~= orig.skip(k + 1));
            }
            let c = configs.remove(0);
            let later = has_id(&configs, c.client_id);
            proof {
                lemma_last_index(orig, c.client_id);
                if !later {
                    assert forall|j: int| k < j < orig.len() implies orig[j].client_id != c.client_id by {
                        assert(orig.skip(k + 1)[j - k - 1] == orig[j]);
                    }
                    assert(last_index(orig, c.client_id) == Some(k as int));
                } else {
                    let j = choose|j: int| 0 <= j < configs@.len() && #[trigger] configs@[j].client_id == c.client_id;
                    assert(orig[k + 1 + j] == configs@[j]);
                    assert(last_index(orig, c.client_id) != Some(k as int));
                }
            }
            if !later {
                let floating = match rules.get(&c.client_id) {
                    Some(rule) => rule.is_floating,
                    None => {
                        proof {
                            assert(rules@.contains_key(orig[k as int].client_id));
                        }
                        false
                    },
                };
                let entry = ProcessEntry::new(c.client_id, &c.depends, floating);
                clients.push(ClientInfo::new(c));
                entries.push(entry);
            }
            k += 1;
        }
        proof {
            assert(k == n) by {
                assert(orig.skip(k as int).len() == 0);
            }
            let kp = kept(orig, n as nat);
            assert(distinct_cids(entries@)) by {
                assert forall|a: int, b: int|
                    0 <= a < entries@.len() && 0 <= b < entries@.len() && a != b implies #[trigger] entries@[a].cid
                        != #[trigger] entries@[b].cid by {
                    assert(clients@[a].config == orig[kp[a]]);
                    assert(clients@[b].config == orig[kp[b]]);
                    if entries@[a].cid == entries@[b].cid {
                        lemma_last_unique(orig, kp[a], kp[b]);
                        if a < b {
                            assert(kp[a] < kp[b]);
                        } else {
                            assert(kp[b] < kp[a]);
                        }
                    }
                }
            }
            assert(forall|d: u16| has_client(orig, d) ==> has_cid(entries@, d)) by {
                assert forall|d: u16| has_client(orig, d) implies has_cid(entries@, d) by {
                    lemma_last_index(orig, d);
                    let i = last_index(orig, d)->0;
                    assert(is_last(orig, i));
                    assert(kp.contains(i));
                    let j = choose|j: int| 0 <= j < kp.len() && kp[j] == i;
                    assert(clients@[j].config == orig[i]);
                    assert(entries@[j].cid == d);
                }
            }
            assert(deps_exist(entries@)) by {
                assert forall|a: int, q: int|
                    0 <= a < entries@.len() && 0 <= q < entries@[a].deps().len() implies has_cid(
                        entries@,
                        #[trigger] entries@[a].deps()[q],
                    ) by {
                    let cfg = orig[kp[a]];
                    assert(clients@[a].config == cfg);
                    assert(entries@[a].deps()[q] == cfg.depends@[q]);
                    assert(has_client(orig, cfg.depends@[q]));
                }
            }
            assert(start_points(entries@).len() > 0) by {
                let i0 = choose|i: int|
                    0 <= i < orig.len() && !rules@[#[trigger] orig[i].client_id].is_floating;
                let d = orig[i0].client_id;
                assert(has_client(orig, d));
                let j = choose|j: int| 0 <= j < entries@.len() && #[trigger] entries@[j].cid == d;
                let cfg = orig[kp[j]];
                assert(clients@[j].config == cfg);
                crate::scheduler::lemma_start_points_member(entries@, j);
            }
            assert(entries@.len() > 0) by {
                assert(is_last(orig, n - 1)) by {
                    lemma_last_index(orig, orig[n - 1].client_id);
                }
                assert(kp.contains(n - 1));
            }
        }
        let sched = Scheduler::new(entries);
        let graph_start = copy_ids(&sched.graph_start);
        proof {
            lemma_active_count_none(clients@);
            assert forall|j: int| 0 <= j < clients@.len() implies (#[trigger] clients@[j]).config.client_id
                == sched.entries@[j].cid && clients@[j].config.cycle > 0 by {
                let kp = kept(orig, n as nat);
                assert(clients@[j].config == orig[kp[j]]);
            }
        }
        ManagerContext {
            state: ManagerState::Starting,
            state_changed: false,
            exit_reason: None,
            clients,
            num_active_clients: 0,
            running_cycle: -1,
            sched,
            graph_start,
            stats: ServerStats {
                interval_cycle: stats_interval_cycle,
                created_at: now,
                running_start_at: None,
                exiting_start_at: None,
                start_cycle: 0,
                last_cycle: 0,
            },
            stats_due: false,
        }
    }
}

/// Whether some configuration in `cfgs` has the client ID `id`.
fn has_id(cfgs: &Vec<ClientConfig>, id: u16) -> (r: bool)
    ensures
        r == has_client(cfgs@, id),
{
    let mut i: usize = 0;
    while i < cfgs.len()
        invariant
            i <= cfgs.len(),
            forall|j: int| 0 <= j < i ==> cfgs@[j].client_id != id,
        decreases cfgs.len() - i,
    {
        if cfgs[i].client_id == id {
            return true;
        }
        i += 1;
    }
    false
}

fn copy_ids(v: &Vec<u16>) -> (r: Vec<u16>)
    ensures
        r@ == v@,
{
    let mut r: Vec<u16> = Vec::new();
    let mut i: usize = 0;
    while i < v.len()
        invariant
            i <= v.len(),
            r@ == v@.take(i as int),
        decreases v.len() - i,
    {
        r.push(v[i]);
        i += 1;
        assert(r@ =~= v@.take(i as int));
    }
    assert(v@.take(i as int) =~= v@);
    r
}

/// The messages as mathematical values.
pub open spec fn views(ms: Seq<Message>) -> Seq<MessageView> {
    ms.map_values(|m: Message| m@)
}

/// The extras that a reason list gives a message.
pub open spec fn reason_view(reason: Option<Vec<(String, String)>>) -> Seq<(Seq<char>, Seq<char>)> {
    match reason {
        Some(v) => extras_view(v@),
        None => Seq::empty(),
    }
}

/// A reply.
pub open spec fn reply(
    t: MessageType,
    mid: u8,
    cid: u16,
    extras: Seq<(Seq<char>, Seq<char>)>,
) -> MessageView {
    MessageView { mtype: t, mid: mid, cid: cid, extras: extras }
}

/// The `ERROR` notices sent when the server starts exiting: to each
/// connected client whose process is `Ready`, among the first `n`.
pub open spec fn exit_notices(
    cs: Seq<ClientInfo>,
    es: Seq<ProcessEntry>,
    reason: Seq<(Seq<char>, Seq<char>)>,
    n: nat,
) -> Seq<MessageView>
    decreases n,
{
    if n == 0 {
        Seq::empty()
    } else {
        exit_notices(cs, es, reason, (n - 1) as nat) + if es[n - 1].state == ProcessState::Ready
            && cs[n - 1].state != ClientState::Disconnected {
            seq![reply(MessageType::Error, cs[n - 1].last_mid, cs[n - 1].config.client_id, reason)]
        } else {
            Seq::empty()
        }
    }
}

/// The client states once the server starts exiting: connected clients
/// whose process is `Ready` are told to exit.
pub open spec fn exiting_state(c: ClientInfo, e: ProcessEntry) -> ClientState {
    if e.state == ProcessState::Ready && c.state != ClientState::Disconnected {
        ClientState::Exiting
    } else {
        c.state
    }
}

/// The client `c` in state `st`.
pub open spec fn with_state(c: ClientInfo, st: ClientState) -> ClientInfo {
    ClientInfo { state: st, ..c }
}

/// `v` after changing state to `s`; entering a new state is then due.
pub open spec fn set_state_view(v: ManagerView, s: ManagerState) -> ManagerView {
    if v.state != s {
        ManagerView { state: s, state_changed: true, ..v }
    } else {
        v
    }
}

/// The server starts exiting from `v0`, whose exit reason is set: with no
/// client connected it is `Exited`; otherwise it sends `sent`, the notices
/// to the connected `Ready` clients, which are now exiting, and is
/// `Exiting`.
pub open spec fn exit_rel(v0: ManagerView, v1: ManagerView, sent: Seq<MessageView>) -> bool {
    if v0.num_active_clients == 0 {
        &&& v1 == set_state_view(v0, ManagerState::Exited)
        &&& sent == Seq::<MessageView>::empty()
    } else {
        &&& v1 == set_state_view(
            ManagerView {
                clients: Seq::new(
                    v0.clients.len(),
                    |j: int|
                        with_state(
                            v0.clients[j],
                            exiting_state(v0.clients[j], v0.sched.entries@[j]),
                        ),
                ),
                ..v0
            },
            ManagerState::Exiting,
        )
        &&& sent == exit_notices(v0.clients, v0.sched.entries@, v0.exit_reason, v0.clients.len())
    }
}

/// The connected count after one client's state changes.
proof fn lemma_active_count_update(cs: Seq<ClientInfo>, i: int, c: ClientInfo)
    requires
        0 <= i < cs.len(),
    ensures
        active_count(cs.update(i, c)) + (if cs[i].state != ClientState::Disconnected {
            1int
        } else {
            0int
        }) == active_count(cs) + (if c.state != ClientState::Disconnected {
            1int
        } else {
            0int
        }),
    decreases cs.len(),
{
    let u = cs.update(i, c);
    if i == cs.len() - 1 {
        assert(u.drop_last() =~= cs.drop_last());
    } else {
        assert(u.drop_last() =~= cs.drop_last().update(i, c));
        lemma_active_count_update(cs.drop_last(), i, c);
    }
}

/// A copy of a reason list.
fn copy_reason(r: &Option<Vec<(String, String)>>) -> (c: Option<Vec<(String, String)>>)
    ensures
        reason_view(c) == reason_view(*r),
{
    match r {
        None => None,
        Some(v) => {
            let mut out: Vec<(String, String)> = Vec::new();
            let mut i: usize = 0;
            while i < v.len()
                invariant
                    i <= v.len(),
                    out@.len() == i,
                    forall|q: int|
                        0 <= q < i ==> (#[trigger] out@[q]).0@ == v@[q].0@ && out@[q].1@ == v@[q].1@,
                decreases v.len() - i,
            {
                let k = v[i].0.clone();
                let x = v[i].1.clone();
                out.push((k, x));
                i += 1;
            }
            assert(extras_view(out@) =~= extras_view(v@));
            Some(out)
        },
    }
}

/// The time spent in total, starting, running and exiting, as of `now`,
/// with the time stamps of `s`. A phase not entered yet ends where the next
/// one would begin.
pub open spec fn elapsed_times(s: ServerStats, now: u64) -> (u64, u64, u64, u64) {
    let exit_start = match s.exiting_start_at {
        Some(t) => t,
        None => now,
    };
    let run_start = match s.running_start_at {
        Some(t) => t,
        None => exit_start,
    };
    (
        since(now, s.created_at),
        since(run_start, s.created_at),
        since(exit_start, run_start),
        since(now, exit_start),
    )
}

impl ManagerContext {
    /// The time spent in total, starting, running and exiting, as of `now`:
    /// see `elapsed_times`.
    pub fn calc_elapsed_times(&self, now: u64) -> (r: (u64, u64, u64, u64))
        ensures
            r == elapsed_times(self.stats, now),
    {
        let exit_start = match self.stats.exiting_start_at {
            Some(t) => t,
            None => now,
        };
        let run_start = match self.stats.running_start_at {
            Some(t) => t,
            None => exit_start,
        };
        (
            now.saturating_sub(self.stats.created_at),
            run_start.saturating_sub(self.stats.created_at),
            exit_start.saturating_sub(run_start),
            now.saturating_sub(exit_start),
        )
    }

    /// Change the server state; entering a new state is then due.
    pub fn set_state(&mut self, state: ManagerState) -> (ok: bool)
        ensures
            ok,
            final(self)@ == set_state_view(old(self)@, state),
            final(self).exit_reason == old(self).exit_reason,
    {
        if self.state != state {
            self.state = state;
            self.state_changed = true;
        }
        true
    }

    /// Start exiting: see `exit_rel`.
    fn going_to_exit(&mut self, responses: &mut Vec<Message>)
        requires
            old(self).wf(),
        ensures
            final(self).wf(),
            final(self).exit_reason == old(self).exit_reason,
            exit_rel(
                old(self)@,
                final(self)@,
                views(final(responses)@).skip(old(responses)@.len() as int),
            ),
            views(final(responses)@).take(old(responses)@.len() as int) == views(old(responses)@),
            final(responses)@.len() >= old(responses)@.len(),
    {
        let ghost r0 = responses@;
        if self.num_active_clients == 0 {
            self.set_state(ManagerState::Exited);
            assert(views(responses@).skip(r0.len() as int) =~= Seq::<MessageView>::empty());
            assert(views(responses@).take(r0.len() as int) =~= views(r0));
            return;
        }
        let ghost c0 = *self;
        let ghost v0 = self@;
        let mut j: usize = 0;
        while j < self.sched.entries.len()
            invariant
                c0.wf(),
                v0 == c0@,
                j <= c0.clients@.len(),
                self.sched == c0.sched,
                self.graph_start == c0.graph_start,
                self.exit_reason == c0.exit_reason,
                self.num_active_clients == c0.num_active_clients,
                self.running_cycle == c0.running_cycle,
                self.stats == c0.stats,
                self.stats_due == c0.stats_due,
                self.state == c0.state,
                self.state_changed == c0.state_changed,
                self.clients@.len() == c0.clients@.len(),
                forall|q: int|
                    0 <= q < c0.clients@.len() ==> #[trigger] self.clients@[q] == if q < j {
                        with_state(
                            c0.clients@[q],
                            exiting_state(c0.clients@[q], c0.sched.entries@[q]),
                        )
                    } else {
                        c0.clients@[q]
                    },
                views(responses@) == views(r0) + exit_notices(
                    c0.clients@,
                    c0.sched.entries@,
                    v0.exit_reason,
                    j as nat,
                ),
            decreases c0.clients@.len() - j,
        {
            let ghost before = views(responses@);
            if self.sched.entries[j].state == ProcessState::Ready && self.clients[j].state
                != ClientState::Disconnected {
                let reason = copy_reason(&self.exit_reason);
                let m = Message {
                    mtype: MessageType::Error,
                    mid: self.clients[j].last_mid,
                    cid: self.clients[j].config.client_id,
                    extras: match reason {
                        Some(v) => v,
                        None => Vec::new(),
                    },
                };
                proof {
                    assert(m@.extras =~= v0.exit_reason);
                }
                responses.push(m);
                self.clients[j].set_client_state(ClientState::Exiting);
                assert(views(responses@) =~= before.push(m@));
            }
            j += 1;
        }
        proof {
            assert(views(responses@).skip(r0.len() as int) =~= exit_notices(
                c0.clients@,
                c0.sched.entries@,
                v0.exit_reason,
                c0.clients@.len(),
            ));
            assert(views(responses@).take(r0.len() as int) =~= views(r0));
            assert(views(responses@).len() == responses@.len());
            lemma_exiting_count(c0.clients@, self.clients@, c0.sched.entries@);
            assert(self.clients@ =~= Seq::new(
                v0.clients.len(),
                |q: int|
                    with_state(
                        v0.clients[q],
                        exiting_state(v0.clients[q], v0.sched.entries@[q]),
                    ),
            ));
        }
        self.set_state(ManagerState::Exiting);
    }
}

/// Telling clients to exit keeps them connected.
proof fn lemma_exiting_count(c0: Seq<ClientInfo>, c1: Seq<ClientInfo>, es: Seq<ProcessEntry>)
    requires
        c1.len() == c0.len(),
        es.len() == c0.len(),
        forall|q: int|
            0 <= q < c0.len() ==> (#[trigger] c1[q]).state == exiting_state(c0[q], es[q]),
    ensures
        active_count(c1) == active_count(c0),
    decreases c0.len(),
{
    if c0.len() > 0 {
        lemma_exiting_count(c0.drop_last(), c1.drop_last(), es.drop_last());
        assert(c1.last() == c1[c0.len() - 1]);
        assert(c0.last() == c0[c0.len() - 1]);
    }
}

/// The reply `OK`.
pub open spec fn ok_reply(mid: u8, cid: u16) -> MessageView {
    reply(MessageType::Okay, mid, cid, Seq::empty())
}

/// The position of the client `cid`.
pub open spec fn client_index(v: ManagerView, cid: u16) -> int {
    choose|i: int| 0 <= i < v.sched.entries@.len() && #[trigger] v.sched.entries@[i].cid == cid
}

/// The server is starting or running.
pub open spec fn is_live(s: ManagerState) -> bool {
    s == ManagerState::Starting || s == ManagerState::Running
}

/// The client `cid` (request ID `mid`) reports `EXIT` while the server is
/// starting or running: a connected client is disconnected, answered `OK`,
/// and the server starts exiting for that reason.
pub open spec fn client_exit_rel(
    v0: ManagerView,
    v1: ManagerView,
    mid: u8,
    cid: u16,
    r: Result<Vec<Message>, String>,
) -> bool {
    if !is_live(v0.state) {
        v1 == v0 && r is Ok && r->Ok_0@.len() == 0
    } else if !has_cid(v0.sched.entries@, cid) {
        v1 == v0 && r is Err && r->Err_0@ == id_msg("client "@, cid, " does not exist"@)
    } else {
        let i = client_index(v0, cid);
        if v0.clients[i].state == ClientState::Disconnected {
            v1 == v0 && r is Ok && views(r->Ok_0@) == seq![ok_reply(mid, cid)]
        } else {
            let vm = ManagerView {
                clients: v0.clients.update(
                    i,
                    with_state(v0.clients[i], ClientState::Disconnected),
                ),
                num_active_clients: v0.num_active_clients - 1,
                exit_reason: seq![("reason"@, "ClientExit"@), ("cid"@, pad3(cid as nat))],
                ..v0
            };
            &&& r is Ok
            &&& views(r->Ok_0@).len() >= 1
            &&& views(r->Ok_0@)[0] == ok_reply(mid, cid)
            &&& exit_rel(vm, v1, views(r->Ok_0@).skip(1))
        }
    }
}

/// Shutdown requested while the server is starting or running: it starts
/// exiting for that reason.
pub open spec fn shutdown_rel(v0: ManagerView, v1: ManagerView, r: Result<Vec<Message>, String>) -> bool {
    if !is_live(v0.state) {
        v1 == v0 && r is Ok && r->Ok_0@.len() == 0
    } else {
        r is Ok && exit_rel(
            ManagerView { exit_reason: seq![("reason"@, "Shutdown"@)], ..v0 },
            v1,
            views(r->Ok_0@),
        )
    }
}

/// A reply with the given extras.
fn make_reply(t: MessageType, mid: u8, cid: u16, extras: Vec<(String, String)>) -> (m: Message)
    ensures
        m@ == reply(t, mid, cid, extras_view(extras@)),
{
    Message { mtype: t, mid, cid, extras }
}

/// A reply without extras.
fn plain_reply(t: MessageType, mid: u8, cid: u16) -> (m: Message)
    ensures
        m@ == reply(t, mid, cid, Seq::empty()),
{
    let m = Message { mtype: t, mid, cid, extras: Vec::new() };
    assert(m@.extras =~= Seq::<(Seq<char>, Seq<char>)>::empty());
    m
}

/// One key/value pair.
fn pair(k: &str, v: String) -> (p: (String, String))
    ensures
        p.0@ == k@,
        p.1@ == v@,
{
    (String::from_str(k), v)
}

impl ManagerContext {
    /// A client reports `EXIT` while the server is starting or running: see
    /// `client_exit_rel`.
    pub fn handle_client_exit(&mut self, message: &Message) -> (r: Result<Vec<Message>, String>)
        requires
            old(self).wf(),
        ensures
            final(self).wf(),
            client_exit_rel(old(self)@, final(self)@, message.mid, message.cid, r),
    {
        match self.state {
            ManagerState::Starting | ManagerState::Running => {},
            _ => {
                return Ok(Vec::new());
            },
        }
        let i = match entry_index(&self.sched.entries, message.cid) {
            Some(i) => i,
            None => {
                let mut e = String::from_str("client ");
                crate::text::push_padded3(&mut e, message.cid as u64);
                e.append(" does not exist");
                return Err(e);
            },
        };
        let ghost v0 = self@;
        proof {
            assert(client_index(v0, message.cid) == i) by {
                let q = client_index(v0, message.cid);
                assert(v0.sched.entries@[i as int].cid == message.cid);
            }
        }
        if self.clients[i].state == ClientState::Disconnected {
            let mut out: Vec<Message> = Vec::new();
            out.push(plain_reply(MessageType::Okay, message.mid, message.cid));
            assert(views(out@) =~= seq![ok_reply(message.mid, message.cid)]);
            return Ok(out);
        }
        proof {
            lemma_active_count_update(
                self.clients@,
                i as int,
                with_state(self.clients@[i as int], ClientState::Disconnected),
            );
        }
        self.clients[i].set_client_state(ClientState::Disconnected);
        self.num_active_clients = self.num_active_clients - 1;
        let mut reason: Vec<(String, String)> = Vec::new();
        reason.push(pair("reason", String::from_str("ClientExit")));
        reason.push(pair("cid", crate::text::padded3(message.cid as u64)));
        self.exit_reason = Some(reason);
        proof {
            assert(self.clients@ =~= v0.clients.update(
                i as int,
                with_state(v0.clients[i as int], ClientState::Disconnected),
            ));
            assert(reason_view(self.exit_reason) =~= seq![
                ("reason"@, "ClientExit"@),
                ("cid"@, pad3(message.cid as nat)),
            ]);
        }
        let ghost vm = ManagerView {
            clients: v0.clients.update(
                i as int,
                with_state(v0.clients[i as int], ClientState::Disconnected),
            ),
            num_active_clients: v0.num_active_clients - 1,
            exit_reason: seq![("reason"@, "ClientExit"@), ("cid"@, pad3(message.cid as nat))],
            ..v0
        };
        assert(self@ == vm);
        let mut responses: Vec<Message> = Vec::new();
        responses.push(plain_reply(MessageType::Okay, message.mid, message.cid));
        let ghost first = views(responses@);
        assert(first =~= seq![ok_reply(message.mid, message.cid)]);
        self.going_to_exit(&mut responses);
        proof {
            assert(views(responses@).take(1) == first);
            assert(views(responses@)[0] == views(responses@).take(1)[0]);
        }
        Ok(responses)
    }

    /// Shutdown requested while the server is starting or running: see
    /// `shutdown_rel`.
    pub fn handle_shutdown(&mut self) -> (r: Result<Vec<Message>, String>)
        requires
            old(self).wf(),
        ensures
            final(self).wf(),
            shutdown_rel(old(self)@, final(self)@, r),
    {
        match self.state {
            ManagerState::Starting | ManagerState::Running => {},
            _ => {
                return Ok(Vec::new());
            },
        }
        let mut reason: Vec<(String, String)> = Vec::new();
        reason.push(pair("reason", String::from_str("Shutdown")));
        self.exit_reason = Some(reason);
        assert(reason_view(self.exit_reason) =~= seq![("reason"@, "Shutdown"@)]);
        let mut responses: Vec<Message> = Vec::new();
        self.going_to_exit(&mut responses);
        assert(views(responses@).skip(0) =~= views(responses@));
        Ok(responses)
    }
}

/// Every client is connected and ready.
pub open spec fn all_active(v: ManagerView) -> bool {
    &&& v.num_active_clients == v.clients.len()
    &&& forall|j: int| 0 <= j < v.clients.len() ==> (#[trigger] v.clients[j]).state == ClientState::Active
}

/// The server runs once every client is ready.
pub open spec fn check_all_ready(v: ManagerView) -> ManagerView {
    if all_active(v) {
        set_state_view(v, ManagerState::Running)
    } else {
        v
    }
}

/// The client `cid` takes the state `st`.
pub open spec fn client_to(v: ManagerView, cid: u16, st: ClientState) -> ManagerView {
    let i = client_index(v, cid);
    ManagerView { clients: v.clients.update(i, with_state(v.clients[i], st)), ..v }
}

/// The reply that refuses a client of another protocol version.
pub open spec fn version_refusal(mid: u8, cid: u16) -> MessageView {
    reply(MessageType::Error, mid, cid, seq![("reason"@, "IncompatibleVersion"@)])
}

/// The reply to an accepted `JOIN`.
pub open spec fn joined_reply(mid: u8, cid: u16) -> MessageView {
    reply(MessageType::Joined, mid, cid, seq![("version"@, "1"@)])
}

/// The request `m` names no protocol version, or another one.
pub open spec fn bad_version(m: MessageView) -> bool {
    match find_key(m.extras, "version"@) {
        None => true,
        Some(k) => m.extras[k].1 != "1"@,
    }
}

/// `JOIN` while starting: a client of the right version that is not
/// connected connects and is answered `JOINED`; one that has joined is
/// answered `JOINED` again; others get no answer.
pub open spec fn join_starting_rel(
    v0: ManagerView,
    v1: ManagerView,
    m: MessageView,
    r: Result<Vec<Message>, String>,
) -> bool {
    &&& r is Ok
    &&& if bad_version(m) {
        v1 == v0 && views(r->Ok_0@) == seq![version_refusal(m.mid, m.cid)]
    } else if !has_cid(v0.sched.entries@, m.cid) {
        v1 == v0 && r->Ok_0@.len() == 0
    } else {
        let i = client_index(v0, m.cid);
        match v0.clients[i].state {
            ClientState::Disconnected => {
                &&& v1 == ManagerView {
                    num_active_clients: v0.num_active_clients + 1,
                    ..client_to(v0, m.cid, ClientState::Sync)
                }
                &&& views(r->Ok_0@) == seq![joined_reply(m.mid, m.cid)]
            },
            ClientState::Sync => v1 == v0 && views(r->Ok_0@) == seq![joined_reply(m.mid, m.cid)],
            _ => v1 == v0 && r->Ok_0@.len() == 0,
        }
    }
}

/// `READY` while starting: a joined client becomes ready and so does its
/// process; the server runs once every client is ready. Nothing is
/// answered yet.
pub open spec fn ready_starting_rel(
    v0: ManagerView,
    v1: ManagerView,
    cid: u16,
    r: Result<Vec<Message>, String>,
) -> bool {
    if has_cid(v0.sched.entries@, cid) && v0.clients[client_index(v0, cid)].state
        == ClientState::Sync {
        let va = client_to(v0, cid, ClientState::Active);
        match r {
            Err(e) => {
                &&& ready_rel(v0.sched, v1.sched, cid, Err(e))
                &&& v1 == ManagerView { sched: v1.sched, ..va }
            },
            Ok(out) => {
                &&& exists|ch: Vec<ProcessStateChange>| ready_rel(v0.sched, v1.sched, cid, Ok(ch))
                &&& v1 == check_all_ready(ManagerView { sched: v1.sched, ..va })
                &&& out@.len() == 0
            },
        }
    } else {
        v1 == check_all_ready(v0) && r is Ok && r->Ok_0@.len() == 0
    }
}

/// The connected count is at most the number of clients.
proof fn lemma_active_count_bound(cs: Seq<ClientInfo>)
    ensures
        active_count(cs) <= cs.len(),
    decreases cs.len(),
{
    if cs.len() > 0 {
        lemma_active_count_bound(cs.drop_last());
    }
}

impl ManagerContext {
    /// The position of the client `cid`, which exists.
    proof fn lemma_client_index(&self, i: int)
        requires
            self.wf(),
            0 <= i < self.sched.entries@.len(),
        ensures
            client_index(self@, self.sched.entries@[i].cid) == i,
    {
        let cid = self.sched.entries@[i].cid;
        let q = client_index(self@, cid);
        assert(self.sched.entries@[i].cid == cid);
    }

    /// The client `cid` takes the state `st`.
    fn set_client(&mut self, i: usize, st: ClientState)
        requires
            old(self).wf(),
            i < old(self).clients@.len(),
            (old(self).clients@[i as int].state == ClientState::Disconnected) == (st
                == ClientState::Disconnected),
        ensures
            final(self).wf(),
            final(self)@ == client_to(old(self)@, old(self).sched.entries@[i as int].cid, st),
            final(self).exit_reason == old(self).exit_reason,
    {
        proof {
            self.lemma_client_index(i as int);
            lemma_active_count_update(self.clients@, i as int, with_state(self.clients@[i as int], st));
        }
        let ghost v0 = self@;
        self.clients[i].set_client_state(st);
        assert(self.clients@ =~= v0.clients.update(i as int, with_state(v0.clients[i as int], st)));
    }

    /// The client at `i` connects.
    fn join_client(&mut self, i: usize)
        requires
            old(self).wf(),
            i < old(self).clients@.len(),
            old(self).clients@[i as int].state == ClientState::Disconnected,
        ensures
            final(self).wf(),
            final(self)@ == (ManagerView {
                num_active_clients: old(self)@.num_active_clients + 1,
                ..client_to(old(self)@, old(self).sched.entries@[i as int].cid, ClientState::Sync)
            }),
            final(self).exit_reason == old(self).exit_reason,
    {
        let ghost v0 = self@;
        let n = self.clients.len();
        proof {
            self.lemma_client_index(i as int);
            let c1 = with_state(self.clients@[i as int], ClientState::Sync);
            lemma_active_count_update(self.clients@, i as int, c1);
            lemma_active_count_bound(self.clients@.update(i as int, c1));
        }
        self.clients[i].set_client_state(ClientState::Sync);
        self.num_active_clients = self.num_active_clients + 1;
        assert(self.clients@ =~= v0.clients.update(
            i as int,
            with_state(v0.clients[i as int], ClientState::Sync),
        ));
    }

    /// Runs once every client is ready: see `check_all_ready`.
    fn check_all_ready(&mut self)
        requires
            old(self).wf(),
        ensures
            final(self).wf(),
            final(self)@ == check_all_ready(old(self)@),
            final(self).exit_reason == old(self).exit_reason,
    {
        if self.num_active_clients != self.clients.len() {
            return;
        }
        let mut j: usize = 0;
        while j < self.clients.len()
            invariant
                j <= self.clients@.len(),
                self.wf(),
                *self == *old(self),
                self.num_active_clients == self.clients@.len(),
                forall|q: int| 0 <= q < j ==> (#[trigger] self.clients@[q]).state == ClientState::Active,
            decreases self.clients@.len() - j,
        {
            if self.clients[j].state != ClientState::Active {
                return;
            }
            j += 1;
        }
        self.set_state(ManagerState::Running);
    }
}

impl ManagerProcStarting {
    /// Entering `Starting`: every process goes back to `Idle`.
    pub fn enter_state(&self, context: &mut ManagerContext)
        requires
            old(context).wf(),
        ensures
            final(context).wf(),
            final(context)@ == (ManagerView { sched: final(context)@.sched, ..old(context)@ }),
            reset_rel(old(context).sched, final(context).sched),
            final(context).exit_reason == old(context).exit_reason,
    {
        context.sched.reset_state();
    }

    /// Cycles do not run yet.
    pub fn on_cycle_start(&self, context: &mut ManagerContext, global_cycle: u64) -> (r: Result<
        Vec<Message>,
        String,
    >)
        ensures
            *final(context) == *old(context),
            r is Ok && r->Ok_0@.len() == 0,
    {
        Ok(Vec::new())
    }

    /// `JOIN` while starting: see `join_starting_rel`.
    pub fn on_client_join(&self, context: &mut ManagerContext, message: &Message) -> (r: Result<
        Vec<Message>,
        String,
    >)
        requires
            old(context).wf(),
        ensures
            final(context).wf(),
            join_starting_rel(old(context)@, final(context)@, message@, r),
            final(context).exit_reason == old(context).exit_reason,
    {
        let mut responses: Vec<Message> = Vec::new();
        let good = match message.get_extra("version") {
            Some(v) => crate::text::str_eq(v.as_str(), PROTOCOL_VERSION),
            None => false,
        };
        proof {
            assert(PROTOCOL_VERSION@ == "1"@);
            assert(good == !bad_version(message@));
        }
        if !good {
            let mut extras: Vec<(String, String)> = Vec::new();
            extras.push(pair("reason", String::from_str("IncompatibleVersion")));
            assert(extras_view(extras@) =~= seq![("reason"@, "IncompatibleVersion"@)]);
            let m = make_reply(MessageType::Error, message.mid, message.cid, extras);
            assert(m@ == version_refusal(message.mid, message.cid));
            responses.push(m);
            assert(views(responses@) =~= seq![version_refusal(message.mid, message.cid)]);
            return Ok(responses);
        }
        let i = match entry_index(&context.sched.entries, message.cid) {
            Some(i) => i,
            None => {
                assert(views(responses@) =~= Seq::<MessageView>::empty());
                return Ok(responses);
            },
        };
        proof {
            context.lemma_client_index(i as int);
        }
        let mut extras: Vec<(String, String)> = Vec::new();
        extras.push(pair("version", String::from_str(PROTOCOL_VERSION)));
        assert(extras_view(extras@) =~= seq![("version"@, "1"@)]);
        let joined = make_reply(MessageType::Joined, message.mid, message.cid, extras);
        assert(joined@ == joined_reply(message.mid, message.cid));
        match context.clients[i].state {
            ClientState::Disconnected => {
                context.join_client(i);
                responses.push(joined);
                assert(views(responses@) =~= seq![joined_reply(message.mid, message.cid)]);
            },
            ClientState::Sync => {
                responses.push(joined);
                assert(views(responses@) =~= seq![joined_reply(message.mid, message.cid)]);
            },
            _ => {},
        }
        Ok(responses)
    }

    /// `READY` while starting: see `ready_starting_rel`.
    pub fn on_client_ready(&self, context: &mut ManagerContext, message: &Message) -> (r: Result<
        Vec<Message>,
        String,
    >)
        requires
            old(context).wf(),
        ensures
            final(context).wf(),
            ready_starting_rel(old(context)@, final(context)@, message.cid, r),
            final(context).exit_reason == old(context).exit_reason,
    {
        match entry_index(&context.sched.entries, message.cid) {
            Some(i) => {
                proof {
                    context.lemma_client_index(i as int);
                }
                if context.clients[i].state == ClientState::Sync {
                    context.set_client(i, ClientState::Active);
                    match context.sched.on_ready(message.cid) {
                        Ok(_) => {},
                        Err(e) => {
                            return Err(e);
                        },
                    }
                }
            },
            None => {},
        }
        context.check_all_ready();
        Ok(Vec::new())
    }

    /// `DONE` is not expected while starting.
    pub fn on_client_done(&self, context: &mut ManagerContext, message: &Message) -> (r: Result<
        Vec<Message>,
        String,
    >)
        ensures
            *final(context) == *old(context),
            r is Ok && r->Ok_0@.len() == 0,
    {
        Ok(Vec::new())
    }

    /// `EXIT` while starting: see `client_exit_rel`.
    pub fn on_client_exit(&self, context: &mut ManagerContext, message: &Message) -> (r: Result<
        Vec<Message>,
        String,
    >)
        requires
            old(context).wf(),
        ensures
            final(context).wf(),
            client_exit_rel(old(context)@, final(context)@, message.mid, message.cid, r),
    {
        context.handle_client_exit(message)
    }

    /// Shutdown while starting: see `shutdown_rel`.
    pub fn on_shutdown(&self, context: &mut ManagerContext) -> (r: Result<Vec<Message>, String>)
        requires
            old(context).wf(),
        ensures
            final(context).wf(),
            shutdown_rel(old(context)@, final(context)@, r),
    {
        context.handle_shutdown()
    }
}

/// `n` in decimal, with a minus sign when negative.
pub open spec fn int_text(n: int) -> Seq<char> {
    if n < 0 {
        seq!['-'] + dec_digits((-n) as nat)
    } else {
        dec_digits(n as nat)
    }
}

/// The extras that name the cycle.
pub open spec fn cycle_extras(cycle: int) -> Seq<(Seq<char>, Seq<char>)> {
    seq![("cycle"@, int_text(cycle))]
}

/// The position of the entry with ID `cid`.
pub open spec fn entry_pos(es: Seq<ProcessEntry>, cid: u16) -> int {
    choose|i: int| 0 <= i < es.len() && #[trigger] es[i].cid == cid
}

/// The client's statistics after a run that started at its recorded time
/// ends at `now`: a success, or with `overrun` an overrun.
pub open spec fn record_run(c: ClientInfo, now: u64, overrun: bool) -> ClientInfo {
    let s = c.stats;
    let counted = if overrun {
        ClientStats {
            overrun_count: s.overrun_count.wrapping_add(1),
            trigger_count: s.trigger_count.wrapping_add(1),
            ..s
        }
    } else {
        ClientStats {
            success_count: s.success_count.wrapping_add(1),
            trigger_count: s.trigger_count.wrapping_add(1),
            ..s
        }
    };
    let timed = match c.running_start_at {
        None => counted,
        Some(t) => {
            let el = since(now, t) as u32;
            if overrun {
                ClientStats {
                    overrun_time_min: if el < counted.overrun_time_min {
                        el
                    } else {
                        counted.overrun_time_min
                    },
                    overrun_time_max: if el > counted.overrun_time_max {
                        el
                    } else {
                        counted.overrun_time_max
                    },
                    overrun_time_sum: counted.overrun_time_sum.wrapping_add(el as u64),
                    ..counted
                }
            } else {
                ClientStats {
                    time_min: if el < counted.time_min {
                        el
                    } else {
                        counted.time_min
                    },
                    time_max: if el > counted.time_max {
                        el
                    } else {
                        counted.time_max
                    },
                    time_sum: counted.time_sum.wrapping_add(el as u64),
                    ..counted
                }
            }
        },
    };
    ClientInfo { stats: timed, running_start_at: None, ..c }
}

/// The client's statistics after the state change `ch` at `now`.
pub open spec fn stats_step(c: ClientInfo, ch: ProcessStateChange, now: u64) -> ClientInfo {
    if ch.before == ch.after {
        c
    } else {
        match ch.after {
            ProcessState::Running => ClientInfo { running_start_at: Some(now), ..c },
            ProcessState::Idle => if ch.before == ProcessState::Running {
                record_run(c, now, false)
            } else {
                c
            },
            ProcessState::Late => if ch.before == ProcessState::Overrun {
                record_run(c, now, true)
            } else {
                ClientInfo {
                    stats: ClientStats {
                        late_count: c.stats.late_count.wrapping_add(1),
                        trigger_count: c.stats.trigger_count.wrapping_add(1),
                        ..c.stats
                    },
                    ..c
                }
            },
            ProcessState::Skip => ClientInfo {
                stats: ClientStats {
                    skip_count: c.stats.skip_count.wrapping_add(1),
                    trigger_count: c.stats.trigger_count.wrapping_add(1),
                    ..c.stats
                },
                ..c
            },
            _ => c,
        }
    }
}

/// The clients after recording the state changes `chs` at `now`, when
/// statistics are collected.
pub open spec fn stats_after(
    cs: Seq<ClientInfo>,
    es: Seq<ProcessEntry>,
    chs: Seq<ProcessStateChange>,
    now: u64,
    interval: u32,
) -> Seq<ClientInfo>
    decreases chs.len(),
{
    if interval == 0 || chs.len() == 0 {
        cs
    } else {
        let prev = stats_after(cs, es, chs.drop_last(), now, interval);
        let ch = chs.last();
        if has_cid(es, ch.cid) {
            let i = entry_pos(es, ch.cid);
            prev.update(i, stats_step(prev[i], ch, now))
        } else {
            prev
        }
    }
}

/// What the client is told of the state change `ch` made by a cycle start.
pub open spec fn cycle_reply(
    cs: Seq<ClientInfo>,
    es: Seq<ProcessEntry>,
    ch: ProcessStateChange,
    cycle: int,
) -> Seq<MessageView> {
    let mid = cs[entry_pos(es, ch.cid)].last_mid;
    match ch.after {
        ProcessState::Running => seq![reply(MessageType::Start, mid, ch.cid, cycle_extras(cycle))],
        ProcessState::Skip => seq![reply(MessageType::Skip, mid, ch.cid, cycle_extras(cycle))],
        _ => Seq::empty(),
    }
}

/// What the client is told of the state change `ch` made by a `READY`.
pub open spec fn ready_reply(
    cs: Seq<ClientInfo>,
    es: Seq<ProcessEntry>,
    ch: ProcessStateChange,
    cycle: int,
) -> Seq<MessageView> {
    let mid = cs[entry_pos(es, ch.cid)].last_mid;
    if ch.after == ProcessState::Running {
        seq![reply(MessageType::Start, mid, ch.cid, cycle_extras(cycle))]
    } else if ch.after == ProcessState::Idle && ch.before == ProcessState::Late {
        seq![reply(MessageType::Late, mid, ch.cid, cycle_extras(cycle))]
    } else {
        Seq::empty()
    }
}

/// What the client is told of the state change `ch` made by a `DONE`.
pub open spec fn done_reply(
    cs: Seq<ClientInfo>,
    es: Seq<ProcessEntry>,
    ch: ProcessStateChange,
    cycle: int,
) -> Seq<MessageView> {
    let mid = cs[entry_pos(es, ch.cid)].last_mid;
    match ch.after {
        ProcessState::Running => seq![reply(MessageType::Start, mid, ch.cid, cycle_extras(cycle))],
        ProcessState::Idle | ProcessState::Late => seq![ok_reply(mid, ch.cid)],
        _ => Seq::empty(),
    }
}

/// Which event the replies answer.
#[derive(PartialEq, Eq, Structural, Clone, Copy)]
pub enum ReplyKind {
    Cycle,
    Ready,
    Done,
}

/// The replies to the state changes `chs`, in order.
pub open spec fn replies(
    kind: ReplyKind,
    cs: Seq<ClientInfo>,
    es: Seq<ProcessEntry>,
    chs: Seq<ProcessStateChange>,
    cycle: int,
) -> Seq<MessageView>
    decreases chs.len(),
{
    if chs.len() == 0 {
        Seq::empty()
    } else {
        replies(kind, cs, es, chs.drop_last(), cycle) + if !has_cid(es, chs.last().cid) {
            Seq::empty()
        } else {
            match kind {
                ReplyKind::Cycle => cycle_reply(cs, es, chs.last(), cycle),
                ReplyKind::Ready => ready_reply(cs, es, chs.last(), cycle),
                ReplyKind::Done => done_reply(cs, es, chs.last(), cycle),
            }
        }
    }
}

/// `n` in decimal, with a minus sign when negative.
fn int_string(n: i64) -> (s: String)
    ensures
        s@ == int_text(n as int),
{
    let mut s = String::new();
    if n < 0 {
        s.append("-");
        let m: u64 = (0i128 - n as i128) as u64;
        push_decimal(&mut s, m);
        proof {
            reveal_strlit("-");
        }
        assert(s@ =~= int_text(n as int));
    } else {
        push_decimal(&mut s, n as u64);
        assert(s@ =~= int_text(n as int));
    }
    s
}

/// The extras that name the cycle.
fn make_cycle_extras(cycle: i64) -> (v: Vec<(String, String)>)
    ensures
        extras_view(v@) == cycle_extras(cycle as int),
{
    let mut v: Vec<(String, String)> = Vec::new();
    v.push(pair("cycle", int_string(cycle)));
    assert(extras_view(v@) =~= cycle_extras(cycle as int));
    v
}

/// The position of an entry found by its ID.
proof fn lemma_entry_pos(es: Seq<ProcessEntry>, i: int)
    requires
        distinct_cids(es),
        0 <= i < es.len(),
    ensures
        entry_pos(es, es[i].cid) == i,
        has_cid(es, es[i].cid),
{
    let q = entry_pos(es, es[i].cid);
    assert(es[i].cid == es[i].cid);
}

/// Records the state change `ch` at `now` in the client's statistics.
fn apply_stats(c: &mut ClientInfo, ch: &ProcessStateChange, now: u64)
    ensures
        *final(c) == stats_step(*old(c), *ch, now),
{
    if ch.before == ch.after {
        return;
    }
    match ch.after {
        ProcessState::Running => {
            c.running_start_at = Some(now);
        },
        ProcessState::Idle => {
            if ch.before == ProcessState::Running {
                record_run_exec(c, now, false);
            }
        },
        ProcessState::Late => {
            if ch.before == ProcessState::Overrun {
                record_run_exec(c, now, true);
            } else {
                c.stats.late_count = c.stats.late_count.wrapping_add(1);
                c.stats.trigger_count = c.stats.trigger_count.wrapping_add(1);
            }
        },
        ProcessState::Skip => {
            c.stats.skip_count = c.stats.skip_count.wrapping_add(1);
            c.stats.trigger_count = c.stats.trigger_count.wrapping_add(1);
        },
        _ => {},
    }
}

/// Records the end at `now` of a run: see `record_run`.
fn record_run_exec(c: &mut ClientInfo, now: u64, overrun: bool)
    ensures
        *final(c) == record_run(*old(c), now, overrun),
{
    if overrun {
        c.stats.overrun_count = c.stats.overrun_count.wrapping_add(1);
    } else {
        c.stats.success_count = c.stats.success_count.wrapping_add(1);
    }
    c.stats.trigger_count = c.stats.trigger_count.wrapping_add(1);
    match c.running_start_at {
        None => {},
        Some(t) => {
            let el = now.saturating_sub(t) as u32;
            if overrun {
                if el < c.stats.overrun_time_min {
                    c.stats.overrun_time_min = el;
                }
                if el > c.stats.overrun_time_max {
                    c.stats.overrun_time_max = el;
                }
                c.stats.overrun_time_sum = c.stats.overrun_time_sum.wrapping_add(el as u64);
            } else {
                if el < c.stats.time_min {
                    c.stats.time_min = el;
                }
                if el > c.stats.time_max {
                    c.stats.time_max = el;
                }
                c.stats.time_sum = c.stats.time_sum.wrapping_add(el as u64);
            }
        },
    }
    c.running_start_at = None;
}

impl ManagerContext {
    /// Records the state changes `changes` at `now` in the statistics, when
    /// they are collected.
    fn update_stats(&mut self, changes: &Vec<ProcessStateChange>, now: u64)
        requires
            old(self).wf(),
        ensures
            final(self).wf(),
            final(self)@ == (ManagerView {
                clients: stats_after(
                    old(self).clients@,
                    old(self).sched.entries@,
                    changes@,
                    now,
                    old(self).stats.interval_cycle,
                ),
                ..old(self)@
            }),
            final(self).exit_reason == old(self).exit_reason,
    {
        let ghost v0 = self@;
        if self.stats.interval_cycle == 0 {
            assert(self.clients@ =~= stats_after(v0.clients, v0.sched.entries@, changes@, now, 0));
            return;
        }
        let mut k: usize = 0;
        while k < changes.len()
            invariant
                k <= changes.len(),
                v0.sched.wf(),
                v0.clients.len() == v0.sched.entries@.len(),
                self.sched == v0.sched,
                self@ == (ManagerView {
                    clients: stats_after(
                        v0.clients,
                        v0.sched.entries@,
                        changes@.take(k as int),
                        now,
                        v0.stats.interval_cycle,
                    ),
                    ..v0
                }),
                self.exit_reason == old(self).exit_reason,
                self.clients@.len() == v0.clients.len(),
                forall|q: int|
                    0 <= q < v0.clients.len() ==> (#[trigger] self.clients@[q]).state
                        == v0.clients[q].state && self.clients@[q].config == v0.clients[q].config,
                v0.stats.interval_cycle != 0,
            decreases changes.len() - k,
        {
            let ghost cs0 = self.clients@;
            proof {
                let t = changes@.take(k + 1);
                assert(t.drop_last() =~= changes@.take(k as int));
                assert(t.last() == changes@[k as int]);
            }
            let ch = &changes[k];
            match entry_index(&self.sched.entries, ch.cid) {
                Some(i) => {
                    proof {
                        lemma_entry_pos(v0.sched.entries@, i as int);
                    }
                    apply_stats(&mut self.clients[i], ch, now);
                    assert(self.clients@ =~= cs0.update(i as int, stats_step(cs0[i as int], *ch, now)));
                },
                None => {},
            }
            k += 1;
        }
        proof {
            assert(changes@.take(k as int) =~= changes@);
            lemma_same_states_count(v0.clients, self.clients@);
        }
    }

    /// The replies to the state changes `changes`.
    fn make_replies(&self, kind: ReplyKind, changes: &Vec<ProcessStateChange>, cycle: i64) -> (out:
        Vec<Message>)
        requires
            self.wf(),
        ensures
            views(out@) == replies(kind, self.clients@, self.sched.entries@, changes@, cycle as int),
    {
        let mut out: Vec<Message> = Vec::new();
        let mut k: usize = 0;
        while k < changes.len()
            invariant
                k <= changes.len(),
                self.wf(),
                views(out@) == replies(
                    kind,
                    self.clients@,
                    self.sched.entries@,
                    changes@.take(k as int),
                    cycle as int,
                ),
            decreases changes.len() - k,
        {
            let ghost before = views(out@);
            proof {
                let t = changes@.take(k + 1);
                assert(t.drop_last() =~= changes@.take(k as int));
                assert(t.last() == changes@[k as int]);
            }
            let ch = &changes[k];
            let i = match entry_index(&self.sched.entries, ch.cid) {
                Some(i) => i,
                None => {
                    k += 1;
                    continue;
                },
            };
            proof {
                lemma_entry_pos(self.sched.entries@, i as int);
            }
            let mid = self.clients[i].last_mid;
            let added = match kind {
                ReplyKind::Cycle => match ch.after {
                    ProcessState::Running => Some(
                        make_reply(MessageType::Start, mid, ch.cid, make_cycle_extras(cycle)),
                    ),
                    ProcessState::Skip => Some(
                        make_reply(MessageType::Skip, mid, ch.cid, make_cycle_extras(cycle)),
                    ),
                    _ => None,
                },
                ReplyKind::Ready => if ch.after == ProcessState::Running {
                    Some(make_reply(MessageType::Start, mid, ch.cid, make_cycle_extras(cycle)))
                } else if ch.after == ProcessState::Idle && ch.before == ProcessState::Late {
                    Some(make_reply(MessageType::Late, mid, ch.cid, make_cycle_extras(cycle)))
                } else {
                    None
                },
                ReplyKind::Done => match ch.after {
                    ProcessState::Running => Some(
                        make_reply(MessageType::Start, mid, ch.cid, make_cycle_extras(cycle)),
                    ),
                    ProcessState::Idle | ProcessState::Late => Some(
                        plain_reply(MessageType::Okay, mid, ch.cid),
                    ),
                    _ => None,
                },
            };
            match added {
                Some(m) => {
                    out.push(m);
                    assert(views(out@) =~= before.push(m@));
                },
                None => {},
            }
            k += 1;
        }
        assert(changes@.take(k as int) =~= changes@);
        out
    }
}

/// Clients with the same states have the same connected count.
proof fn lemma_same_states_count(a: Seq<ClientInfo>, b: Seq<ClientInfo>)
    requires
        a.len() == b.len(),
        forall|q: int| 0 <= q < a.len() ==> (#[trigger] b[q]).state == a[q].state,
    ensures
        active_count(a) == active_count(b),
    decreases a.len(),
{
    if a.len() > 0 {
        lemma_same_states_count(a.drop_last(), b.drop_last());
        assert(a.last() == a[a.len() - 1]);
        assert(b.last() == b[a.len() - 1]);
    }
}


// ---------------------------------------------------------------------------
// Running.

/// The cycle after `c` reaches the limit `CYCLE_MAX`: the server then
/// stops running.
pub open spec fn cycle_limit_reached(c: int) -> bool {
    c < CYCLE_MAX && c + 1 >= CYCLE_MAX
}

/// The cycle after `c`; the cycle after `CYCLE_MAX`, which stands for no
/// cycle yet, is 0.
pub open spec fn next_cycle(c: int) -> int {
    if c >= CYCLE_MAX {
        0
    } else {
        c + 1
    }
}

/// The start point `cid` is triggered in `cycle`: the cycle number modulo
/// its client's period is its offset.
pub open spec fn is_target(cs: Seq<ClientInfo>, es: Seq<ProcessEntry>, cid: u16, cycle: int) -> bool {
    &&& has_cid(es, cid)
    &&& cycle % (cs[entry_pos(es, cid)].config.cycle as int) == cs[entry_pos(
        es,
        cid,
    )].config.cycle_offset as int
}

/// The start points among `list` that are triggered in `cycle`, in order.
pub open spec fn cycle_targets(
    cs: Seq<ClientInfo>,
    es: Seq<ProcessEntry>,
    list: Seq<u16>,
    cycle: int,
) -> Seq<u16>
    decreases list.len(),
{
    if list.len() == 0 {
        Seq::empty()
    } else {
        cycle_targets(cs, es, list.drop_last(), cycle) + if is_target(cs, es, list.last(), cycle) {
            seq![list.last()]
        } else {
            Seq::empty()
        }
    }
}

/// The scheduler went from `s0` to `s1` through the schedulers `ss` by
/// starting the first `rs.len()` processes of `targets` in order, as
/// `on_start` does, with the results `rs`; all but the last succeeded.
pub open spec fn start_run(
    s0: Scheduler,
    s1: Scheduler,
    targets: Seq<u16>,
    ss: Seq<Scheduler>,
    rs: Seq<Result<Vec<ProcessStateChange>, String>>,
) -> bool {
    &&& rs.len() <= targets.len()
    &&& ss.len() == rs.len() + 1
    &&& ss[0] == s0
    &&& ss.last() == s1
    &&& forall|k: int| 0 <= k < rs.len() ==> #[trigger] start_rel(ss[k], ss[k + 1], targets[k], rs[k])
    &&& forall|k: int| 0 <= k < rs.len() - 1 ==> (#[trigger] rs[k]) is Ok
}

/// The changes of the successful results, in order.
pub open spec fn ok_changes(rs: Seq<Result<Vec<ProcessStateChange>, String>>) -> Seq<
    ProcessStateChange,
>
    decreases rs.len(),
{
    if rs.len() == 0 {
        Seq::empty()
    } else {
        ok_changes(rs.drop_last()) + match rs.last() {
            Ok(c) => c@,
            Err(_) => Seq::empty(),
        }
    }
}

/// The server statistics once the cycle `global` starts at `now`: the first
/// cycle marks the start of running.
pub open spec fn cycle_stats(s: ServerStats, global: u64, now: u64) -> ServerStats {
    match s.running_start_at {
        None => ServerStats {
            running_start_at: Some(now),
            start_cycle: global,
            last_cycle: global,
            ..s
        },
        Some(_) => ServerStats { last_cycle: global, ..s },
    }
}

/// A statistics report is due at the global cycle `global`: every
/// `interval_cycle` cycles after the start, when reports are on.
pub open spec fn report_due(s: ServerStats, global: u64) -> bool {
    &&& s.interval_cycle > 0
    &&& since(global, s.start_cycle) > 0
    &&& since(global, s.start_cycle) % (s.interval_cycle as u64) == 0
}

/// The cycle trigger fired with the global cycle count `global` at `now`
/// while running: the cycle advances, the start points whose cycle it is
/// start in order, the changes are recorded in the statistics and each
/// client is told that it starts or skips. A failed start ends the event
/// with its error.
pub open spec fn cycle_rel(
    v0: ManagerView,
    v1: ManagerView,
    global: u64,
    now: u64,
    r: Result<Vec<Message>, String>,
) -> bool {
    let cycle = next_cycle(v0.running_cycle);
    let stats = cycle_stats(v0.stats, global, now);
    let targets = cycle_targets(v0.clients, v0.sched.entries@, v0.graph_start, cycle);
    if cycle_limit_reached(v0.running_cycle) {
        let vm = ManagerView {
            running_cycle: CYCLE_MAX as int,
            stats: stats,
            exit_reason: seq![("reason"@, "CycleLimitReached"@)],
            ..v0
        };
        r is Ok && exit_rel(vm, v1, views(r->Ok_0@))
    } else {
    match r {
        Err(e) => exists|ss: Seq<Scheduler>, rs: Seq<Result<Vec<ProcessStateChange>, String>>|
            #[trigger] start_run(v0.sched, v1.sched, targets, ss, rs) && {
                &&& rs.len() > 0
                &&& rs.last() == Err::<Vec<ProcessStateChange>, String>(e)
                &&& v1 == ManagerView { sched: v1.sched, running_cycle: cycle, stats: stats, ..v0 }
            },
        Ok(out) => exists|ss: Seq<Scheduler>, rs: Seq<Result<Vec<ProcessStateChange>, String>>|
            #[trigger] start_run(v0.sched, v1.sched, targets, ss, rs) && {
                let chs = ok_changes(rs);
                let cs = stats_after(
                    v0.clients,
                    v1.sched.entries@,
                    chs,
                    now,
                    v0.stats.interval_cycle,
                );
                &&& rs.len() == targets.len()
                &&& forall|k: int| 0 <= k < rs.len() ==> (#[trigger] rs[k]) is Ok
                &&& v1 == ManagerView {
                    sched: v1.sched,
                    running_cycle: cycle,
                    stats: stats,
                    clients: cs,
                    stats_due: v0.stats_due || report_due(stats, global),
                    ..v0
                }
                &&& views(out@) == replies(ReplyKind::Cycle, cs, v1.sched.entries@, chs, cycle)
            },
    }
    }
}

/// The start points triggered among a prefix of the list come first among
/// those of a longer prefix.
proof fn lemma_targets_prefix(
    cs: Seq<ClientInfo>,
    es: Seq<ProcessEntry>,
    list: Seq<u16>,
    cycle: int,
    n: int,
    m: int,
)
    requires
        0 <= n <= m <= list.len(),
    ensures
        cycle_targets(cs, es, list.take(n), cycle).len() <= cycle_targets(
            cs,
            es,
            list.take(m),
            cycle,
        ).len(),
        forall|j: int|
            0 <= j < cycle_targets(cs, es, list.take(n), cycle).len() ==> #[trigger] cycle_targets(
                cs,
                es,
                list.take(n),
                cycle,
            )[j] == cycle_targets(cs, es, list.take(m), cycle)[j],
    decreases m - n,
{
    if n < m {
        lemma_targets_prefix(cs, es, list, cycle, n, m - 1);
        lemma_targets_step(cs, es, list, cycle, m - 1);
    }
}

/// Having the same shape is transitive.
proof fn lemma_same_shape_trans(a: Seq<ProcessEntry>, b: Seq<ProcessEntry>, c: Seq<ProcessEntry>)
    requires
        same_shape(a, b),
        same_shape(b, c),
    ensures
        same_shape(a, c),
{
    assert forall|i: int| 0 <= i < a.len() implies {
        &&& (#[trigger] a[i]).cid == c[i].cid
        &&& a[i].is_floating == c[i].is_floating
        &&& a[i].deps() == c[i].deps()
    } by {
        assert(a[i].cid == b[i].cid);
        assert(b[i].cid == c[i].cid);
    }
}

/// One more start point: the chain grows by its start when it is
/// triggered.
proof fn lemma_targets_step(
    cs: Seq<ClientInfo>,
    es: Seq<ProcessEntry>,
    list: Seq<u16>,
    cycle: int,
    k: int,
)
    requires
        0 <= k < list.len(),
    ensures
        cycle_targets(cs, es, list.take(k + 1), cycle) == cycle_targets(cs, es, list.take(k), cycle)
            + if is_target(cs, es, list[k], cycle) {
            seq![list[k]]
        } else {
            Seq::<u16>::empty()
        },
{
    let t = list.take(k + 1);
    assert(t.drop_last() =~= list.take(k));
    assert(t.last() == list[k]);
}

impl ManagerContext {
    /// The position of a client found by its ID in the scheduler's entries.
    fn client_pos(&self, cid: u16) -> (r: Option<usize>)
        requires
            self.wf(),
        ensures
            match r {
                Some(i) => i < self.clients@.len() && self.sched.entries@[i as int].cid == cid
                    && entry_pos(self.sched.entries@, cid) == i && has_cid(
                    self.sched.entries@,
                    cid,
                ),
                None => !has_cid(self.sched.entries@, cid),
            },
    {
        let r = entry_index(&self.sched.entries, cid);
        match r {
            Some(i) => {
                proof {
                    lemma_entry_pos(self.sched.entries@, i as int);
                }
            },
            None => {},
        }
        r
    }
}

impl ManagerProcRunning {
    /// Entering `Running`: the next cycle is cycle 0.
    pub fn enter_state(&self, context: &mut ManagerContext)
        requires
            old(context).wf(),
        ensures
            final(context).wf(),
            final(context)@ == (ManagerView { running_cycle: CYCLE_MAX as int, ..old(context)@ }),
            final(context).exit_reason == old(context).exit_reason,
    {
        context.running_cycle = CYCLE_MAX;
    }

    /// The cycle trigger fired: see `cycle_rel`.
    pub fn on_cycle_start(
        &self,
        context: &mut ManagerContext,
        global_cycle: u64,
        now: u64,
    ) -> (r: Result<Vec<Message>, String>)
        requires
            old(context).wf(),
        ensures
            final(context).wf(),
            cycle_rel(old(context)@, final(context)@, global_cycle, now, r),
            !cycle_limit_reached(old(context).running_cycle as int) ==> final(context).exit_reason
                == old(context).exit_reason,
    {
        let ghost v0 = context@;
        let ghost c0 = *context;
        if context.stats.running_start_at.is_none() {
            context.stats.running_start_at = Some(now);
            context.stats.start_cycle = global_cycle;
        }
        context.stats.last_cycle = global_cycle;
        if context.running_cycle < CYCLE_MAX && context.running_cycle + 1 >= CYCLE_MAX {
            context.running_cycle = CYCLE_MAX;
            let mut reason: Vec<(String, String)> = Vec::new();
            reason.push(pair("reason", String::from_str("CycleLimitReached")));
            context.exit_reason = Some(reason);
            assert(reason_view(context.exit_reason) =~= seq![("reason"@, "CycleLimitReached"@)]);
            let mut responses: Vec<Message> = Vec::new();
            context.going_to_exit(&mut responses);
            assert(views(responses@).skip(0) =~= views(responses@));
            return Ok(responses);
        }
        if context.running_cycle >= CYCLE_MAX {
            context.running_cycle = 0;
        } else {
            context.running_cycle = context.running_cycle + 1;
        }
        let cycle = context.running_cycle;
        let ghost gs = v0.graph_start;
        let ghost targets = cycle_targets(v0.clients, v0.sched.entries@, gs, cycle as int);
        let ghost mut ss: Seq<Scheduler> = seq![v0.sched];
        let ghost mut rs: Seq<Result<Vec<ProcessStateChange>, String>> = Seq::empty();
        let mut changes: Vec<ProcessStateChange> = Vec::new();
        let mut k: usize = 0;
        while k < context.graph_start.len()
            invariant
                c0.wf(),
                v0 == c0@,
                0 <= cycle <= CYCLE_MAX,
                cycle as int == next_cycle(v0.running_cycle),
                !cycle_limit_reached(v0.running_cycle),
                c0 == *old(context),
                k <= gs.len(),
                context.graph_start@ == gs,
                gs == v0.graph_start,
                targets == cycle_targets(v0.clients, v0.sched.entries@, gs, cycle as int),
                context.sched.wf(),
                context.sched.same_graphs(&v0.sched),
                same_shape(v0.sched.entries@, context.sched.entries@),
                context@ == (ManagerView {
                    sched: context.sched,
                    running_cycle: cycle as int,
                    stats: cycle_stats(v0.stats, global_cycle, now),
                    ..v0
                }),
                context.exit_reason == c0.exit_reason,
                start_run(
                    v0.sched,
                    context.sched,
                    cycle_targets(v0.clients, v0.sched.entries@, gs.take(k as int), cycle as int),
                    ss,
                    rs,
                ),
                rs.len() == cycle_targets(v0.clients, v0.sched.entries@, gs.take(k as int), cycle as int).len(),
                forall|q: int| 0 <= q < rs.len() ==> (#[trigger] rs[q]) is Ok,
                changes@ == ok_changes(rs),
            decreases gs.len() - k,
        {
            let cid = context.graph_start[k];
            let ghost pre = cycle_targets(v0.clients, v0.sched.entries@, gs.take(k as int), cycle as int);
            let ghost post = cycle_targets(v0.clients, v0.sched.entries@, gs.take(k + 1), cycle as int);
            proof {
                lemma_targets_step(v0.clients, v0.sched.entries@, gs, cycle as int, k as int);
            }
            let ghost sm = context.sched;
            match entry_index(&context.sched.entries, cid) {
                Some(i) => {
                    proof {
                        assert(v0.sched.entries@[i as int].cid == cid);
                        lemma_entry_pos(v0.sched.entries@, i as int);
                    }
                    let period = context.clients[i].config.cycle as i64;
                    let offset = context.clients[i].config.cycle_offset as i64;
                    if cycle % period == offset {
                        assert(is_target(v0.clients, v0.sched.entries@, cid, cycle as int));
                        assert(post == pre.push(cid));
                        let r1 = context.sched.on_start(cid);
                        proof {
                            lemma_same_shape_trans(
                                v0.sched.entries@,
                                sm.entries@,
                                context.sched.entries@,
                            );
                        }
                        let ghost ss1 = ss.push(context.sched);
                        let ghost rs1 = rs.push(r1);
                        proof {
                            assert forall|q: int| 0 <= q < rs1.len() implies #[trigger] start_rel(
                                ss1[q],
                                ss1[q + 1],
                                post[q],
                                rs1[q],
                            ) by {
                                if q < rs.len() {
                                    assert(ss1[q] == ss[q]);
                                    assert(ss1[q + 1] == ss[q + 1]);
                                    assert(post[q] == pre[q]);
                                    assert(start_rel(ss[q], ss[q + 1], pre[q], rs[q]));
                                }
                            }
                            assert(start_run(v0.sched, context.sched, post, ss1, rs1));
                        }
                        match r1 {
                            Ok(cs) => {
                                let ghost before = changes@;
                                let mut cs = cs;
                                changes.append(&mut cs);
                                proof {
                                    assert(rs1.drop_last() =~= rs);
                                    assert(changes@ =~= ok_changes(rs1));
                                    ss = ss1;
                                    rs = rs1;
                                }
                            },
                            Err(e) => {
                                proof {
                                    lemma_targets_prefix(
                                        v0.clients,
                                        v0.sched.entries@,
                                        gs,
                                        cycle as int,
                                        k + 1,
                                        gs.len() as int,
                                    );
                                    assert(gs.take(gs.len() as int) =~= gs);
                                    assert forall|q: int| 0 <= q < rs1.len() implies #[trigger] start_rel(
                                        ss1[q],
                                        ss1[q + 1],
                                        targets[q],
                                        rs1[q],
                                    ) by {
                                        assert(post[q] == targets[q]);
                                    }
                                    assert(start_run(v0.sched, context.sched, targets, ss1, rs1));
                                    assert(rs1.last() == Err::<Vec<ProcessStateChange>, String>(e));
                                    assert(context.wf());
                                }
                                return Err(e);
                            },
                        }
                    } else {
                        assert(!is_target(v0.clients, v0.sched.entries@, cid, cycle as int));
                        assert(post == pre);
                    }
                },
                None => {
                    assert(!has_cid(v0.sched.entries@, cid));
                    assert(post == pre);
                },
            }
            k += 1;
        }
        proof {
            assert(gs.take(k as int) =~= gs);
        }
        context.update_stats(&changes, now);
        let out = context.make_replies(ReplyKind::Cycle, &changes, cycle);
        let interval = context.stats.interval_cycle;
        let running = global_cycle.saturating_sub(context.stats.start_cycle);
        if interval > 0 && running > 0 && running % (interval as u64) == 0 {
            context.stats_due = true;
        }
        proof {
            let chs = ok_changes(rs);
            assert(start_run(v0.sched, context.sched, targets, ss, rs));
        }
        Ok(out)
    }
}


/// `READY` while running: the scheduler handles it; its changes are
/// recorded in the statistics and answered.
pub open spec fn ready_running_rel(
    v0: ManagerView,
    v1: ManagerView,
    cid: u16,
    now: u64,
    r: Result<Vec<Message>, String>,
) -> bool {
    match r {
        Err(e) => {
            &&& ready_rel(v0.sched, v1.sched, cid, Err(e))
            &&& v1 == ManagerView { sched: v1.sched, ..v0 }
        },
        Ok(out) => exists|ch: Vec<ProcessStateChange>|
            #[trigger] ready_rel(v0.sched, v1.sched, cid, Ok(ch)) && {
                let cs = stats_after(v0.clients, v1.sched.entries@, ch@, now, v0.stats.interval_cycle);
                &&& v1 == ManagerView { sched: v1.sched, clients: cs, ..v0 }
                &&& views(out@) == replies(ReplyKind::Ready, cs, v1.sched.entries@, ch@, v0.running_cycle)
            },
    }
}

/// `DONE` while running: the scheduler handles it; its changes are
/// recorded in the statistics and answered.
pub open spec fn done_running_rel(
    v0: ManagerView,
    v1: ManagerView,
    cid: u16,
    now: u64,
    r: Result<Vec<Message>, String>,
) -> bool {
    match r {
        Err(e) => {
            &&& done_rel(v0.sched, v1.sched, cid, Err(e))
            &&& v1 == ManagerView { sched: v1.sched, ..v0 }
        },
        Ok(out) => exists|ch: Vec<ProcessStateChange>|
            #[trigger] done_rel(v0.sched, v1.sched, cid, Ok(ch)) && {
                let cs = stats_after(v0.clients, v1.sched.entries@, ch@, now, v0.stats.interval_cycle);
                &&& v1 == ManagerView { sched: v1.sched, clients: cs, ..v0 }
                &&& views(out@) == replies(ReplyKind::Done, cs, v1.sched.entries@, ch@, v0.running_cycle)
            },
    }
}

/// The error for a `JOIN` while running.
pub open spec fn join_refusal(cid: u16) -> Seq<char> {
    "invalid Join from CID:"@ + pad3(cid as nat)
}

impl ManagerProcRunning {
    /// `JOIN` is refused while running.
    pub fn on_client_join(&self, context: &mut ManagerContext, message: &Message) -> (r: Result<
        Vec<Message>,
        String,
    >)
        ensures
            *final(context) == *old(context),
            r is Err && r->Err_0@ == join_refusal(message.cid),
    {
        let mut e = String::from_str("invalid Join from CID:");
        crate::text::push_padded3(&mut e, message.cid as u64);
        Err(e)
    }

    /// `READY` while running: see `ready_running_rel`.
    pub fn on_client_ready(&self, context: &mut ManagerContext, message: &Message, now: u64) -> (r:
        Result<Vec<Message>, String>)
        requires
            old(context).wf(),
        ensures
            final(context).wf(),
            ready_running_rel(old(context)@, final(context)@, message.cid, now, r),
            final(context).exit_reason == old(context).exit_reason,
    {
        let ghost v0 = context@;
        let changes = match context.sched.on_ready(message.cid) {
            Ok(c) => c,
            Err(e) => {
                return Err(e);
            },
        };
        let ghost v1 = context@;
        context.update_stats(&changes, now);
        let out = context.make_replies(ReplyKind::Ready, &changes, context.running_cycle);
        proof {
            assert(ready_rel(v0.sched, context.sched, message.cid, Ok(changes)));
        }
        Ok(out)
    }

    /// `DONE` while running: see `done_running_rel`.
    pub fn on_client_done(&self, context: &mut ManagerContext, message: &Message, now: u64) -> (r:
        Result<Vec<Message>, String>)
        requires
            old(context).wf(),
        ensures
            final(context).wf(),
            done_running_rel(old(context)@, final(context)@, message.cid, now, r),
            final(context).exit_reason == old(context).exit_reason,
    {
        let ghost v0 = context@;
        let changes = match context.sched.on_done(message.cid) {
            Ok(c) => c,
            Err(e) => {
                return Err(e);
            },
        };
        context.update_stats(&changes, now);
        let out = context.make_replies(ReplyKind::Done, &changes, context.running_cycle);
        proof {
            assert(done_rel(v0.sched, context.sched, message.cid, Ok(changes)));
        }
        Ok(out)
    }

    /// `EXIT` while running: see `client_exit_rel`.
    pub fn on_client_exit(&self, context: &mut ManagerContext, message: &Message) -> (r: Result<
        Vec<Message>,
        String,
    >)
        requires
            old(context).wf(),
        ensures
            final(context).wf(),
            client_exit_rel(old(context)@, final(context)@, message.mid, message.cid, r),
    {
        context.handle_client_exit(message)
    }

    /// Shutdown while running: see `shutdown_rel`.
    pub fn on_shutdown(&self, context: &mut ManagerContext) -> (r: Result<Vec<Message>, String>)
        requires
            old(context).wf(),
        ensures
            final(context).wf(),
            shutdown_rel(old(context)@, final(context)@, r),
    {
        context.handle_shutdown()
    }
}


// ---------------------------------------------------------------------------
// Exiting.

/// The server statistics once exiting starts at `now`: the first time is
/// kept.
pub open spec fn exiting_stats(s: ServerStats, now: u64) -> ServerStats {
    match s.exiting_start_at {
        None => ServerStats { exiting_start_at: Some(now), ..s },
        Some(_) => s,
    }
}

/// The client `cid` exists and is connected.
pub open spec fn is_connected(v: ManagerView, cid: u16) -> bool {
    has_cid(v.sched.entries@, cid) && v.clients[client_index(v, cid)].state
        != ClientState::Disconnected
}

/// `READY` while exiting: a connected client is told to exit, with the
/// reason, and is exiting; others get no answer.
pub open spec fn ready_exiting_rel(v0: ManagerView, v1: ManagerView, cid: u16, out: Seq<MessageView>) -> bool {
    if is_connected(v0, cid) {
        &&& v1 == client_to(v0, cid, ClientState::Exiting)
        &&& out == seq![
            reply(MessageType::Error, v0.clients[client_index(v0, cid)].last_mid, cid, v0.exit_reason),
        ]
    } else {
        v1 == v0 && out == Seq::<MessageView>::empty()
    }
}

/// `EXIT` while exiting: a known client is answered `OK` and a connected
/// one is disconnected; the server has exited once no client is connected.
pub open spec fn exit_exiting_rel(v0: ManagerView, v1: ManagerView, cid: u16, out: Seq<MessageView>) -> bool {
    let va = if is_connected(v0, cid) {
        ManagerView {
            num_active_clients: v0.num_active_clients - 1,
            ..client_to(v0, cid, ClientState::Disconnected)
        }
    } else {
        v0
    };
    &&& v1 == if va.num_active_clients == 0 {
        set_state_view(va, ManagerState::Exited)
    } else {
        va
    }
    &&& out == if has_cid(v0.sched.entries@, cid) {
        seq![ok_reply(v0.clients[client_index(v0, cid)].last_mid, cid)]
    } else {
        Seq::<MessageView>::empty()
    }
}

impl ManagerContext {
    /// The client at `i` disconnects.
    fn leave_client(&mut self, i: usize)
        requires
            old(self).wf(),
            i < old(self).clients@.len(),
            old(self).clients@[i as int].state != ClientState::Disconnected,
        ensures
            final(self).wf(),
            final(self)@ == (ManagerView {
                num_active_clients: old(self)@.num_active_clients - 1,
                ..client_to(old(self)@, old(self).sched.entries@[i as int].cid, ClientState::Disconnected)
            }),
            final(self).exit_reason == old(self).exit_reason,
    {
        let ghost v0 = self@;
        proof {
            self.lemma_client_index(i as int);
            let c1 = with_state(self.clients@[i as int], ClientState::Disconnected);
            lemma_active_count_update(self.clients@, i as int, c1);
        }
        self.clients[i].set_client_state(ClientState::Disconnected);
        self.num_active_clients = self.num_active_clients - 1;
        assert(self.clients@ =~= v0.clients.update(
            i as int,
            with_state(v0.clients[i as int], ClientState::Disconnected),
        ));
    }

    /// A message to the client with the exit reason as its extras.
    fn exit_notice(&self, mid: u8, cid: u16) -> (m: Message)
        ensures
            m@ == reply(MessageType::Error, mid, cid, self@.exit_reason),
    {
        let extras = match copy_reason(&self.exit_reason) {
            Some(v) => v,
            None => Vec::new(),
        };
        let m = Message { mtype: MessageType::Error, mid, cid, extras };
        assert(m@.extras =~= self@.exit_reason);
        m
    }
}

impl ManagerProcExiting {
    /// Entering `Exiting`: the time it started is recorded the first time.
    pub fn enter_state(&self, context: &mut ManagerContext, now: u64)
        requires
            old(context).wf(),
        ensures
            final(context).wf(),
            final(context)@ == (ManagerView {
                stats: exiting_stats(old(context)@.stats, now),
                ..old(context)@
            }),
            final(context).exit_reason == old(context).exit_reason,
    {
        if context.stats.exiting_start_at.is_none() {
            context.stats.exiting_start_at = Some(now);
        }
    }

    /// Cycles are ignored while exiting.
    pub fn on_cycle_start(&self, context: &mut ManagerContext, global_cycle: u64) -> (r: Result<
        Vec<Message>,
        String,
    >)
        ensures
            *final(context) == *old(context),
            r is Ok && r->Ok_0@.len() == 0,
    {
        Ok(Vec::new())
    }

    /// `JOIN` while exiting is refused with the exit reason.
    pub fn on_client_join(&self, context: &mut ManagerContext, message: &Message) -> (r: Result<
        Vec<Message>,
        String,
    >)
        ensures
            *final(context) == *old(context),
            r is Ok && views(r->Ok_0@) == seq![
                reply(MessageType::Error, message.mid, message.cid, old(context)@.exit_reason),
            ],
    {
        let mut out: Vec<Message> = Vec::new();
        out.push(context.exit_notice(message.mid, message.cid));
        assert(views(out@) =~= seq![
            reply(MessageType::Error, message.mid, message.cid, context@.exit_reason),
        ]);
        Ok(out)
    }

    /// `READY` while exiting: see `ready_exiting_rel`.
    pub fn on_client_ready(&self, context: &mut ManagerContext, message: &Message) -> (r: Result<
        Vec<Message>,
        String,
    >)
        requires
            old(context).wf(),
        ensures
            final(context).wf(),
            r is Ok && ready_exiting_rel(old(context)@, final(context)@, message.cid, views(r->Ok_0@)),
            final(context).exit_reason == old(context).exit_reason,
    {
        let mut out: Vec<Message> = Vec::new();
        match context.client_pos(message.cid) {
            Some(i) => {
                proof {
                    context.lemma_client_index(i as int);
                }
                if context.clients[i].state != ClientState::Disconnected {
                    let m = context.exit_notice(context.clients[i].last_mid, message.cid);
                    context.set_client(i, ClientState::Exiting);
                    out.push(m);
                    assert(views(out@) =~= seq![m@]);
                } else {
                    assert(views(out@) =~= Seq::<MessageView>::empty());
                }
            },
            None => {
                assert(views(out@) =~= Seq::<MessageView>::empty());
            },
        }
        Ok(out)
    }

    /// `DONE` while exiting: a connected client is answered `OK`; it is told
    /// to exit at its next `READY`.
    pub fn on_client_done(&self, context: &mut ManagerContext, message: &Message) -> (r: Result<
        Vec<Message>,
        String,
    >)
        requires
            old(context).wf(),
        ensures
            *final(context) == *old(context),
            r is Ok && views(r->Ok_0@) == if is_connected(old(context)@, message.cid) {
                seq![
                    ok_reply(
                        old(context)@.clients[client_index(old(context)@, message.cid)].last_mid,
                        message.cid,
                    ),
                ]
            } else {
                Seq::<MessageView>::empty()
            },
    {
        let mut out: Vec<Message> = Vec::new();
        match context.client_pos(message.cid) {
            Some(i) => {
                proof {
                    context.lemma_client_index(i as int);
                }
                if context.clients[i].state != ClientState::Disconnected {
                    let m = plain_reply(MessageType::Okay, context.clients[i].last_mid, message.cid);
                    out.push(m);
                    assert(views(out@) =~= seq![m@]);
                } else {
                    assert(views(out@) =~= Seq::<MessageView>::empty());
                }
            },
            None => {
                assert(views(out@) =~= Seq::<MessageView>::empty());
            },
        }
        Ok(out)
    }

    /// `EXIT` while exiting: see `exit_exiting_rel`.
    pub fn on_client_exit(&self, context: &mut ManagerContext, message: &Message) -> (r: Result<
        Vec<Message>,
        String,
    >)
        requires
            old(context).wf(),
        ensures
            final(context).wf(),
            r is Ok && exit_exiting_rel(old(context)@, final(context)@, message.cid, views(r->Ok_0@)),
            final(context).exit_reason == old(context).exit_reason,
    {
        let mut out: Vec<Message> = Vec::new();
        match context.client_pos(message.cid) {
            Some(i) => {
                proof {
                    context.lemma_client_index(i as int);
                }
                let mid = context.clients[i].last_mid;
                if context.clients[i].state != ClientState::Disconnected {
                    context.leave_client(i);
                }
                let m = plain_reply(MessageType::Okay, mid, message.cid);
                out.push(m);
                assert(views(out@) =~= seq![m@]);
            },
            None => {
                assert(views(out@) =~= Seq::<MessageView>::empty());
            },
        }
        if context.num_active_clients == 0 {
            context.set_state(ManagerState::Exited);
        }
        Ok(out)
    }

    /// Shutdown while exiting: exiting goes on.
    pub fn on_shutdown(&self, context: &mut ManagerContext) -> (r: Result<Vec<Message>, String>)
        ensures
            *final(context) == *old(context),
            r is Ok && r->Ok_0@.len() == 0,
    {
        Ok(Vec::new())
    }
}

// ---------------------------------------------------------------------------
// Exited.

/// The error for a client request after the server exited.
pub open spec fn dropped_msg(m: MessageView) -> Seq<char> {
    "already exited, drop "@ + type_text(m.mtype) + " MID:"@ + dec_digits(m.mid as nat) + " CID:"@
        + pad3(m.cid as nat)
}

impl ManagerProcExited {
    /// Entering `Exited`: the final statistics report is due.
    pub fn enter_state(&self, context: &mut ManagerContext)
        requires
            old(context).wf(),
        ensures
            final(context).wf(),
            final(context)@ == (ManagerView { stats_due: true, ..old(context)@ }),
            final(context).exit_reason == old(context).exit_reason,
    {
        context.stats_due = true;
    }

    /// A cycle after exiting is an error.
    pub fn on_cycle_start(&self, context: &mut ManagerContext, global_cycle: u64) -> (r: Result<
        Vec<Message>,
        String,
    >)
        ensures
            *final(context) == *old(context),
            r is Err && r->Err_0@ == "already exited, drop cycle_start"@,
    {
        Err(String::from_str("already exited, drop cycle_start"))
    }

    /// A request after exiting is an error.
    fn dropped(&self, message: &Message) -> (r: Result<Vec<Message>, String>)
        ensures
            r is Err && r->Err_0@ == dropped_msg(message@),
    {
        let mut e = String::from_str("already exited, drop ");
        e.append(message.mtype.as_str());
        e.append(" MID:");
        push_decimal(&mut e, message.mid as u64);
        e.append(" CID:");
        crate::text::push_padded3(&mut e, message.cid as u64);
        Err(e)
    }

    /// `JOIN` after exiting is an error.
    pub fn on_client_join(&self, context: &mut ManagerContext, message: &Message) -> (r: Result<
        Vec<Message>,
        String,
    >)
        ensures
            *final(context) == *old(context),
            r is Err && r->Err_0@ == dropped_msg(message@),
    {
        self.dropped(message)
    }

    /// `READY` after exiting is an error.
    pub fn on_client_ready(&self, context: &mut ManagerContext, message: &Message) -> (r: Result<
        Vec<Message>,
        String,
    >)
        ensures
            *final(context) == *old(context),
            r is Err && r->Err_0@ == dropped_msg(message@),
    {
        self.dropped(message)
    }

    /// `DONE` after exiting is an error.
    pub fn on_client_done(&self, context: &mut ManagerContext, message: &Message) -> (r: Result<
        Vec<Message>,
        String,
    >)
        ensures
            *final(context) == *old(context),
            r is Err && r->Err_0@ == dropped_msg(message@),
    {
        self.dropped(message)
    }

    /// `EXIT` after exiting is a retransmission: it is answered `OK`.
    pub fn on_client_exit(&self, context: &mut ManagerContext, message: &Message) -> (r: Result<
        Vec<Message>,
        String,
    >)
        ensures
            *final(context) == *old(context),
            r is Ok && views(r->Ok_0@) == seq![ok_reply(message.mid, message.cid)],
    {
        let mut out: Vec<Message> = Vec::new();
        out.push(plain_reply(MessageType::Okay, message.mid, message.cid));
        assert(views(out@) =~= seq![ok_reply(message.mid, message.cid)]);
        Ok(out)
    }

    /// Shutdown after exiting is an error.
    pub fn on_shutdown(&self, context: &mut ManagerContext) -> (r: Result<Vec<Message>, String>)
        ensures
            *final(context) == *old(context),
            r is Err && r->Err_0@ == "already exited, drop shutdown"@,
    {
        Err(String::from_str("already exited, drop shutdown"))
    }
}


// ---------------------------------------------------------------------------
// The event manager.

/// The server: its state, driven by events.
pub struct EventManager {
    pub context: ManagerContext,
}

/// The error for a message from a client that is not configured.
pub open spec fn unknown_client_msg(m: MessageView) -> Seq<char> {
    "unknown client message type="@ + type_text(m.mtype) + ", CID:"@ + pad3(m.cid as nat)
}

/// The error for a message of a type that clients do not send.
pub open spec fn not_client_msg(m: MessageView) -> Seq<char> {
    "not a client message type="@ + type_text(m.mtype) + ", CID:"@ + pad3(m.cid as nat)
}

/// `v` once the client `cid` sent the request `mid`.
pub open spec fn with_last_mid(v: ManagerView, cid: u16, mid: u8) -> ManagerView {
    let i = client_index(v, cid);
    ManagerView { clients: v.clients.update(i, ClientInfo { last_mid: mid, ..v.clients[i] }), ..v }
}

/// Nothing changed and nothing is answered.
pub open spec fn quiet(v0: ManagerView, v1: ManagerView, r: Result<Vec<Message>, String>) -> bool {
    v1 == v0 && r is Ok && r->Ok_0@.len() == 0
}

/// Nothing changed and the event is refused with `e`.
pub open spec fn refused(
    v0: ManagerView,
    v1: ManagerView,
    r: Result<Vec<Message>, String>,
    e: Seq<char>,
) -> bool {
    v1 == v0 && r is Err && r->Err_0@ == e
}

/// How the server in state `v0` handles the request `m` of a configured
/// client, whose request ID is already recorded in `v0`.
pub open spec fn request_handled(
    v0: ManagerView,
    v1: ManagerView,
    m: MessageView,
    now: u64,
    r: Result<Vec<Message>, String>,
) -> bool {
    match m.mtype {
        MessageType::Join => match v0.state {
            ManagerState::Starting => join_starting_rel(v0, v1, m, r),
            ManagerState::Running => refused(v0, v1, r, join_refusal(m.cid)),
            ManagerState::Exiting => v1 == v0 && r is Ok && views(r->Ok_0@) == seq![
                reply(MessageType::Error, m.mid, m.cid, v0.exit_reason),
            ],
            ManagerState::Exited => refused(v0, v1, r, dropped_msg(m)),
        },
        MessageType::Ready => match v0.state {
            ManagerState::Starting => ready_starting_rel(v0, v1, m.cid, r),
            ManagerState::Running => ready_running_rel(v0, v1, m.cid, now, r),
            ManagerState::Exiting => r is Ok && ready_exiting_rel(v0, v1, m.cid, views(r->Ok_0@)),
            ManagerState::Exited => refused(v0, v1, r, dropped_msg(m)),
        },
        MessageType::Done => match v0.state {
            ManagerState::Starting => quiet(v0, v1, r),
            ManagerState::Running => done_running_rel(v0, v1, m.cid, now, r),
            ManagerState::Exiting => v1 == v0 && r is Ok && views(r->Ok_0@) == if is_connected(
                v0,
                m.cid,
            ) {
                seq![ok_reply(v0.clients[client_index(v0, m.cid)].last_mid, m.cid)]
            } else {
                Seq::<MessageView>::empty()
            },
            ManagerState::Exited => refused(v0, v1, r, dropped_msg(m)),
        },
        MessageType::Exit => match v0.state {
            ManagerState::Exiting => r is Ok && exit_exiting_rel(v0, v1, m.cid, views(r->Ok_0@)),
            ManagerState::Exited => v1 == v0 && r is Ok && views(r->Ok_0@) == seq![
                ok_reply(m.mid, m.cid),
            ],
            _ => client_exit_rel(v0, v1, m.mid, m.cid, r),
        },
        _ => refused(v0, v1, r, not_client_msg(m)),
    }
}

/// How the server in state `v0` handles the event `ev` at `now`, before it
/// enters a new state.
pub open spec fn handled(
    v0: ManagerView,
    v1: ManagerView,
    ev: Event,
    now: u64,
    r: Result<Vec<Message>, String>,
) -> bool {
    match ev {
        Event::Abort => match v0.state {
            ManagerState::Exiting => quiet(v0, v1, r),
            ManagerState::Exited => refused(v0, v1, r, "already exited, drop shutdown"@),
            _ => shutdown_rel(v0, v1, r),
        },
        Event::CycleStart(g) => match v0.state {
            ManagerState::Running => cycle_rel(v0, v1, g, now, r),
            ManagerState::Exited => refused(v0, v1, r, "already exited, drop cycle_start"@),
            _ => quiet(v0, v1, r),
        },
        Event::ClientMsg(m) => if !has_cid(v0.sched.entries@, m.cid) {
            refused(v0, v1, r, unknown_client_msg(m@))
        } else {
            request_handled(with_last_mid(v0, m.cid, m.mid), v1, m@, now, r)
        },
    }
}

/// `v1` once the server in state `v0` entered the state it changed to, if
/// it changed, at `now`.
pub open spec fn entered(v0: ManagerView, v1: ManagerView, now: u64) -> bool {
    if !v0.state_changed {
        v1 == v0
    } else {
        let v = ManagerView { state_changed: false, ..v0 };
        match v.state {
            ManagerState::Starting => {
                &&& reset_rel(v.sched, v1.sched)
                &&& v1 == ManagerView { sched: v1.sched, ..v }
            },
            ManagerState::Running => v1 == ManagerView { running_cycle: CYCLE_MAX as int, ..v },
            ManagerState::Exiting => v1 == ManagerView { stats: exiting_stats(v.stats, now), ..v },
            ManagerState::Exited => v1 == ManagerView { stats_due: true, ..v },
        }
    }
}

impl EventManager {
    /// The server for the configured clients, in `Starting`: see
    /// `initial_context`.
    pub fn new(
        client_configs: Vec<ClientConfig>,
        rules: HashMap<u16, ClientRule>,
        stats_interval_cycle: u32,
        now: u64,
    ) -> (m: Self)
        requires
            forall|i: int|
                0 <= i < client_configs@.len() ==> rules@.contains_key(
                    #[trigger] client_configs@[i].client_id,
                ),
            forall|i: int, k: int|
                0 <= i < client_configs@.len() && 0 <= k < client_configs@[i].depends@.len()
                    ==> has_client(client_configs@, #[trigger] client_configs@[i].depends@[k]),
            exists|i: int|
                0 <= i < client_configs@.len() && !rules@[#[trigger] client_configs@[i].client_id].is_floating,
            forall|i: int| 0 <= i < client_configs@.len() ==> (#[trigger] client_configs@[i]).cycle > 0,
        ensures
            initial_context(m.context, client_configs@, rules@, stats_interval_cycle, now),
    {
        let ghost cfgs = client_configs@;
        let ghost rl = rules@;
        let mut context = ManagerContext::new(client_configs, rules, stats_interval_cycle, now);
        let ghost c0 = context;
        ManagerProcStarting.enter_state(&mut context);
        proof {
            assert forall|j: int| 0 <= j < context.clients@.len() implies {
                let cfg = cfgs[kept(cfgs, cfgs.len())[j]];
                &&& (#[trigger] context.sched.entries@[j]).is_floating == rl[cfg.client_id].is_floating
                &&& context.sched.entries@[j].dependency_statuses@ == all_unmet(cfg.depends@)
            } by {
                let cfg = cfgs[kept(cfgs, cfgs.len())[j]];
                assert(c0.clients@[j].config == cfg);
                assert(c0.sched.entries@[j].deps() =~= cfg.depends@);
            }
        }
        EventManager { context }
    }

    /// The current state.
    pub fn get_state(&self) -> (s: ManagerState)
        ensures
            s == self.context.state,
    {
        self.context.state
    }

    /// Handles the event `ev` at `now` and enters the state it led to: see
    /// `handled` and `entered`.
    pub fn process(&mut self, event: Event, now: u64) -> (r: Result<Vec<Message>, String>)
        requires
            old(self).context.wf(),
        ensures
            final(self).context.wf(),
            exists|vm: ManagerView|
                #[trigger] handled(old(self).context@, vm, event, now, r) && entered(
                    vm,
                    final(self).context@,
                    now,
                ),
    {
        let result = match event {
            Event::Abort => self.dispatch_shutdown(),
            Event::CycleStart(g) => self.dispatch_cycle(g, now),
            Event::ClientMsg(msg) => self.dispatch_message(&msg, now),
        };
        let ghost vm = self.context@;
        self.change_state(now);
        assert(handled(old(self).context@, vm, event, now, result));
        result
    }

    /// Shutdown, by state.
    fn dispatch_shutdown(&mut self) -> (r: Result<Vec<Message>, String>)
        requires
            old(self).context.wf(),
        ensures
            final(self).context.wf(),
            handled(old(self).context@, final(self).context@, Event::Abort, 0, r),
    {
        match self.context.state {
            ManagerState::Starting => ManagerProcStarting.on_shutdown(&mut self.context),
            ManagerState::Running => ManagerProcRunning.on_shutdown(&mut self.context),
            ManagerState::Exiting => ManagerProcExiting.on_shutdown(&mut self.context),
            ManagerState::Exited => ManagerProcExited.on_shutdown(&mut self.context),
        }
    }

    /// A cycle, by state.
    fn dispatch_cycle(&mut self, g: u64, now: u64) -> (r: Result<Vec<Message>, String>)
        requires
            old(self).context.wf(),
        ensures
            final(self).context.wf(),
            handled(old(self).context@, final(self).context@, Event::CycleStart(g), now, r),
    {
        match self.context.state {
            ManagerState::Starting => ManagerProcStarting.on_cycle_start(&mut self.context, g),
            ManagerState::Running => ManagerProcRunning.on_cycle_start(&mut self.context, g, now),
            ManagerState::Exiting => ManagerProcExiting.on_cycle_start(&mut self.context, g),
            ManagerState::Exited => ManagerProcExited.on_cycle_start(&mut self.context, g),
        }
    }

    /// A client request, by type and state.
    fn dispatch_message(&mut self, msg: &Message, now: u64) -> (r: Result<Vec<Message>, String>)
        requires
            old(self).context.wf(),
        ensures
            final(self).context.wf(),
            !has_cid(old(self).context.sched.entries@, msg.cid) ==> refused(
                old(self).context@,
                final(self).context@,
                r,
                unknown_client_msg(msg@),
            ),
            has_cid(old(self).context.sched.entries@, msg.cid) ==> request_handled(
                with_last_mid(old(self).context@, msg.cid, msg.mid),
                final(self).context@,
                msg@,
                now,
                r,
            ),
    {
        let i = match self.context.client_pos(msg.cid) {
            Some(i) => i,
            None => {
                let mut e = String::from_str("unknown client message type=");
                e.append(msg.mtype.as_str());
                e.append(", CID:");
                crate::text::push_padded3(&mut e, msg.cid as u64);
                return Err(e);
            },
        };
        let ghost v0 = self.context@;
        proof {
            let c1 = ClientInfo { last_mid: msg.mid, ..self.context.clients@[i as int] };
            lemma_active_count_update(self.context.clients@, i as int, c1);
        }
        self.context.clients[i].last_mid = msg.mid;
        assert(self.context@ == with_last_mid(v0, msg.cid, msg.mid)) by {
            assert(self.context.clients@ =~= v0.clients.update(
                i as int,
                ClientInfo { last_mid: msg.mid, ..v0.clients[i as int] },
            ));
        }
        let ctx = &mut self.context;
        match msg.mtype {
            MessageType::Join => match ctx.state {
                ManagerState::Starting => ManagerProcStarting.on_client_join(ctx, msg),
                ManagerState::Running => ManagerProcRunning.on_client_join(ctx, msg),
                ManagerState::Exiting => ManagerProcExiting.on_client_join(ctx, msg),
                ManagerState::Exited => ManagerProcExited.on_client_join(ctx, msg),
            },
            MessageType::Ready => match ctx.state {
                ManagerState::Starting => ManagerProcStarting.on_client_ready(ctx, msg),
                ManagerState::Running => ManagerProcRunning.on_client_ready(ctx, msg, now),
                ManagerState::Exiting => ManagerProcExiting.on_client_ready(ctx, msg),
                ManagerState::Exited => ManagerProcExited.on_client_ready(ctx, msg),
            },
            MessageType::Done => match ctx.state {
                ManagerState::Starting => ManagerProcStarting.on_client_done(ctx, msg),
                ManagerState::Running => ManagerProcRunning.on_client_done(ctx, msg, now),
                ManagerState::Exiting => ManagerProcExiting.on_client_done(ctx, msg),
                ManagerState::Exited => ManagerProcExited.on_client_done(ctx, msg),
            },
            MessageType::Exit => match ctx.state {
                ManagerState::Starting => ManagerProcStarting.on_client_exit(ctx, msg),
                ManagerState::Running => ManagerProcRunning.on_client_exit(ctx, msg),
                ManagerState::Exiting => ManagerProcExiting.on_client_exit(ctx, msg),
                ManagerState::Exited => ManagerProcExited.on_client_exit(ctx, msg),
            },
            _ => {
                let mut e = String::from_str("not a client message type=");
                e.append(msg.mtype.as_str());
                e.append(", CID:");
                crate::text::push_padded3(&mut e, msg.cid as u64);
                Err(e)
            },
        }
    }

    /// Enters the state that the server changed to, if it changed: see
    /// `entered`.
    fn change_state(&mut self, now: u64)
        requires
            old(self).context.wf(),
        ensures
            final(self).context.wf(),
            entered(old(self).context@, final(self).context@, now),
    {
        if self.context.state_changed {
            self.context.state_changed = false;
            match self.context.state {
                ManagerState::Starting => ManagerProcStarting.enter_state(&mut self.context),
                ManagerState::Running => ManagerProcRunning.enter_state(&mut self.context),
                ManagerState::Exiting => ManagerProcExiting.enter_state(&mut self.context, now),
                ManagerState::Exited => ManagerProcExited.enter_state(&mut self.context),
            }
        }
    }
}


/// The order of the server states.
pub open spec fn state_rank(s: ManagerState) -> int {
    match s {
        ManagerState::Starting => 0,
        ManagerState::Running => 1,
        ManagerState::Exiting => 2,
        ManagerState::Exited => 3,
    }
}

/// The server's state only moves forward, from `Starting` through
/// `Running` and `Exiting` to `Exited`: no event brings it back.
pub proof fn lemma_state_forward(
    v0: ManagerView,
    vm: ManagerView,
    v1: ManagerView,
    ev: Event,
    now: u64,
    r: Result<Vec<Message>, String>,
)
    requires
        handled(v0, vm, ev, now, r),
        entered(vm, v1, now),
    ensures
        state_rank(v0.state) <= state_rank(v1.state),
{
}


// ---------------------------------------------------------------------------
// Statistics report.

/// The decimal digits of `n`.
pub open spec fn dec(n: int) -> Seq<char> {
    dec_digits(n as nat)
}

/// The report line of the server at `now`.
pub open spec fn server_stats_line(v: ManagerView, now: u64) -> Seq<char> {
    let t = elapsed_times(v.stats, now);
    "[STATS] Server Elapsed: "@ + dec(t.0 as int) + "ms (S:"@ + dec(t.1 as int) + ", R:"@ + dec(
        t.2 as int,
    ) + ", E:"@ + dec(t.3 as int) + "), Cycles: "@ + dec(
        if v.running_cycle > 0 {
            v.running_cycle
        } else {
            0
        },
    )
}

/// The average, smallest and largest of the times of `count` runs, all 0
/// when there is none.
pub open spec fn time_summary(count: u32, sum: u64, min: u32, max: u32) -> (int, int, int) {
    if count > 0 {
        (sum as int / count as int, min as int, max as int)
    } else {
        (0, 0, 0)
    }
}

/// The report line of the client `cid` with the statistics `s`.
pub open spec fn client_stats_line(cid: u16, s: ClientStats) -> Seq<char> {
    let t = time_summary(s.success_count, s.time_sum, s.time_min, s.time_max);
    let o = time_summary(s.overrun_count, s.overrun_time_sum, s.overrun_time_min, s.overrun_time_max);
    "[STATS] CID:"@ + pad3(cid as nat) + ", Trg: "@ + dec(s.trigger_count as int) + " (Ok: "@ + dec(
        s.success_count as int,
    ) + ", Ov: "@ + dec(s.overrun_count as int) + ", Skip: "@ + dec(s.skip_count as int)
        + ", Late: "@ + dec(s.late_count as int) + "), Time[ms]: Avg "@ + dec(t.0) + " ("@ + dec(t.1)
        + "-"@ + dec(t.2) + "), OvTime[ms]: Avg "@ + dec(o.0) + " ("@ + dec(o.1) + "-"@ + dec(o.2)
        + ")"@
}

/// The report lines of the clients with IDs below `n`, in increasing ID
/// order.
pub open spec fn client_stats_lines(v: ManagerView, n: nat) -> Seq<Seq<char>>
    decreases n,
{
    if n == 0 {
        Seq::empty()
    } else {
        let c = (n - 1) as u16;
        client_stats_lines(v, (n - 1) as nat) + if has_cid(v.sched.entries@, c) {
            seq![client_stats_line(c, v.clients[entry_pos(v.sched.entries@, c)].stats)]
        } else {
            Seq::empty()
        }
    }
}

/// Appends the decimal digits of `n`.
fn push_dec(out: &mut String, n: u64)
    ensures
        final(out)@ == old(out)@ + dec(n as int),
{
    push_decimal(out, n);
}

/// Appends a literal.
fn push_str(out: &mut String, s: &str)
    ensures
        final(out)@ == old(out)@ + s@,
{
    out.append(s);
}

/// The average, smallest and largest of the times of `count` runs.
fn time_summary_exec(count: u32, sum: u64, min: u32, max: u32) -> (r: (u64, u64, u64))
    ensures
        (r.0 as int, r.1 as int, r.2 as int) == time_summary(count, sum, min, max),
{
    if count > 0 {
        (sum / (count as u64), min as u64, max as u64)
    } else {
        (0, 0, 0)
    }
}

/// The report line of the client `cid`.
fn client_line(cid: u16, s: &ClientStats) -> (r: String)
    ensures
        r@ == client_stats_line(cid, *s),
{
    let t = time_summary_exec(s.success_count, s.time_sum, s.time_min, s.time_max);
    let o = time_summary_exec(
        s.overrun_count,
        s.overrun_time_sum,
        s.overrun_time_min,
        s.overrun_time_max,
    );
    let mut r = String::new();
    push_str(&mut r, "[STATS] CID:");
    crate::text::push_padded3(&mut r, cid as u64);
    push_str(&mut r, ", Trg: ");
    push_dec(&mut r, s.trigger_count as u64);
    push_str(&mut r, " (Ok: ");
    push_dec(&mut r, s.success_count as u64);
    push_str(&mut r, ", Ov: ");
    push_dec(&mut r, s.overrun_count as u64);
    push_str(&mut r, ", Skip: ");
    push_dec(&mut r, s.skip_count as u64);
    push_str(&mut r, ", Late: ");
    push_dec(&mut r, s.late_count as u64);
    push_str(&mut r, "), Time[ms]: Avg ");
    push_dec(&mut r, t.0);
    push_str(&mut r, " (");
    push_dec(&mut r, t.1);
    push_str(&mut r, "-");
    push_dec(&mut r, t.2);
    push_str(&mut r, "), OvTime[ms]: Avg ");
    push_dec(&mut r, o.0);
    push_str(&mut r, " (");
    push_dec(&mut r, o.1);
    push_str(&mut r, "-");
    push_dec(&mut r, o.2);
    push_str(&mut r, ")");
    assert(r@ =~= client_stats_line(cid, *s));
    r
}

impl ManagerContext {
    /// The statistics report at `now`, when reports are on: the server's
    /// elapsed times and cycle count, then one line per client in
    /// increasing ID order with its counts and run times.
    pub fn dump_stats(&self, now: u64) -> (lines: Vec<String>)
        requires
            self.wf(),
        ensures
            self.stats.interval_cycle == 0 ==> lines@.len() == 0,
            self.stats.interval_cycle != 0 ==> crate::text::strings_view(lines@) == seq![
                server_stats_line(self@, now),
            ] + client_stats_lines(self@, 0x1_0000),
    {
        let mut lines: Vec<String> = Vec::new();
        if self.stats.interval_cycle == 0 {
            return lines;
        }
        let (total, starting, running, exiting) = self.calc_elapsed_times(now);
        let mut head = String::new();
        push_str(&mut head, "[STATS] Server Elapsed: ");
        push_dec(&mut head, total);
        push_str(&mut head, "ms (S:");
        push_dec(&mut head, starting);
        push_str(&mut head, ", R:");
        push_dec(&mut head, running);
        push_str(&mut head, ", E:");
        push_dec(&mut head, exiting);
        push_str(&mut head, "), Cycles: ");
        push_dec(&mut head, if self.running_cycle > 0 {
            self.running_cycle as u64
        } else {
            0
        });
        assert(head@ =~= server_stats_line(self@, now));
        lines.push(head);
        let mut c: u32 = 0;
        while c < 0x1_0000
            invariant
                c <= 0x1_0000,
                self.wf(),
                crate::text::strings_view(lines@) == seq![server_stats_line(self@, now)]
                    + client_stats_lines(self@, c as nat),
            decreases 0x1_0000 - c,
        {
            let id = c as u16;
            let ghost before = crate::text::strings_view(lines@);
            match self.client_pos(id) {
                Some(i) => {
                    let line = client_line(id, &self.clients[i].stats);
                    lines.push(line);
                    assert(crate::text::strings_view(lines@) =~= before.push(line@));
                },
                None => {
                    assert(crate::text::strings_view(lines@) =~= before);
                },
            }
            c += 1;
        }
        lines
    }
}


/// What a run's end does to the client's statistics: a run that ends after
/// an overrun (`Overrun -> Late`) counts as an overrun and its time goes to
/// the overrun times; one that ends normally (`Running -> Idle`) counts as a
/// success and its time goes to the run times; each counts one trigger and
/// leaves the other counts and times alone.
pub proof fn lemma_run_end_stats(c: ClientInfo, ch: ProcessStateChange, now: u64)
    requires
        (ch.before == ProcessState::Overrun && ch.after == ProcessState::Late) || (ch.before
            == ProcessState::Running && ch.after == ProcessState::Idle),
    ensures
        ({
            let s = c.stats;
            let s1 = stats_step(c, ch, now).stats;
            let el: u32 = match c.running_start_at {
                Some(t) => (if now >= t {
                    now - t
                } else {
                    0
                }) as u32,
                None => 0,
            };
            let overrun = ch.before == ProcessState::Overrun;
            &&& s1.trigger_count == s.trigger_count.wrapping_add(1)
            &&& s1.skip_count == s.skip_count
            &&& s1.late_count == s.late_count
            &&& stats_step(c, ch, now).running_start_at is None
            &&& overrun ==> {
                &&& s1.overrun_count == s.overrun_count.wrapping_add(1)
                &&& s1.success_count == s.success_count
                &&& s1.time_sum == s.time_sum
                &&& s1.time_min == s.time_min
                &&& s1.time_max == s.time_max
                &&& s1.overrun_time_sum == s.overrun_time_sum.wrapping_add(el as u64)
                &&& c.running_start_at is Some ==> s1.overrun_time_max >= el && s1.overrun_time_min <= el
            }
            &&& !overrun ==> {
                &&& s1.success_count == s.success_count.wrapping_add(1)
                &&& s1.overrun_count == s.overrun_count
                &&& s1.overrun_time_sum == s.overrun_time_sum
                &&& s1.overrun_time_min == s.overrun_time_min
                &&& s1.overrun_time_max == s.overrun_time_max
                &&& s1.time_sum == s.time_sum.wrapping_add(el as u64)
                &&& c.running_start_at is Some ==> s1.time_max >= el && s1.time_min <= el
            }
        }),
{
}

} // verus!
