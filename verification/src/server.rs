//! States and statistics of the scheduler server.
use vstd::prelude::*;

use crate::config::{client_errors, depend_errors, ClientConfig, SchedulerConfig, ServerConfig};

verus! {

/// The state of the server.
#[derive(Debug, Clone, Copy, PartialEq, Eq, Hash, Structural)]
pub enum ManagerState {
    /// Waiting for every client to be ready.
    Starting,
    /// Running cycles.
    Running,
    /// Waiting for every client to exit.
    Exiting,
    /// Inactive.
    Exited,
}

/// The connection state of a client.
#[derive(Debug, Clone, Copy, PartialEq, Eq, Structural)]
pub enum ClientState {
    /// Initial or final state: the client will send `JOIN`.
    Disconnected,
    /// Joined but not ready: the client will send `READY`.
    Sync,
    /// Ready or running, under the scheduler's control.
    Active,
    /// Told to stop: the client will send `EXIT`.
    Exiting,
}

/// Execution statistics of a client.
#[derive(Debug, Clone)]
pub struct ClientStats {
    pub trigger_count: u32,
    pub success_count: u32,
    pub skip_count: u32,
    pub late_count: u32,
    pub overrun_count: u32,
    /// Shortest run, in milliseconds.
    pub time_min: u32,
    /// Longest run, in milliseconds.
    pub time_max: u32,
    /// Total run time, in milliseconds.
    pub time_sum: u64,
    pub overrun_time_min: u32,
    pub overrun_time_max: u32,
    pub overrun_time_sum: u64,
}

impl Default for ClientStats {
    fn default() -> (s: Self)
        ensures
            s.trigger_count == 0,
            s.success_count == 0,
            s.skip_count == 0,
            s.late_count == 0,
            s.overrun_count == 0,
            s.time_min == u32::MAX,
            s.time_max == 0,
            s.time_sum == 0,
            s.overrun_time_min == u32::MAX,
            s.overrun_time_max == 0,
            s.overrun_time_sum == 0,
    {
        ClientStats {
            trigger_count: 0,
            success_count: 0,
            skip_count: 0,
            late_count: 0,
            overrun_count: 0,
            time_min: u32::MAX,
            time_max: 0,
            time_sum: 0,
            overrun_time_min: u32::MAX,
            overrun_time_max: 0,
            overrun_time_sum: 0,
        }
    }
}

/// The cycle trigger that fires every `cycle_ms` milliseconds.
pub struct IntervalTrigger {
    cycle_ms: u32,
}

impl IntervalTrigger {
    /// The cycle time, in milliseconds.
    pub closed spec fn period(&self) -> u32 {
        self.cycle_ms
    }

    pub fn new(cycle_ms: u32) -> (t: Self)
        ensures
            t.period() == cycle_ms,
    {
        IntervalTrigger { cycle_ms }
    }

    /// The cycle time, in milliseconds.
    pub fn cycle_ms(&self) -> (r: u32)
        ensures
            r == self.period(),
    {
        self.cycle_ms
    }
}

/// The clients of the sample system: ID, cycle, cycle offset and
/// dependencies.
pub open spec fn sample_clients() -> Seq<(u16, u8, u8, Seq<u16>)> {
    seq![
        (0u16, 2u8, 0u8, Seq::<u16>::empty()),
        (1u16, 2u8, 0u8, Seq::<u16>::empty()),
        (10u16, 2u8, 0u8, seq![0u16]),
        (11u16, 2u8, 0u8, seq![0u16, 1u16]),
        (20u16, 2u8, 1u8, seq![10u16, 11u16]),
        (2u16, 2u8, 1u8, Seq::<u16>::empty()),
    ]
}

/// A valid client configuration without display name or expected duration.
fn sample_client(cid: u16, cycle: u8, cycle_offset: u8, depends: Vec<u16>) -> (c: ClientConfig)
    requires
        client_errors(cid, cycle, cycle_offset, depends@).len() == 0,
    ensures
        c.client_id == cid,
        c.display_name@ == Seq::<char>::empty(),
        c.cycle == cycle,
        c.cycle_offset == cycle_offset,
        c.depends@ == depends@,
        c.expected_duration_ms == 0,
{
    match ClientConfig::new(cid, cycle, cycle_offset, depends, 0) {
        Ok(c) => c,
        Err(_) => {
            proof {
                assert(false);
            }
            ClientConfig {
                client_id: cid,
                display_name: String::new(),
                cycle,
                cycle_offset,
                depends: Vec::new(),
                expected_duration_ms: 0,
            }
        },
    }
}

/// The configuration of a sample system: six clients on a 50 ms cycle,
/// served on port 7878 without statistics.
pub fn load_sample_config() -> (c: SchedulerConfig)
    ensures
        c.server_config == (ServerConfig { port: 7878, cycle_time_ms: 50, stats_interval_cycle: 0 }),
        c.client_configs@.len() == sample_clients().len(),
        forall|i: int|
            0 <= i < sample_clients().len() ==> {
                let cc = #[trigger] c.client_configs@[i];
                &&& cc.client_id == sample_clients()[i].0
                &&& cc.cycle == sample_clients()[i].1
                &&& cc.cycle_offset == sample_clients()[i].2
                &&& cc.depends@ == sample_clients()[i].3
                &&& cc.display_name@ == Seq::<char>::empty()
                &&& cc.expected_duration_ms == 0
            },
{
    let server_config = ServerConfig { port: 7878, cycle_time_ms: 50, stats_interval_cycle: 0 };
    let mut client_configs: Vec<ClientConfig> = Vec::new();
    proof {
        reveal_with_fuel(depend_errors, 3);
        assert(seq![0u16].drop_last() =~= Seq::<u16>::empty());
        assert(seq![0u16, 1u16].drop_last() =~= seq![0u16]);
        assert(seq![10u16, 11u16].drop_last() =~= seq![10u16]);
        assert(seq![10u16].drop_last() =~= Seq::<u16>::empty());
        assert(!seq![0u16].contains(1u16)) by {
            assert(seq![0u16][0] == 0u16);
        }
        assert(!seq![10u16].contains(11u16)) by {
            assert(seq![10u16][0] == 10u16);
        }
    }
    client_configs.push(sample_client(0, 2, 0, vec![]));
    client_configs.push(sample_client(1, 2, 0, vec![]));
    client_configs.push(sample_client(10, 2, 0, vec![0]));
    client_configs.push(sample_client(11, 2, 0, vec![0, 1]));
    client_configs.push(sample_client(20, 2, 1, vec![10, 11]));
    client_configs.push(sample_client(2, 2, 1, vec![]));
    SchedulerConfig { server_config, client_configs }
}

/// The server handler while it waits for every client to be ready.
pub struct ManagerProcStarting;

/// The server handler while it runs cycles.
pub struct ManagerProcRunning;

/// The server handler while it waits for every client to exit.
pub struct ManagerProcExiting;

/// The server handler once it has stopped.
pub struct ManagerProcExited;

} // verus!
