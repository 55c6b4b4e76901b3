//! The data that the visualizer exchanges with its front end: planned and
//! actual executions, and concurrency metrics.
use vstd::prelude::*;

use std::collections::HashMap;

use crate::config::SchedulerConfig;

verus! {

/// Execution outcome, planned or actual.
#[derive(Debug, Clone, Copy, PartialEq, Eq, Structural)]
pub enum ExecutionStatus {
    Normal,
    Overrun,
    Skip,
}

/// Point-in-time events recorded during execution.
#[derive(Debug, Clone, Copy, PartialEq, Eq, Structural)]
pub enum InstantEventType {
    Ready,
    Overrun,
    Skip,
    Late,
    Error,
    Exit,
    Retransmit,
}

/// One planned run of a process.
#[derive(Debug, Clone)]
pub struct PlannedExecution {
    pub instance_id: u32,
    pub cid: u16,
    /// The cycle in which the run starts.
    pub cycle: i64,
    /// When the run starts, from the start of its cycle.
    pub cycle_offset_ms: u32,
    pub start_ms: u32,
    pub duration_ms: u32,
    pub depends_instance_ids: Vec<u32>,
    pub status: ExecutionStatus,
}

/// The number of planned runs in progress from `time_ms` on.
#[derive(Debug, Clone)]
pub struct PlannedMetricPoint {
    pub time_ms: u32,
    pub running_count: u32,
}

/// The outcome of a plan simulation.
#[derive(Debug, Clone)]
pub struct SimulationResult {
    pub executions: Vec<PlannedExecution>,
    pub metrics: Vec<PlannedMetricPoint>,
    pub config_errors: HashMap<u16, Vec<String>>,
}

impl SimulationResult {
    pub fn new(
        executions: Vec<PlannedExecution>,
        metrics: Vec<PlannedMetricPoint>,
        config_errors: HashMap<u16, Vec<String>>,
    ) -> (r: Self)
        ensures
            r.executions == executions,
            r.metrics == metrics,
            r.config_errors == config_errors,
    {
        SimulationResult { executions, metrics, config_errors }
    }

    /// A result with no executions and no errors.
    pub fn empty() -> (r: Self)
        ensures
            r.executions@.len() == 0,
            r.metrics@.len() == 0,
            r.config_errors@ == Map::<u16, Vec<String>>::empty(),
    {
        Self::new(Vec::new(), Vec::new(), HashMap::new())
    }

    /// A result that reports configuration errors.
    pub fn error(config_errors: HashMap<u16, Vec<String>>) -> (r: Self)
        ensures
            r.executions@.len() == 0,
            r.metrics@.len() == 0,
            r.config_errors == config_errors,
    {
        Self::new(Vec::new(), Vec::new(), config_errors)
    }
}

/// A point-in-time event of an actual run.
#[derive(Debug, Clone, Copy)]
pub struct ActualInstantEvent {
    pub log_line_no: u64,
    pub instance_id: u64,
    pub time_ms: u64,
    pub event_type: InstantEventType,
}

/// One actual run of a process.
#[derive(Debug, Clone, Copy)]
pub struct ActualExecution {
    pub log_line_no_start: u64,
    pub log_line_no_end: Option<u64>,
    pub instance_id: u64,
    pub cycle: u64,
    pub start_ms: u64,
    pub duration_ms: u32,
    pub status: ExecutionStatus,
}

/// The number of actual runs in progress from `time_ms` on.
#[derive(Debug, Clone, Copy)]
pub struct ActualMetricPoint {
    pub time_ms: u64,
    pub running_count: u32,
}


/// A cycle start seen in the log, with its jitter: how much later than
/// one period after the previous start it came, in whole milliseconds.
#[derive(Debug, Clone, Copy)]
pub struct ActualCycle {
    pub cycle: u64,
    pub start_ms: u64,
    pub start_jitter_ms: i64,
}

/// What a parsed log holds in summary.
#[derive(Debug, Clone)]
pub struct LogSummary {
    pub config: SchedulerConfig,
    pub max_concurrency: u32,
    pub total_duration_ms: u64,
    pub total_cycles: u64,
    pub min_start_jitter_ms: i64,
    pub max_start_jitter_ms: i64,
    pub is_truncated: bool,
}

/// The part of a parsed log that falls in a time range.
#[derive(Debug, Clone)]
pub struct LogRangeData {
    pub actual_executions_by_cid: Vec<(u16, Vec<ActualExecution>)>,
    pub actual_instant_events_by_cid: Vec<(u16, Vec<ActualInstantEvent>)>,
    pub actual_metrics: Vec<ActualMetricPoint>,
    pub actual_cycles: Vec<ActualCycle>,
    pub is_truncated: bool,
}

} // verus!
