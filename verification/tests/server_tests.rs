use ritsu::client::{Config, TIMEOUT_MS_READY_STARTUP_DEFAULT};
use ritsu::server::{ClientStats, IntervalTrigger};
use ritsu::vis::SimulationResult;
use std::collections::HashMap;

#[test]
fn test_client_stats_default() {
    let stats = ClientStats::default();
    assert_eq!(stats.trigger_count, 0);
    assert_eq!(stats.success_count, 0);
    assert_eq!(stats.skip_count, 0);
    assert_eq!(stats.late_count, 0);
    assert_eq!(stats.overrun_count, 0);
    assert_eq!(stats.time_min, u32::MAX);
    assert_eq!(stats.time_max, 0);
    assert_eq!(stats.time_sum, 0);
    assert_eq!(stats.overrun_time_min, u32::MAX);
    assert_eq!(stats.overrun_time_max, 0);
    assert_eq!(stats.overrun_time_sum, 0);
}

#[test]
fn client_retry_config() {
    let c = Config::new(33, 4500);
    assert_eq!(c.retry_time_msec_join, 20);
    assert_eq!(c.retry_count_join, 3);
    assert_eq!(c.retry_time_msec_ready_startup, TIMEOUT_MS_READY_STARTUP_DEFAULT);
    assert_eq!(c.retry_count_ready_startup, 4);
    assert_eq!(c.retry_time_msec_ready, 33);
    assert_eq!(c.retry_count_ready, 3);
    assert_eq!(c.retry_time_msec_done, 50);
    assert_eq!(c.retry_count_done, 3);
    assert_eq!(c.retry_time_msec_exit, 20);
    assert_eq!(c.retry_count_exit, 3);
}

#[test]
fn interval_trigger_keeps_cycle_time() {
    assert_eq!(IntervalTrigger::new(50).cycle_ms(), 50);
}

#[test]
fn simulation_result_constructors() {
    let empty = SimulationResult::empty();
    assert!(empty.executions.is_empty());
    assert!(empty.metrics.is_empty());
    assert!(empty.config_errors.is_empty());
    let mut errs: HashMap<u16, Vec<String>> = HashMap::new();
    errs.insert(3, vec!["bad".to_string()]);
    let r = SimulationResult::error(errs.clone());
    assert!(r.executions.is_empty());
    assert_eq!(r.config_errors, errs);
}

#[test]
fn sample_config_has_six_valid_clients() {
    let c = ritsu::server::load_sample_config();
    assert_eq!(c.server_config.port, 7878);
    assert_eq!(c.server_config.cycle_time_ms, 50);
    assert_eq!(c.server_config.stats_interval_cycle, 0);
    let ids: Vec<u16> = c.client_configs.iter().map(|cc| cc.client_id).collect();
    assert_eq!(ids, vec![0, 1, 10, 11, 20, 2]);
    assert_eq!(c.client_configs[3].depends, vec![0, 1]);
    assert_eq!(c.client_configs[4].cycle_offset, 1);
    assert!(c.validate().is_ok());
}
