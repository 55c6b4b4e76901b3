use ritsu::config::{ClientConfig, SchedulerConfig, ServerConfig};
use ritsu::log_parser::{LogParserContext, ParseStep};
use ritsu::log_store::{LogStore, MAX_RANGE_CYCLES, MAX_RANGE_EXECUTIONS, MAX_RANGE_INSTANT_EVENTS, MAX_RANGE_METRICS};
use ritsu::vis::{
    ActualCycle, ActualExecution, ActualInstantEvent, ActualMetricPoint, ExecutionStatus,
    InstantEventType, LogSummary,
};
use std::collections::HashMap;

/// Reads the embedded configuration text as the server's TOML file.
fn config_from_toml(text: &str) -> Result<SchedulerConfig, String> {
    let table: toml::Table =
        toml::from_str(text).map_err(|e| format!("Failed to parse embedded config: {}", e))?;
    let sc = table
        .get("server_config")
        .and_then(|v| v.as_table())
        .ok_or("missing server_config".to_string())?;
    let int = |t: &toml::Table, k: &str| t.get(k).and_then(|v| v.as_integer()).unwrap_or(0);
    let server_config = ServerConfig {
        port: int(sc, "port") as u16,
        cycle_time_ms: int(sc, "cycle_time_ms") as u32,
        stats_interval_cycle: int(sc, "stats_interval_cycle") as u32,
    };
    let mut client_configs = Vec::new();
    if let Some(list) = table.get("client_configs").and_then(|v| v.as_array()) {
        for c in list {
            let t = c.as_table().ok_or("bad client".to_string())?;
            let depends = t
                .get("depends")
                .and_then(|v| v.as_array())
                .map(|a| a.iter().map(|d| d.as_integer().unwrap_or(0) as u16).collect())
                .unwrap_or_default();
            client_configs.push(ClientConfig {
                client_id: int(t, "client_id") as u16,
                display_name: t
                    .get("display_name")
                    .and_then(|v| v.as_str())
                    .unwrap_or("")
                    .to_string(),
                cycle: int(t, "cycle") as u8,
                cycle_offset: int(t, "cycle_offset") as u8,
                depends,
                expected_duration_ms: int(t, "expected_duration_ms") as u32,
            });
        }
    }
    Ok(SchedulerConfig {
        server_config,
        client_configs,
    })
}

fn set_config(ctx: &mut LogParserContext) -> Result<(), String> {
    let text = ctx.config_text()?;
    let cfg = config_from_toml(&text)?;
    ctx.set_config(cfg)
        .map_err(|e| format!("Config validation failed: {:?}", e))
}

/// Reads a whole log held in a string.
fn parse_log_str(content: &str) -> Result<LogStore, String> {
    let mut ctx = LogParserContext::new();
    for line in content.lines() {
        loop {
            match ctx.handle_line(line) {
                ParseStep::NeedConfig => set_config(&mut ctx)?,
                ParseStep::Continue => break,
                ParseStep::Stop => return finish(ctx),
            }
        }
    }
    finish(ctx)
}

fn finish(mut ctx: LogParserContext) -> Result<LogStore, String> {
    if ctx.parsed_config.is_none() {
        set_config(&mut ctx)?;
    }
    Ok(ctx.finish())
}

const SAMPLE_LOG_RETRANSMIT: &str = r#"2026/09/06 00:00:00.000000 [INFO ] main - <CONFIG> [server_config]
2026/09/06 00:00:00.001000 [INFO ] main - <CONFIG> port = 7878
2026/09/06 00:00:00.002000 [INFO ] main - <CONFIG> cycle_time_ms = 50
2026/09/06 00:00:00.003000 [INFO ] main - <CONFIG> stats_interval_cycle = 0
2026/09/06 00:00:00.004000 [INFO ] main - <CONFIG> [[client_configs]]
2026/09/06 00:00:00.005000 [INFO ] main - <CONFIG> client_id = 1
2026/09/06 00:00:00.006000 [INFO ] main - <CONFIG> display_name = "Camera"
2026/09/06 00:00:00.007000 [INFO ] main - <CONFIG> cycle = 1
2026/09/06 00:00:00.008000 [INFO ] main - <CONFIG> cycle_offset = 0
2026/09/06 00:00:00.009000 [INFO ] main - <CONFIG> depends = []
2026/09/06 00:00:00.010000 [INFO ] main - <CONFIG> expected_duration_ms = 10
2026/09/06 00:00:00.050000 [DEBUG] process_starting - <STAT> CYC:-00000000001 CID:001 MID:1 JOIN
2026/09/06 00:00:00.051000 [WARN ] process_starting - <STAT> CYC:-00000000001 CID:001 MID:1 JOIN (Retransmit)
2026/09/06 00:00:00.100000 [DEBUG] process_running - <STAT> CYC:000000000000 START
2026/09/06 00:00:00.101000 [DEBUG] process_running - <STAT> CYC:000000000000 CID:001 MID:2 Ready -> Running (Cycle)
2026/09/06 00:00:00.102000 [WARN ] process_running - <STAT> CYC:000000000000 CID:001 MID:2 Running -> Running (Retransmit)
2026/09/06 00:00:00.111000 [DEBUG] process_running - <STAT> CYC:000000000000 CID:001 MID:2 Running -> Idle
"#;

/// Validates suppression of duplicate executions upon UDP retransmission.
#[test]
fn test_parse_retransmission_guard() {
    let store =
        parse_log_str(SAMPLE_LOG_RETRANSMIT).expect("Failed to parse retransmit synthetic log");

    let events = store
        .instant_events_by_cid
        .get(&1)
        .expect("Events for CID 1 not found");

    // Startup JOIN and JOIN (Retransmit) prior to Cycle 0 START must be ignored.
    // In-cycle Retransmit event must be captured.
    assert_eq!(events.len(), 1);
    assert_eq!(events[0].event_type, InstantEventType::Retransmit);
    assert_eq!(events[0].time_ms, 2);

    // Retransmit log must not generate duplicate execution bars.
    let execs = store
        .executions_by_cid
        .get(&1)
        .expect("Executions for CID 1 not found");
    assert_eq!(execs.len(), 1);
    assert_eq!(execs[0].status, ExecutionStatus::Normal);
}

/// Validates error reporting when configuration header is missing.
#[test]
fn test_parse_error_missing_config() {
    let log_without_config =
        "2026/09/06 00:01:24.752311 [DEBUG] process_running - <STAT> CYC:000000000000 START\n";
    let result = parse_log_str(log_without_config);
    assert!(result.is_err());
    assert!(result.unwrap_err().contains("No <CONFIG> lines found"));
}

#[test]
fn parse_run_fields_and_summary() {
    let store = parse_log_str(SAMPLE_LOG_RETRANSMIT).unwrap();
    let execs = store.executions_by_cid.get(&1).unwrap();
    assert_eq!(execs[0].start_ms, 1);
    assert_eq!(execs[0].duration_ms, 10);
    assert_eq!(execs[0].cycle, 0);
    assert_eq!(execs[0].instance_id, 1);
    assert_eq!(execs[0].log_line_no_start, 15);
    assert_eq!(execs[0].log_line_no_end, Some(17));
    assert_eq!(store.cycles.len(), 1);
    assert_eq!(store.cycles[0].start_ms, 0);
    assert_eq!(store.cycles[0].start_jitter_ms, 0);
    assert_eq!(store.summary.total_cycles, 1);
    assert_eq!(store.summary.max_concurrency, 1);
    // The last cycle ends one period after its start.
    assert_eq!(store.summary.total_duration_ms, 50);
    assert_eq!(store.metrics.len(), 2);
    assert_eq!(store.metrics[0].time_ms, 1);
    assert_eq!(store.metrics[0].running_count, 1);
    assert_eq!(store.metrics[1].time_ms, 11);
    assert_eq!(store.metrics[1].running_count, 0);
}

#[test]
fn parse_open_run_is_closed_at_the_end() {
    // The log ends while the run is in progress: it is closed at the last
    // time seen, with no end line.
    let lines: Vec<&str> = SAMPLE_LOG_RETRANSMIT.lines().take(15).collect();
    let store = parse_log_str(&lines.join("\n")).unwrap();
    let execs = store.executions_by_cid.get(&1).unwrap();
    assert_eq!(execs.len(), 1);
    assert_eq!(execs[0].log_line_no_end, None);
    assert_eq!(execs[0].status, ExecutionStatus::Normal);
}

#[test]
fn parse_cycle_jitter() {
    let mut text = String::new();
    for l in SAMPLE_LOG_RETRANSMIT.lines().take(11) {
        text.push_str(l);
        text.push('\n');
    }
    text.push_str("2026/09/06 00:00:01.000000 [DEBUG] process_running - <STAT> CYC:000000000000 START\n");
    text.push_str("2026/09/06 00:00:01.053000 [DEBUG] process_running - <STAT> CYC:000000000001 START\n");
    text.push_str("2026/09/06 00:00:01.098000 [DEBUG] process_running - <STAT> CYC:000000000002 START\n");
    let store = parse_log_str(&text).unwrap();
    assert_eq!(store.cycles.len(), 3);
    assert_eq!(store.cycles[1].cycle, 1);
    assert_eq!(store.cycles[1].start_ms, 53);
    assert_eq!(store.cycles[1].start_jitter_ms, 3);
    assert_eq!(store.cycles[2].start_jitter_ms, -5);
    assert_eq!(store.summary.min_start_jitter_ms, -5);
    assert_eq!(store.summary.max_start_jitter_ms, 3);
    // Configured clients get empty lists.
    assert!(store.executions_by_cid.get(&1).unwrap().is_empty());
}

#[test]
fn parse_asks_for_config_once() {
    let mut ctx = LogParserContext::new();
    let start = "2026/09/06 00:00:00.100000 [DEBUG] process_running - <STAT> CYC:000000000000 START";
    assert!(ctx.handle_line(start) == ParseStep::NeedConfig);
    assert_eq!(ctx.line_no, 0);
    assert!(ctx.config_text().is_err());
    let cfg = SchedulerConfig {
        server_config: ServerConfig {
            port: 1,
            cycle_time_ms: 20,
            stats_interval_cycle: 0,
        },
        client_configs: vec![ClientConfig::new(3, 1, 0, vec![], 5).unwrap()],
    };
    assert!(ctx.set_config(cfg).is_ok());
    assert!(ctx.handle_line(start) == ParseStep::Continue);
    assert_eq!(ctx.line_no, 1);
    assert_eq!(ctx.cycle_time_ms, 20);
}

#[test]
fn parse_rejects_invalid_config() {
    let mut ctx = LogParserContext::new();
    let cfg = SchedulerConfig {
        server_config: ServerConfig {
            port: 1,
            cycle_time_ms: 20,
            stats_interval_cycle: 0,
        },
        client_configs: vec![ClientConfig {
            client_id: 3,
            display_name: String::new(),
            cycle: 0,
            cycle_offset: 0,
            depends: vec![],
            expected_duration_ms: 0,
        }],
    };
    let errs = ctx.set_config(cfg).unwrap_err();
    assert!(errs.contains_key(&3));
    assert!(ctx.parsed_config.is_none());
}

fn exec(start_ms: u64, duration_ms: u32, id: u64) -> ActualExecution {
    ActualExecution {
        log_line_no_start: 1,
        log_line_no_end: Some(2),
        instance_id: id,
        cycle: 0,
        start_ms,
        duration_ms,
        status: ExecutionStatus::Normal,
    }
}

fn event(time_ms: u64, id: u64) -> ActualInstantEvent {
    ActualInstantEvent {
        log_line_no: 1,
        instance_id: id,
        time_ms,
        event_type: InstantEventType::Ready,
    }
}

fn sample_store() -> LogStore {
    let mut execs = HashMap::new();
    execs.insert(20, vec![exec(0, 30, 1), exec(100, 30, 2), exec(200, 30, 3)]);
    execs.insert(5, vec![exec(40, 5, 4)]);
    let mut events = HashMap::new();
    events.insert(7, vec![event(10, 1), event(120, 2), event(250, 3)]);
    let metrics = vec![
        ActualMetricPoint { time_ms: 0, running_count: 1 },
        ActualMetricPoint { time_ms: 30, running_count: 0 },
        ActualMetricPoint { time_ms: 100, running_count: 1 },
        ActualMetricPoint { time_ms: 130, running_count: 0 },
    ];
    let cycles = (0..10)
        .map(|c| ActualCycle { cycle: c, start_ms: c * 50, start_jitter_ms: 0 })
        .collect();
    let summary = LogSummary {
        config: SchedulerConfig {
            server_config: ServerConfig {
                port: 1,
                cycle_time_ms: 50,
                stats_interval_cycle: 0,
            },
            client_configs: vec![],
        },
        max_concurrency: 1,
        total_duration_ms: 500,
        total_cycles: 10,
        min_start_jitter_ms: 0,
        max_start_jitter_ms: 0,
        is_truncated: false,
    };
    LogStore::new(summary, execs, events, metrics, cycles)
}

#[test]
fn range_selects_overlapping_runs_in_cid_order() {
    let store = sample_store();
    let r = store.get_range(110, 150);
    let cids: Vec<u16> = r.actual_executions_by_cid.iter().map(|(c, _)| *c).collect();
    assert_eq!(cids, vec![5, 7, 20]);
    let e20 = &r.actual_executions_by_cid[2].1;
    assert_eq!(e20.len(), 1);
    assert_eq!(e20[0].instance_id, 2);
    assert!(r.actual_executions_by_cid[0].1.is_empty());
    let v7 = &r.actual_instant_events_by_cid[1].1;
    assert_eq!(v7.len(), 1);
    assert_eq!(v7[0].time_ms, 120);
    // The point just before the range is included.
    assert_eq!(r.actual_metrics.len(), 2);
    assert_eq!(r.actual_metrics[0].time_ms, 100);
    assert_eq!(r.actual_metrics[1].time_ms, 130);
    // Cycles within 100 ms around the range: from 10 to 250.
    assert_eq!(r.actual_cycles.first().unwrap().start_ms, 50);
    assert_eq!(r.actual_cycles.last().unwrap().start_ms, 250);
    assert!(!r.is_truncated);
}

#[test]
fn range_inverted_is_empty() {
    let r = sample_store().get_range(200, 100);
    assert!(r.actual_executions_by_cid.is_empty());
    assert!(r.actual_instant_events_by_cid.is_empty());
    assert!(r.actual_metrics.is_empty());
    assert!(r.actual_cycles.is_empty());
    assert!(!r.is_truncated);
}

#[test]
fn range_caps_truncate() {
    let store = sample_store();
    let r = store.get_range_with_caps(0, 1000, 2, MAX_RANGE_INSTANT_EVENTS, MAX_RANGE_METRICS, MAX_RANGE_CYCLES);
    let total: usize = r.actual_executions_by_cid.iter().map(|(_, e)| e.len()).sum();
    assert_eq!(total, 2);
    assert!(r.is_truncated);
    let r = store.get_range_with_caps(0, 1000, MAX_RANGE_EXECUTIONS, 1, MAX_RANGE_METRICS, MAX_RANGE_CYCLES);
    let total: usize = r.actual_instant_events_by_cid.iter().map(|(_, e)| e.len()).sum();
    assert_eq!(total, 1);
    assert!(r.is_truncated);
    let r = store.get_range_with_caps(0, 1000, MAX_RANGE_EXECUTIONS, MAX_RANGE_INSTANT_EVENTS, 3, 4);
    assert_eq!(r.actual_metrics.len(), 3);
    assert_eq!(r.actual_cycles.len(), 4);
    assert!(r.is_truncated);
}

#[test]
fn range_after_the_log_is_empty() {
    let r = sample_store().get_range(50_000, 60_000);
    let total: usize = r.actual_executions_by_cid.iter().map(|(_, e)| e.len()).sum();
    assert_eq!(total, 0);
    assert!(r.actual_metrics.is_empty());
    assert!(r.actual_cycles.is_empty());
    assert!(!r.is_truncated);
}

fn start_line_origin(line: &str) -> Option<i64> {
    let mut ctx = LogParserContext::new();
    let cfg = SchedulerConfig {
        server_config: ServerConfig {
            port: 1,
            cycle_time_ms: 20,
            stats_interval_cycle: 0,
        },
        client_configs: vec![ClientConfig::new(3, 1, 0, vec![], 5).unwrap()],
    };
    assert!(ctx.set_config(cfg).is_ok());
    assert!(ctx.handle_line(line) == ParseStep::Continue);
    ctx.origin_time_us
}

#[test]
fn stamp_is_the_first_26_bytes() {
    let ascii = "2026/09/06 00:00:00.100000 [DEBUG] process_running - <STAT> CYC:000000000000 START";
    // An ideographic space takes three bytes: the stamp below is 26 bytes.
    let wide = "2026/9/6\u{3000}00:00:00.100000 [DEBUG] process_running - <STAT> CYC:000000000000 START";
    let expected = start_line_origin(ascii);
    assert!(expected.is_some());
    assert_eq!(start_line_origin(wide), expected);
    // The 26th byte falls inside a two-byte character: no stamp.
    let cut = "2026/09/06 00:00:00.10000\u{e9} [DEBUG] process_running - <STAT> CYC:000000000000 START";
    assert_eq!(start_line_origin(cut), None);
}
