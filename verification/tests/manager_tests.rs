use ritsu::config::{ClientConfig, ClientRule, SchedulerConfig, ServerConfig};
use ritsu::entry::ProcessState;
use ritsu::manager::{ClientInfo, Event, EventManager, ManagerContext, CYCLE_MAX};
use ritsu::message::{Message, MessageType, PROTOCOL_VERSION};
use ritsu::server::{
    ClientState, ManagerProcExiting, ManagerProcRunning, ManagerProcStarting, ManagerState,
};
use std::collections::HashMap;

fn rules_for(configs: &Vec<ClientConfig>) -> HashMap<u16, ClientRule> {
    let scheduler_config = SchedulerConfig {
        server_config: ServerConfig {
            port: 8080,
            cycle_time_ms: 50,
            stats_interval_cycle: 0,
        },
        client_configs: configs.clone(),
    };
    scheduler_config.get_client_rules()
}

fn new_context(configs: Vec<ClientConfig>) -> ManagerContext {
    let rules = rules_for(&configs);
    ManagerContext::new(configs, rules, 0, 0)
}

fn client(ctx: &ManagerContext, cid: u16) -> &ClientInfo {
    ctx.clients.iter().find(|c| c.config.client_id == cid).unwrap()
}

fn client_mut(ctx: &mut ManagerContext, cid: u16) -> &mut ClientInfo {
    ctx.clients.iter_mut().find(|c| c.config.client_id == cid).unwrap()
}

fn create_starting_context() -> ManagerContext {
    let mut ctx = new_context(vec![
        ClientConfig::new(0, 1, 0, vec![], 0).unwrap(),
        ClientConfig::new(1, 2, 1, vec![], 0).unwrap(),
        ClientConfig::new(2, 1, 0, vec![0], 0).unwrap(),
    ]);
    ctx.state = ManagerState::Starting;
    client_mut(&mut ctx, 0).last_mid = 9;
    client_mut(&mut ctx, 1).last_mid = 9;
    client_mut(&mut ctx, 2).last_mid = 9;
    ctx
}

fn create_exiting_context() -> ManagerContext {
    let mut ctx = new_context(vec![
        ClientConfig::new(0, 1, 0, vec![], 0).unwrap(),
        ClientConfig::new(1, 2, 1, vec![], 0).unwrap(),
        ClientConfig::new(2, 1, 0, vec![0], 0).unwrap(),
    ]);
    ctx.state = ManagerState::Exiting;
    ctx.exit_reason = Some(vec![("reason".to_string(), "Shutdown".to_string())]);
    client_mut(&mut ctx, 0).state = ClientState::Exiting;
    client_mut(&mut ctx, 1).state = ClientState::Active;
    client_mut(&mut ctx, 2).state = ClientState::Active;
    client_mut(&mut ctx, 0).last_mid = 9;
    client_mut(&mut ctx, 1).last_mid = 9;
    client_mut(&mut ctx, 2).last_mid = 9;
    ctx.num_active_clients = 3;
    ctx
}

fn create_context_scenarios() -> ManagerContext {
    let mut ctx = new_context(vec![
        // CID, Cycle, Offset, Depends
        ClientConfig::new(0, 2, 0, vec![], 0).unwrap(),
        ClientConfig::new(1, 2, 0, vec![0], 0).unwrap(), // Floating (depends on 0, same offset)
        ClientConfig::new(2, 2, 1, vec![1], 0).unwrap(), // Non-Floating (depends on 1, different offset)
        ClientConfig::new(3, 2, 1, vec![], 0).unwrap(),  // Root (offset 1)
    ]);
    ctx.state = ManagerState::Running;
    ctx.num_active_clients = ctx.clients.len();
    for client in ctx.clients.iter_mut() {
        client.state = ClientState::Active;
        client.last_mid = 9;
    }
    ctx
}

#[test]
fn process_starting_test_test_enter_state() {
    // create objects.
    let mut ctx = create_starting_context();
    let proc = ManagerProcStarting;

    // setup condition.
    // do nothing.

    // send event.
    proc.enter_state(&mut ctx);

    // check result.
    assert_eq!(ctx.state, ManagerState::Starting);
    assert_eq!(ctx.state_changed, false);
    assert_eq!(client(&ctx, 0).state, ClientState::Disconnected);
    assert_eq!(client(&ctx, 1).state, ClientState::Disconnected);
    assert_eq!(client(&ctx, 2).state, ClientState::Disconnected);
    assert_eq!(ctx.num_active_clients, 0);
}

#[test]
fn process_starting_test_test_on_cycle_start() {
    // create objects.
    let mut ctx = create_starting_context();
    let proc = ManagerProcStarting;

    // setup condition.
    client_mut(&mut ctx, 0).state = ClientState::Sync;
    ctx.num_active_clients = 1;

    // send event.
    let result = proc.on_cycle_start(&mut ctx, 100).unwrap();

    // check result.
    assert_eq!(result.len(), 0);
    assert_eq!(ctx.state, ManagerState::Starting);
    assert_eq!(ctx.state_changed, false);
    assert_eq!(client(&ctx, 0).state, ClientState::Sync);
    assert_eq!(client(&ctx, 1).state, ClientState::Disconnected);
    assert_eq!(client(&ctx, 2).state, ClientState::Disconnected);
    assert_eq!(ctx.num_active_clients, 1);
}

#[test]
fn process_starting_test_test_on_client_join() {
    // create objects.
    let mut ctx = create_starting_context();
    let proc = ManagerProcStarting;

    // setup condition.
    client_mut(&mut ctx, 0).state = ClientState::Sync;
    ctx.num_active_clients = 1;

    // send event.
    let m = Message::new(
        MessageType::Join,
        0,
        1,
        Some(vec![(
            "version".to_string(),
            PROTOCOL_VERSION.to_string(),
        )]),
    )
    .unwrap();
    let result = proc.on_client_join(&mut ctx, &m).unwrap();

    // check result.
    assert_eq!(result.len(), 1);
    assert_eq!(result[0].mtype, MessageType::Joined);
    assert_eq!(
        result[0].get_extra("version"),
        Some(&PROTOCOL_VERSION.to_string())
    );
    assert_eq!(result[0].cid, 1);
    assert_eq!(ctx.state, ManagerState::Starting);
    assert_eq!(ctx.state_changed, false);
    assert_eq!(client(&ctx, 0).state, ClientState::Sync);
    assert_eq!(client(&ctx, 1).state, ClientState::Sync);
    assert_eq!(client(&ctx, 2).state, ClientState::Disconnected);
    assert_eq!(ctx.num_active_clients, 2);

    // send event.
    let m = Message::new(
        MessageType::Join,
        0,
        2,
        Some(vec![(
            "version".to_string(),
            PROTOCOL_VERSION.to_string(),
        )]),
    )
    .unwrap();
    let result = proc.on_client_join(&mut ctx, &m).unwrap();

    // check result.
    assert_eq!(result.len(), 1);
    assert_eq!(result[0].mtype, MessageType::Joined);
    assert_eq!(
        result[0].get_extra("version"),
        Some(&PROTOCOL_VERSION.to_string())
    );
    assert_eq!(result[0].cid, 2);
    assert_eq!(ctx.state, ManagerState::Starting);
    assert_eq!(ctx.state_changed, false);
    assert_eq!(client(&ctx, 0).state, ClientState::Sync);
    assert_eq!(client(&ctx, 1).state, ClientState::Sync);
    assert_eq!(client(&ctx, 2).state, ClientState::Sync);
    assert_eq!(ctx.num_active_clients, 3);
}

#[test]
fn process_starting_test_test_on_client_ready() {
    // create objects.
    let mut ctx = create_starting_context();
    let proc = ManagerProcStarting;

    // setup condition.
    client_mut(&mut ctx, 0).state = ClientState::Sync;
    client_mut(&mut ctx, 1).state = ClientState::Active;
    client_mut(&mut ctx, 2).state = ClientState::Sync;
    ctx.num_active_clients = 3;

    // send event.
    let m = Message::new(MessageType::Ready, 0, 0, None).unwrap();
    let result = proc.on_client_ready(&mut ctx, &m).unwrap();

    // check result.
    assert_eq!(result.len(), 0);
    assert_eq!(ctx.state, ManagerState::Starting);
    assert_eq!(ctx.state_changed, false);
    assert_eq!(client(&ctx, 0).state, ClientState::Active);
    assert_eq!(client(&ctx, 1).state, ClientState::Active);
    assert_eq!(client(&ctx, 2).state, ClientState::Sync);
    assert_eq!(ctx.num_active_clients, 3);

    // send event.
    let m = Message::new(MessageType::Ready, 0, 2, None).unwrap();
    let result = proc.on_client_ready(&mut ctx, &m).unwrap();

    // check result.
    assert_eq!(result.len(), 0);
    assert_eq!(ctx.state, ManagerState::Running);
    assert_eq!(ctx.state_changed, true);
    assert_eq!(client(&ctx, 0).state, ClientState::Active);
    assert_eq!(client(&ctx, 1).state, ClientState::Active);
    assert_eq!(client(&ctx, 2).state, ClientState::Active);
    assert_eq!(ctx.num_active_clients, 3);
}

#[test]
fn process_starting_test_test_on_client_done() {
    // create objects.
    let mut ctx = create_starting_context();
    let proc = ManagerProcStarting;

    // setup condition.
    client_mut(&mut ctx, 0).state = ClientState::Sync;
    client_mut(&mut ctx, 1).state = ClientState::Active;
    client_mut(&mut ctx, 2).state = ClientState::Sync;
    ctx.num_active_clients = 3;

    // send event.
    let m = Message::new(MessageType::Done, 0, 0, None).unwrap();
    let result = proc.on_client_done(&mut ctx, &m).unwrap();

    // check result.
    assert_eq!(result.len(), 0);
    assert_eq!(ctx.state, ManagerState::Starting);
    assert_eq!(ctx.state_changed, false);
    assert_eq!(client(&ctx, 0).state, ClientState::Sync);
    assert_eq!(client(&ctx, 1).state, ClientState::Active);
    assert_eq!(client(&ctx, 2).state, ClientState::Sync);
    assert_eq!(ctx.num_active_clients, 3);

    // send event.
    let m = Message::new(MessageType::Done, 0, 2, None).unwrap();
    let result = proc.on_client_done(&mut ctx, &m).unwrap();

    // check result.
    assert_eq!(result.len(), 0);
    assert_eq!(ctx.state, ManagerState::Starting);
    assert_eq!(ctx.state_changed, false);
    assert_eq!(client(&ctx, 0).state, ClientState::Sync);
    assert_eq!(client(&ctx, 1).state, ClientState::Active);
    assert_eq!(client(&ctx, 2).state, ClientState::Sync);
    assert_eq!(ctx.num_active_clients, 3);
}

#[test]
fn process_starting_test_test_on_client_exit() {
    // create objects.
    let mut ctx = create_starting_context();
    let proc = ManagerProcStarting;

    // setup condition.
    client_mut(&mut ctx, 0).state = ClientState::Sync;
    client_mut(&mut ctx, 1).state = ClientState::Sync;
    client_mut(&mut ctx, 2).state = ClientState::Sync;
    ctx.num_active_clients = 3;
    let m = Message::new(MessageType::Ready, 0, 1, None).unwrap();
    let _ = proc.on_client_ready(&mut ctx, &m).unwrap();

    // send event.
    let m = Message::new(MessageType::Exit, 0, 0, None).unwrap();
    let result = proc.on_client_exit(&mut ctx, &m).unwrap();

    // check result.
    assert_eq!(result.len(), 2);
    assert_eq!(result[0].mtype, MessageType::Okay);
    assert_eq!(result[0].cid, 0);
    assert_eq!(result[1].mtype, MessageType::Error);
    assert_eq!(
        result[1].get_extra("reason"),
        Some(&"ClientExit".to_string())
    );
    assert_eq!(result[1].get_extra("cid"), Some(&"000".to_string()));
    assert_eq!(result[1].cid, 1);
    assert_eq!(ctx.state, ManagerState::Exiting);
    assert_eq!(ctx.state_changed, true);
    assert_eq!(client(&ctx, 0).state, ClientState::Disconnected);
    assert_eq!(client(&ctx, 1).state, ClientState::Exiting);
    assert_eq!(client(&ctx, 2).state, ClientState::Sync);
    assert_eq!(ctx.num_active_clients, 2);
}

#[test]
fn test_on_shutdown_no_client() {
    // create objects.
    let mut ctx = create_starting_context();
    let proc = ManagerProcStarting;

    // setup condition.
    client_mut(&mut ctx, 0).state = ClientState::Disconnected;
    client_mut(&mut ctx, 1).state = ClientState::Disconnected;
    client_mut(&mut ctx, 2).state = ClientState::Disconnected;
    ctx.num_active_clients = 0;

    // send event.
    let result = proc.on_shutdown(&mut ctx).unwrap();

    // check result.
    assert_eq!(result.len(), 0);
    assert_eq!(ctx.state, ManagerState::Exited);
    assert_eq!(ctx.state_changed, true);
    assert_eq!(client(&ctx, 0).state, ClientState::Disconnected);
    assert_eq!(client(&ctx, 1).state, ClientState::Disconnected);
    assert_eq!(client(&ctx, 2).state, ClientState::Disconnected);
    assert_eq!(ctx.num_active_clients, 0);
}

#[test]
fn process_starting_test_test_on_shutdown() {
    // create objects.
    let mut ctx = create_starting_context();
    let proc = ManagerProcStarting;

    // setup condition.
    client_mut(&mut ctx, 0).state = ClientState::Sync;
    client_mut(&mut ctx, 1).state = ClientState::Sync;
    client_mut(&mut ctx, 2).state = ClientState::Sync;
    ctx.num_active_clients = 3;
    let m = Message::new(MessageType::Ready, 0, 1, None).unwrap();
    let _ = proc.on_client_ready(&mut ctx, &m).unwrap();

    // send event.
    let result = proc.on_shutdown(&mut ctx).unwrap();

    // check result.
    assert_eq!(result.len(), 1);
    assert_eq!(result[0].mtype, MessageType::Error);
    assert_eq!(result[0].get_extra("reason"), Some(&"Shutdown".to_string()));
    assert_eq!(result[0].cid, 1);
    assert_eq!(ctx.state, ManagerState::Exiting);
    assert_eq!(ctx.state_changed, true);
    assert_eq!(client(&ctx, 0).state, ClientState::Sync);
    assert_eq!(client(&ctx, 1).state, ClientState::Exiting);
    assert_eq!(client(&ctx, 2).state, ClientState::Sync);
    assert_eq!(ctx.num_active_clients, 3);
}

#[test]
fn test_on_client_join_incompatible_version() {
    // create objects.
    let mut ctx = create_starting_context();
    let proc = ManagerProcStarting;

    // setup condition.
    client_mut(&mut ctx, 0).state = ClientState::Disconnected;
    ctx.num_active_clients = 0;

    // send event.
    let m = Message::new(
        MessageType::Join,
        0,
        0,
        Some(vec![("version".to_string(), "999".to_string())]),
    )
    .unwrap();
    let result = proc.on_client_join(&mut ctx, &m).unwrap();

    // check result.
    assert_eq!(result.len(), 1);
    assert_eq!(result[0].mtype, MessageType::Error);
    assert_eq!(
        result[0].get_extra("reason"),
        Some(&"IncompatibleVersion".to_string())
    );
    assert_eq!(result[0].cid, 0);
    assert_eq!(ctx.state, ManagerState::Starting);
    assert_eq!(client(&ctx, 0).state, ClientState::Disconnected);
    assert_eq!(ctx.num_active_clients, 0);
}

#[test]
fn test_on_client_join_missing_version() {
    // create objects.
    let mut ctx = create_starting_context();
    let proc = ManagerProcStarting;

    // setup condition.
    client_mut(&mut ctx, 0).state = ClientState::Disconnected;
    ctx.num_active_clients = 0;

    // send event.
    let m = Message::new(MessageType::Join, 0, 0, None).unwrap();
    let result = proc.on_client_join(&mut ctx, &m).unwrap();

    // check result.
    assert_eq!(result.len(), 1);
    assert_eq!(result[0].mtype, MessageType::Error);
    assert_eq!(
        result[0].get_extra("reason"),
        Some(&"IncompatibleVersion".to_string())
    );
    assert_eq!(result[0].cid, 0);
    assert_eq!(ctx.state, ManagerState::Starting);
    assert_eq!(client(&ctx, 0).state, ClientState::Disconnected);
    assert_eq!(ctx.num_active_clients, 0);
}


#[test]
fn process_running_test_test_enter_state() {
    // create objects.
    let mut ctx = create_context_scenarios();
    let proc = ManagerProcRunning;

    // setup condition.
    ctx.running_cycle = 5;

    // send event.
    proc.enter_state(&mut ctx);

    // check result.
    assert_eq!(ctx.state, ManagerState::Running);
    assert_eq!(ctx.running_cycle, CYCLE_MAX);
}

#[test]
fn test_normal_cycle_flow() {
    // create objects.
    let mut ctx = create_context_scenarios();
    let proc = ManagerProcRunning;

    // setup condition.
    proc.enter_state(&mut ctx);
    for i in 0..=3 {
        let _ = ctx.sched.on_ready(i);
    }

    // --- Cycle 0 ---
    // CID 0 should start.
    let result = proc.on_cycle_start(&mut ctx, 123, 0).unwrap();
    let rmap: HashMap<u16, &Message> = result.iter().map(|m| (m.cid, m)).collect();
    assert_eq!(result.len(), 1);
    assert_eq!(rmap.get(&0).unwrap().mtype, MessageType::Start);
    assert_eq!(
        rmap.get(&0).unwrap().get_extra("cycle"),
        Some(&"0".to_string())
    );

    // CID 0 sends DONE -> CID 1 should start immediately (Floating).
    let m_done0 = Message::new(MessageType::Done, 1, 0, None).unwrap();
    let result = proc.on_client_done(&mut ctx, &m_done0, 0).unwrap();
    let rmap: HashMap<u16, &Message> = result.iter().map(|m| (m.cid, m)).collect();
    assert_eq!(result.len(), 2);
    assert_eq!(rmap.get(&0).unwrap().mtype, MessageType::Okay); // Ack for 0
    assert_eq!(rmap.get(&1).unwrap().mtype, MessageType::Start); // Start for 1
    assert_eq!(
        rmap.get(&1).unwrap().get_extra("cycle"),
        Some(&"0".to_string())
    );

    // CID 1 sends DONE -> CID 2 is Ready but waits for Offset 1 (Non-Floating).
    let m_done1 = Message::new(MessageType::Done, 5, 1, None).unwrap();
    let result = proc.on_client_done(&mut ctx, &m_done1, 0).unwrap();
    let rmap: HashMap<u16, &Message> = result.iter().map(|m| (m.cid, m)).collect();
    assert_eq!(result.len(), 1);
    assert_eq!(rmap.get(&1).unwrap().mtype, MessageType::Okay); // Ack for 1

    // --- Cycle 1 ---
    // CID 2 (dependency met) and CID 3 (root) should start.
    let result = proc.on_cycle_start(&mut ctx, 124, 0).unwrap();
    let rmap: HashMap<u16, &Message> = result.iter().map(|m| (m.cid, m)).collect();
    assert_eq!(result.len(), 2);
    assert_eq!(rmap.get(&2).unwrap().mtype, MessageType::Start); // Start for 2
    assert_eq!(
        rmap.get(&2).unwrap().get_extra("cycle"),
        Some(&"1".to_string())
    );
    assert_eq!(rmap.get(&3).unwrap().mtype, MessageType::Start); // Start for 3
    assert_eq!(
        rmap.get(&3).unwrap().get_extra("cycle"),
        Some(&"1".to_string())
    );
}

#[test]
fn test_client_ready_late() {
    // create objects.
    let mut ctx = create_context_scenarios();
    let proc = ManagerProcRunning;

    // setup condition.
    proc.enter_state(&mut ctx);
    for i in 1..=3 {
        let _ = ctx.sched.on_ready(i);
    }

    // --- Cycle 0 ---
    // CID 0 is in Idle, mark as Late.
    // CID 1, 2 is Skip.
    // CID 2 is not started in this cycle: it starts at its own offset.
    let result = proc.on_cycle_start(&mut ctx, 123, 0).unwrap();
    let rmap: HashMap<u16, &Message> = result.iter().map(|m| (m.cid, m)).collect();
    assert_eq!(result.len(), 1);
    assert_eq!(rmap.get(&1).unwrap().mtype, MessageType::Skip);
    assert!(rmap.get(&2).is_none());

    // CID 1, 2 sends READY again.
    let m_ready1 = Message::new(MessageType::Ready, 1, 1, None).unwrap();
    let result = proc.on_client_ready(&mut ctx, &m_ready1, 0).unwrap();
    assert_eq!(result.len(), 0);
    let m_ready2 = Message::new(MessageType::Ready, 1, 2, None).unwrap();
    let result = proc.on_client_ready(&mut ctx, &m_ready2, 0).unwrap();
    assert_eq!(result.len(), 0);

    // Late Ready arrives from CID 0.
    let m_ready0 = Message::new(MessageType::Ready, 1, 0, None).unwrap();
    let result = proc.on_client_ready(&mut ctx, &m_ready0, 0).unwrap();
    let rmap: HashMap<u16, &Message> = result.iter().map(|m| (m.cid, m)).collect();
    assert_eq!(result.len(), 1);
    assert_eq!(rmap.get(&0).unwrap().mtype, MessageType::Late);

    // Rtry Ready arrives from CID 0.
    let m_ready0 = Message::new(MessageType::Ready, 2, 0, None).unwrap();
    let result = proc.on_client_ready(&mut ctx, &m_ready0, 0).unwrap();
    assert_eq!(result.len(), 0);
}

#[test]
fn test_overrun_and_skip_chain() {
    // create objects.
    let mut ctx = create_context_scenarios();
    let proc = ManagerProcRunning;

    // setup condition.
    proc.enter_state(&mut ctx);
    for i in 0..=3 {
        let _ = ctx.sched.on_ready(i);
    }

    // --- Cycle 0 ---
    // CID 0 starts.
    let _ = proc.on_cycle_start(&mut ctx, 123, 0).unwrap();
    // CID 0 is still RUNNING (Overrun trigger).

    // --- Cycle 1 ---
    // CID 3 starts, CID 2 waits for 1.
    let _ = proc.on_cycle_start(&mut ctx, 124, 0).unwrap();

    // CID 3 completed.
    let m_done3 = Message::new(MessageType::Done, 1, 3, None).unwrap();
    let _ = proc.on_client_done(&mut ctx, &m_done3, 0).unwrap();
    let m_ready3 = Message::new(MessageType::Ready, 2, 3, None).unwrap();
    let _ = proc.on_client_ready(&mut ctx, &m_ready3, 0).unwrap();

    // --- Cycle 2 ---
    // CID 0 is still Running -> Overrun.
    // Dependents (CID 1, and eventually CID 2) should be Skipped.
    // CID 2 was already skipped in cycle 1, at its own offset.
    let result = proc.on_cycle_start(&mut ctx, 125, 0).unwrap();
    let rmap: HashMap<u16, &Message> = result.iter().map(|m| (m.cid, m)).collect();
    assert_eq!(result.len(), 1);
    assert_eq!(rmap.get(&1).unwrap().mtype, MessageType::Skip);
    assert_eq!(ctx.sched.entries.iter().find(|e| e.cid == 2).unwrap().state, ProcessState::Skip);
}

#[test]
fn test_retransmission_handling() {
    // create objects.
    let mut ctx = create_context_scenarios();
    let proc = ManagerProcRunning;

    // setup condition.
    proc.enter_state(&mut ctx);
    for i in 0..=3 {
        let _ = ctx.sched.on_ready(i);
    }

    // 1. Ready retransmission while Running.
    let _ = proc.on_cycle_start(&mut ctx, 123, 0); // CID 0 is Running.
    let m_ready0 = Message::new(MessageType::Ready, 1, 0, None).unwrap();
    let result = proc.on_client_ready(&mut ctx, &m_ready0, 0).unwrap();
    let rmap: HashMap<u16, &Message> = result.iter().map(|m| (m.cid, m)).collect();
    assert_eq!(result.len(), 1);
    assert_eq!(rmap.get(&0).unwrap().mtype, MessageType::Start); // Should allow to continue.
    assert_eq!(
        rmap.get(&0).unwrap().get_extra("cycle"),
        Some(&"0".to_string())
    );

    // 2. Done retransmission while Idle.
    let m_done0 = Message::new(MessageType::Done, 2, 0, None).unwrap();
    let _ = proc.on_client_done(&mut ctx, &m_done0, 0); // CID 0 becomes Idle.
    let result = proc.on_client_done(&mut ctx, &m_done0, 0).unwrap();
    let rmap: HashMap<u16, &Message> = result.iter().map(|m| (m.cid, m)).collect();
    assert_eq!(result.len(), 1);
    assert_eq!(rmap.get(&0).unwrap().mtype, MessageType::Okay); // Ack for retransmission.
}

#[test]
fn process_running_test_test_on_client_join() {
    // create objects.
    let mut ctx = create_context_scenarios();
    let proc = ManagerProcRunning;

    // setup condition.
    proc.enter_state(&mut ctx);

    // ignore JOIN.
    let m = Message::new(MessageType::Join, 1, 0, None).unwrap();
    let result = proc.on_client_join(&mut ctx, &m);
    assert!(result.is_err());
}

#[test]
fn process_running_test_test_on_client_exit() {
    // create objects.
    let mut ctx = create_context_scenarios();
    let proc = ManagerProcRunning;

    // setup condition.
    proc.enter_state(&mut ctx);
    for i in 0..=3 {
        let _ = ctx.sched.on_ready(i);
    }

    // --- Cycle 0 ---
    // CID 0 starts.
    let _ = proc.on_cycle_start(&mut ctx, 123, 0).unwrap();

    // CID 0 exits.
    // Manager should transition to Exiting and notify others.
    let m_exit0 = Message::new(MessageType::Exit, 5, 0, None).unwrap();
    let result = proc.on_client_exit(&mut ctx, &m_exit0).unwrap();
    let rmap: HashMap<u16, &Message> = result.iter().map(|m| (m.cid, m)).collect();
    assert_eq!(result.len(), 4);
    assert_eq!(rmap.get(&0).unwrap().mtype, MessageType::Okay);
    assert_eq!(rmap.get(&1).unwrap().mtype, MessageType::Error);
    assert_eq!(
        rmap.get(&1).unwrap().get_extra("reason"),
        Some(&"ClientExit".to_string())
    );
    assert_eq!(
        rmap.get(&1).unwrap().get_extra("cid"),
        Some(&"000".to_string())
    );
    assert_eq!(rmap.get(&2).unwrap().mtype, MessageType::Error);
    assert_eq!(rmap.get(&3).unwrap().mtype, MessageType::Error);
    // Manager state change to Exitting.
    assert_eq!(ctx.state, ManagerState::Exiting);
    assert_eq!(ctx.state_changed, true);
    assert_eq!(client(&ctx, 0).state, ClientState::Disconnected);
    assert_eq!(client(&ctx, 1).state, ClientState::Exiting);
    assert_eq!(client(&ctx, 2).state, ClientState::Exiting);
    assert_eq!(client(&ctx, 3).state, ClientState::Exiting);
    assert_eq!(ctx.num_active_clients, 3);
}

#[test]
fn process_running_test_test_on_shutdown() {
    // create objects.
    let mut ctx = create_context_scenarios();
    let proc = ManagerProcRunning;

    // setup condition.
    proc.enter_state(&mut ctx);
    for i in 2..=3 {
        let _ = ctx.sched.on_ready(i);
    }

    // send event.
    let result = proc.on_shutdown(&mut ctx).unwrap();
    let rmap: HashMap<u16, &Message> = result.iter().map(|m| (m.cid, m)).collect();
    assert_eq!(result.len(), 2);
    assert_eq!(rmap.get(&2).unwrap().mtype, MessageType::Error);
    assert_eq!(
        rmap.get(&2).unwrap().get_extra("reason"),
        Some(&"Shutdown".to_string())
    );
    assert_eq!(rmap.get(&3).unwrap().mtype, MessageType::Error);
    // Manager should transition to Exiting and notify others.
    assert_eq!(ctx.state, ManagerState::Exiting);
    assert_eq!(ctx.state_changed, true);
    assert_eq!(client(&ctx, 0).state, ClientState::Active);
    assert_eq!(client(&ctx, 1).state, ClientState::Active);
    assert_eq!(client(&ctx, 2).state, ClientState::Exiting);
    assert_eq!(client(&ctx, 3).state, ClientState::Exiting);
    assert_eq!(ctx.num_active_clients, 4);
}


#[test]
fn process_exiting_test_test_enter_state() {
    // create objects.
    let mut ctx = create_exiting_context();
    let proc = ManagerProcExiting;

    // setup condition.
    // do nothing.

    // send event.
    proc.enter_state(&mut ctx, 0);

    // check result.
    assert_eq!(ctx.state, ManagerState::Exiting);
    assert_eq!(ctx.state_changed, false);
    assert_eq!(client(&ctx, 0).state, ClientState::Exiting);
    assert_eq!(client(&ctx, 1).state, ClientState::Active);
    assert_eq!(client(&ctx, 2).state, ClientState::Active);
    assert_eq!(ctx.num_active_clients, 3);
}

#[test]
fn process_exiting_test_test_on_cycle_start() {
    // create objects.
    let mut ctx = create_exiting_context();
    let proc = ManagerProcExiting;

    // setup condition.
    // do nothing.

    // send event.
    let result = proc.on_cycle_start(&mut ctx, 100).unwrap();

    // check result.
    assert_eq!(result.len(), 0);
    assert_eq!(ctx.state, ManagerState::Exiting);
    assert_eq!(ctx.state_changed, false);
    assert_eq!(client(&ctx, 0).state, ClientState::Exiting);
    assert_eq!(client(&ctx, 1).state, ClientState::Active);
    assert_eq!(client(&ctx, 2).state, ClientState::Active);
    assert_eq!(ctx.num_active_clients, 3);
}

#[test]
fn process_exiting_test_test_on_client_join() {
    // create objects.
    let mut ctx = create_exiting_context();
    let proc = ManagerProcExiting;

    // setup condition.
    // do nothing.

    // send event.
    let m = Message::new(MessageType::Join, 0, 0, None).unwrap();
    let result = proc.on_client_join(&mut ctx, &m).unwrap();

    // check result.
    assert_eq!(result.len(), 1);
    assert_eq!(result[0].mtype, MessageType::Error);
    assert_eq!(result[0].cid, 0);
    assert_eq!(result[0].get_extra("reason"), Some(&"Shutdown".to_string()));
}

#[test]
fn process_exiting_test_test_on_client_ready() {
    // create objects.
    let mut ctx = create_exiting_context();
    let proc = ManagerProcExiting;

    // setup condition.
    // do nothing.

    // send event.
    let m = Message::new(MessageType::Ready, 0, 1, None).unwrap();
    let result = proc.on_client_ready(&mut ctx, &m).unwrap();

    // check result.
    assert_eq!(result.len(), 1);
    assert_eq!(result[0].mtype, MessageType::Error);
    assert_eq!(result[0].cid, 1);
    assert_eq!(result[0].get_extra("reason"), Some(&"Shutdown".to_string()));
    assert_eq!(ctx.state, ManagerState::Exiting);
    assert_eq!(ctx.state_changed, false);
    assert_eq!(client(&ctx, 0).state, ClientState::Exiting);
    assert_eq!(client(&ctx, 1).state, ClientState::Exiting);
    assert_eq!(client(&ctx, 2).state, ClientState::Active);
    assert_eq!(ctx.num_active_clients, 3);
}

#[test]
fn process_exiting_test_test_on_client_done() {
    // create objects.
    let mut ctx = create_exiting_context();
    let proc = ManagerProcExiting;

    // setup condition.
    // do nothing.

    // send event.
    let m = Message::new(MessageType::Done, 0, 2, None).unwrap();
    let result = proc.on_client_done(&mut ctx, &m).unwrap();

    // check result.
    assert_eq!(result.len(), 1);
    assert_eq!(result[0].mtype, MessageType::Okay);
    assert_eq!(result[0].cid, 2);
    assert_eq!(result[0].get_extra("reason"), None);
    assert_eq!(ctx.state, ManagerState::Exiting);
    assert_eq!(ctx.state_changed, false);
    assert_eq!(client(&ctx, 0).state, ClientState::Exiting);
    assert_eq!(client(&ctx, 1).state, ClientState::Active);
    assert_eq!(client(&ctx, 2).state, ClientState::Active); // Should remain Active (Idle on client)
    assert_eq!(ctx.num_active_clients, 3);
}

#[test]
fn process_exiting_test_test_on_client_exit() {
    // create objects.
    let mut ctx = create_exiting_context();
    let proc = ManagerProcExiting;

    // setup condition.
    // do nothing.

    // send event.
    let m = Message::new(MessageType::Exit, 0, 0, None).unwrap();
    let result = proc.on_client_exit(&mut ctx, &m).unwrap();

    // check result.
    assert_eq!(result.len(), 1);
    assert_eq!(result[0].mtype, MessageType::Okay);
    assert_eq!(result[0].cid, 0);
    assert_eq!(ctx.state, ManagerState::Exiting);
    assert_eq!(ctx.state_changed, false);
    assert_eq!(client(&ctx, 0).state, ClientState::Disconnected);
    assert_eq!(client(&ctx, 1).state, ClientState::Active);
    assert_eq!(client(&ctx, 2).state, ClientState::Active);
    assert_eq!(ctx.num_active_clients, 2);
}

#[test]
fn test_on_client_exit_all() {
    // create objects.
    let mut ctx = create_exiting_context();
    let proc = ManagerProcExiting;

    // setup condition.
    client_mut(&mut ctx, 0).state = ClientState::Exiting;
    client_mut(&mut ctx, 1).state = ClientState::Disconnected;
    client_mut(&mut ctx, 2).state = ClientState::Disconnected;
    ctx.num_active_clients = 1;

    // send event.
    let m = Message::new(MessageType::Exit, 0, 0, None).unwrap();
    let result = proc.on_client_exit(&mut ctx, &m).unwrap();

    // check result.
    assert_eq!(result.len(), 1);
    assert_eq!(result[0].mtype, MessageType::Okay);
    assert_eq!(result[0].cid, 0);
    assert_eq!(ctx.state, ManagerState::Exited);
    assert_eq!(ctx.state_changed, true);
    assert_eq!(client(&ctx, 0).state, ClientState::Disconnected);
    assert_eq!(client(&ctx, 1).state, ClientState::Disconnected);
    assert_eq!(client(&ctx, 2).state, ClientState::Disconnected);
    assert_eq!(ctx.num_active_clients, 0);
}

#[test]
fn process_exiting_test_test_on_shutdown() {
    // create objects.
    let mut ctx = create_exiting_context();
    let proc = ManagerProcExiting;

    // setup condition.
    // do nothing.

    // send event.
    let result = proc.on_shutdown(&mut ctx).unwrap();

    // check result.
    assert_eq!(result.len(), 0);
    assert_eq!(ctx.state, ManagerState::Exiting);
    assert_eq!(ctx.state_changed, false);
    assert_eq!(client(&ctx, 0).state, ClientState::Exiting);
    assert_eq!(client(&ctx, 1).state, ClientState::Active);
    assert_eq!(client(&ctx, 2).state, ClientState::Active);
    assert_eq!(ctx.num_active_clients, 3);
}


#[test]
fn test_manager_context_new() {
    // Given
    let server_config = ServerConfig {
        port: 8080,
        cycle_time_ms: 50,
        stats_interval_cycle: 0,
    };
    let client_configs = vec![
        ClientConfig::new(0, 2, 0, vec![], 0).unwrap(),
        ClientConfig::new(1, 2, 0, vec![0], 0).unwrap(),
    ];
    let scheduler_config = SchedulerConfig {
        server_config,
        client_configs,
    };
    let rules = scheduler_config.get_client_rules();

    // When
    let context = ManagerContext::new(scheduler_config.client_configs, rules, 0, 0);

    // Then
    assert_eq!(context.state, ManagerState::Starting);
    assert_eq!(context.state_changed, false);
    assert_eq!(context.clients.len(), 2);
    assert_eq!(context.num_active_clients, 0);
    assert_eq!(context.running_cycle, -1);
    assert_eq!(context.graph_start.len(), 1);
    assert_eq!(context.graph_start.contains(&0), true);
}

#[test]
fn test_manager_context_set_state() {
    // Given
    let server_config = ServerConfig {
        port: 8080,
        cycle_time_ms: 50,
        stats_interval_cycle: 0,
    };
    let client_configs = vec![ClientConfig::new(0, 1, 0, vec![], 0).unwrap()];
    let scheduler_config = SchedulerConfig {
        server_config,
        client_configs,
    };
    let rules = scheduler_config.get_client_rules();
    let mut context = ManagerContext::new(scheduler_config.client_configs, rules, 0, 0);

    // When
    let result = context.set_state(ManagerState::Running);

    // Then
    assert_eq!(result, true);
    assert_eq!(context.state, ManagerState::Running);
    assert_eq!(context.state_changed, true);

    // When (setting the same state again)
    context.state_changed = false;
    context.set_state(ManagerState::Running);

    // Then
    assert_eq!(context.state_changed, false);
}

fn one_client_context() -> ManagerContext {
    let configs = vec![ClientConfig::new(0, 1, 0, vec![], 0).unwrap()];
    let scheduler_config = SchedulerConfig {
        server_config: ServerConfig {
            port: 8080,
            cycle_time_ms: 50,
            stats_interval_cycle: 0,
        },
        client_configs: configs,
    };
    let rules = scheduler_config.get_client_rules();
    ManagerContext::new(scheduler_config.client_configs, rules, 0, 0)
}

#[test]
fn test_server_stats_calc_elapsed_times_normal() {
    // Given
    let mut context = one_client_context();
    let t0: u64 = 5_000;
    context.stats.created_at = t0;
    context.stats.running_start_at = Some(t0 + 100);
    context.stats.exiting_start_at = Some(t0 + 500);
    let now = t0 + 1000;

    // When
    let (total, starting, running, exiting) = context.calc_elapsed_times(now);

    // Then
    assert_eq!(total, 1000);
    assert_eq!(starting, 100);
    assert_eq!(running, 400);
    assert_eq!(exiting, 500);
}

#[test]
fn test_server_stats_calc_elapsed_times_bypass_running() {
    // Given
    let mut context = one_client_context();
    let t0: u64 = 5_000;
    context.stats.created_at = t0;
    context.stats.running_start_at = None;
    context.stats.exiting_start_at = Some(t0 + 500);
    let now = t0 + 1000;

    // When
    let (total, starting, running, exiting) = context.calc_elapsed_times(now);

    // Then
    assert_eq!(total, 1000);
    assert_eq!(starting, 500); // run_start falls back to exit_start
    assert_eq!(running, 0);
    assert_eq!(exiting, 500);
}

#[test]
fn test_server_stats_calc_elapsed_times_direct_exit() {
    // Given
    let mut context = one_client_context();
    let t0: u64 = 5_000;
    context.stats.created_at = t0;
    context.stats.running_start_at = None;
    context.stats.exiting_start_at = None;
    let now = t0 + 1000;

    // When
    let (total, starting, running, exiting) = context.calc_elapsed_times(now);

    // Then
    assert_eq!(total, 1000);
    assert_eq!(starting, 1000); // both fall back to now
    assert_eq!(running, 0);
    assert_eq!(exiting, 0);
}

fn join_msg(mid: u8, cid: u16) -> Message {
    Message::new(
        MessageType::Join,
        mid,
        cid,
        Some(vec![("version".to_string(), PROTOCOL_VERSION.to_string())]),
    )
    .unwrap()
}

fn two_client_manager(interval: u32) -> EventManager {
    let configs = vec![
        ClientConfig::new(0, 1, 0, vec![], 20).unwrap(),
        ClientConfig::new(1, 1, 0, vec![0], 10).unwrap(),
    ];
    let rules = rules_for(&configs);
    EventManager::new(configs, rules, interval, 1_000)
}

#[test]
fn event_manager_full_session() {
    let mut m = two_client_manager(2);
    assert_eq!(m.get_state(), ManagerState::Starting);

    // Both clients join and get JOINED.
    let r = m.process(Event::ClientMsg(join_msg(0, 0)), 1_001).unwrap();
    assert_eq!(r.len(), 1);
    assert_eq!(r[0].mtype, MessageType::Joined);
    let r = m.process(Event::ClientMsg(join_msg(0, 1)), 1_002).unwrap();
    assert_eq!(r[0].mtype, MessageType::Joined);

    // Cycles are ignored while starting.
    let r = m.process(Event::CycleStart(7), 1_003).unwrap();
    assert_eq!(r.len(), 0);

    // Both ready: the server runs.
    let ready0 = Message::new(MessageType::Ready, 1, 0, None).unwrap();
    let ready1 = Message::new(MessageType::Ready, 1, 1, None).unwrap();
    assert_eq!(m.process(Event::ClientMsg(ready0), 1_004).unwrap().len(), 0);
    assert_eq!(m.get_state(), ManagerState::Starting);
    assert_eq!(m.process(Event::ClientMsg(ready1), 1_005).unwrap().len(), 0);
    assert_eq!(m.get_state(), ManagerState::Running);
    assert_eq!(m.context.running_cycle, CYCLE_MAX);
    assert_eq!(m.context.state_changed, false);

    // First cycle is cycle 0 and starts client 0 with its last request ID.
    let r = m.process(Event::CycleStart(10), 2_000).unwrap();
    assert_eq!(r.len(), 1);
    assert_eq!(r[0].mtype, MessageType::Start);
    assert_eq!(r[0].cid, 0);
    assert_eq!(r[0].mid, 1);
    assert_eq!(r[0].get_extra("cycle"), Some(&"0".to_string()));
    assert_eq!(m.context.stats.running_start_at, Some(2_000));
    assert_eq!(m.context.stats.start_cycle, 10);

    // Client 0 done: OK and client 1 (floating) starts.
    let done0 = Message::new(MessageType::Done, 2, 0, None).unwrap();
    let r = m.process(Event::ClientMsg(done0), 2_015).unwrap();
    assert_eq!(r.len(), 2);
    assert_eq!(r[0].mtype, MessageType::Okay);
    assert_eq!(r[0].mid, 2);
    assert_eq!(r[1].mtype, MessageType::Start);
    assert_eq!(r[1].cid, 1);
    assert_eq!(client(&m.context, 0).stats.success_count, 1);
    assert_eq!(client(&m.context, 0).stats.time_sum, 15);
    assert_eq!(client(&m.context, 0).stats.time_min, 15);
    assert_eq!(client(&m.context, 0).stats.time_max, 15);

    // Client 1 done, both ready again.
    let done1 = Message::new(MessageType::Done, 2, 1, None).unwrap();
    let r = m.process(Event::ClientMsg(done1), 2_030).unwrap();
    assert_eq!(r.len(), 1);
    assert_eq!(r[0].mtype, MessageType::Okay);
    let ready0 = Message::new(MessageType::Ready, 3, 0, None).unwrap();
    let ready1 = Message::new(MessageType::Ready, 3, 1, None).unwrap();
    assert_eq!(m.process(Event::ClientMsg(ready0), 2_031).unwrap().len(), 0);
    assert_eq!(m.process(Event::ClientMsg(ready1), 2_032).unwrap().len(), 0);

    // A report is due two cycles after the start.
    assert_eq!(m.context.stats_due, false);
    let _ = m.process(Event::CycleStart(11), 2_050);
    assert_eq!(m.context.stats_due, false);
    let _ = m.process(Event::CycleStart(12), 2_100);
    assert_eq!(m.context.stats_due, true);

    // Shutdown: the server exits once both clients exit.
    let r = m.process(Event::Abort, 3_000).unwrap();
    assert!(r.len() <= 2);
    assert_eq!(m.get_state(), ManagerState::Exiting);
    assert_eq!(m.context.stats.exiting_start_at, Some(3_000));
    let exit0 = Message::new(MessageType::Exit, 3, 0, None).unwrap();
    let r = m.process(Event::ClientMsg(exit0), 3_010).unwrap();
    assert_eq!(r[0].mtype, MessageType::Okay);
    assert_eq!(m.get_state(), ManagerState::Exiting);
    let exit1 = Message::new(MessageType::Exit, 4, 1, None).unwrap();
    let r = m.process(Event::ClientMsg(exit1), 3_020).unwrap();
    assert_eq!(r[0].mtype, MessageType::Okay);
    assert_eq!(r[0].mid, 4);
    assert_eq!(m.get_state(), ManagerState::Exited);
    assert_eq!(m.context.num_active_clients, 0);

    // After exiting: an EXIT is answered, the rest is refused.
    let exit1 = Message::new(MessageType::Exit, 5, 1, None).unwrap();
    let r = m.process(Event::ClientMsg(exit1), 3_030).unwrap();
    assert_eq!(r.len(), 1);
    assert_eq!(r[0].mtype, MessageType::Okay);
    assert_eq!(r[0].mid, 5);
    assert_eq!(
        m.process(Event::CycleStart(20), 3_040).unwrap_err(),
        "already exited, drop cycle_start"
    );
    assert_eq!(
        m.process(Event::Abort, 3_050).unwrap_err(),
        "already exited, drop shutdown"
    );
    let ready1 = Message::new(MessageType::Ready, 6, 1, None).unwrap();
    assert_eq!(
        m.process(Event::ClientMsg(ready1), 3_060).unwrap_err(),
        "already exited, drop READY MID:6 CID:001"
    );
    assert_eq!(m.get_state(), ManagerState::Exited);
}

#[test]
fn event_manager_refuses_unknown_and_server_messages() {
    let mut m = two_client_manager(0);
    let unknown = Message::new(MessageType::Ready, 1, 7, None).unwrap();
    assert_eq!(
        m.process(Event::ClientMsg(unknown), 0).unwrap_err(),
        "unknown client message type=READY, CID:007"
    );
    let ok = Message::new(MessageType::Okay, 3, 1, None).unwrap();
    assert_eq!(
        m.process(Event::ClientMsg(ok), 0).unwrap_err(),
        "not a client message type=OK, CID:001"
    );
    // The request ID of a known client is recorded even when refused.
    assert_eq!(client(&m.context, 1).last_mid, 3);
}

#[test]
fn running_join_is_refused() {
    let mut ctx = create_context_scenarios();
    let r = ManagerProcRunning.on_client_join(&mut ctx, &join_msg(1, 12));
    assert_eq!(r.unwrap_err(), "invalid Join from CID:012");
}

#[test]
fn running_cycle_wraps_to_zero() {
    let mut ctx = create_context_scenarios();
    let proc = ManagerProcRunning;
    proc.enter_state(&mut ctx);
    for i in 0..=3 {
        let _ = ctx.sched.on_ready(i);
    }
    let _ = proc.on_cycle_start(&mut ctx, 0, 0);
    assert_eq!(ctx.running_cycle, 0);
    let _ = proc.on_cycle_start(&mut ctx, 1, 0);
    assert_eq!(ctx.running_cycle, 1);
}

#[test]
fn dump_stats_lines_in_client_order() {
    let configs = vec![
        ClientConfig::new(3, 1, 0, vec![], 0).unwrap(),
        ClientConfig::new(1, 1, 0, vec![], 0).unwrap(),
    ];
    let rules = rules_for(&configs);
    let mut ctx = ManagerContext::new(configs, rules, 2, 0);
    ctx.running_cycle = 7;
    ctx.stats.running_start_at = Some(100);
    {
        let c = client_mut(&mut ctx, 1);
        c.stats.trigger_count = 3;
        c.stats.success_count = 2;
        c.stats.skip_count = 1;
        c.stats.time_sum = 30;
        c.stats.time_min = 10;
        c.stats.time_max = 20;
    }
    let lines = ctx.dump_stats(1000);
    assert_eq!(
        lines,
        vec![
            "[STATS] Server Elapsed: 1000ms (S:100, R:900, E:0), Cycles: 7".to_string(),
            "[STATS] CID:001, Trg: 3 (Ok: 2, Ov: 0, Skip: 1, Late: 0), Time[ms]: Avg 15 (10-20), OvTime[ms]: Avg 0 (0-0)".to_string(),
            "[STATS] CID:003, Trg: 0 (Ok: 0, Ov: 0, Skip: 0, Late: 0), Time[ms]: Avg 0 (0-0), OvTime[ms]: Avg 0 (0-0)".to_string(),
        ]
    );
}

#[test]
fn dump_stats_off_without_interval() {
    let ctx = one_client_context();
    assert!(ctx.dump_stats(10).is_empty());
}

#[test]
fn running_cycle_limit_starts_exiting() {
    let mut ctx = create_context_scenarios();
    let proc = ManagerProcRunning;
    for i in 0..=3 {
        let _ = ctx.sched.on_ready(i);
    }
    // The last cycle before the limit has run.
    ctx.running_cycle = CYCLE_MAX - 1;
    let result = proc.on_cycle_start(&mut ctx, 7, 0).unwrap();
    assert_eq!(ctx.running_cycle, CYCLE_MAX);
    assert_eq!(
        ctx.exit_reason,
        Some(vec![("reason".to_string(), "CycleLimitReached".to_string())])
    );
    assert_eq!(ctx.state, ManagerState::Exiting);
    // Every ready client is told why the server stops.
    assert_eq!(result.len(), 4);
    for m in &result {
        assert_eq!(m.mtype, MessageType::Error);
        assert_eq!(m.get_extra("reason"), Some(&"CycleLimitReached".to_string()));
    }
}
