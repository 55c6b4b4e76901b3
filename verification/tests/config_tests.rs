use ritsu::config::{ClientConfig, SchedulerConfig, ServerConfig};
use ritsu::message::CLIENT_ID_MAX;

#[test]
fn test_client_config_validation() {
    // Valid config.
    assert!(ClientConfig::new(1, 2, 0, vec![], 0).is_ok());

    // Invalid CID.
    assert!(ClientConfig::new(CLIENT_ID_MAX + 1, 2, 0, vec![], 0).is_err());

    // Invalid cycle.
    assert!(ClientConfig::new(1, 0, 0, vec![], 0).is_err());

    // Invalid offset.
    assert!(ClientConfig::new(1, 2, 2, vec![], 0).is_err());

    // Invalid depends.
    assert!(ClientConfig::new(1, 2, 0, vec![CLIENT_ID_MAX + 1], 0).is_err());

    // Self-dependency.
    assert!(ClientConfig::new(1, 2, 0, vec![1], 0).is_err());

    // Duplicate dependency.
    assert!(ClientConfig::new(1, 2, 0, vec![10, 10], 0).is_err());
}

fn create_config(client_configs: Vec<ClientConfig>) -> SchedulerConfig {
    SchedulerConfig {
        server_config: ServerConfig {
            port: 8080,
            cycle_time_ms: 100,
            stats_interval_cycle: 0,
        },
        client_configs,
    }
}

#[test]
fn test_get_client_rules_valid() {
    let scheduler_config = create_config(vec![
        ClientConfig::new(0, 2, 0, vec![], 0).unwrap(),
        ClientConfig::new(1, 2, 0, vec![0], 0).unwrap(),
        ClientConfig::new(2, 2, 1, vec![1], 0).unwrap(),
    ]);

    let rules = scheduler_config.get_client_rules();
    assert_eq!(rules.len(), 3);
    assert_eq!(rules.get(&0).unwrap().is_floating, false);
    assert_eq!(rules.get(&1).unwrap().is_floating, true);
    assert_eq!(rules.get(&2).unwrap().is_floating, false);
}

#[test]
fn test_get_client_rules_invalid_all_errors() {
    let scheduler_config = create_config(vec![
        ClientConfig::new(0, 2, 0, vec![], 0).unwrap(),
        ClientConfig::new(1, 3, 0, vec![0], 0).unwrap(),
        ClientConfig::new(2, 2, 0, vec![0], 0).unwrap(),
        ClientConfig::new(3, 2, 0, vec![999], 0).unwrap(),
        ClientConfig::new(4, 2, 0, vec![2], 0).unwrap(),
        ClientConfig::new(5, 2, 0, vec![6], 0).unwrap(),
        ClientConfig::new(6, 2, 1, vec![], 0).unwrap(),
    ]);

    let result = scheduler_config.validate();
    assert!(result.is_err());
    let errors = result.err().unwrap();

    assert_eq!(errors.len(), 3);
    assert!(errors.get(&1).unwrap().iter().any(|e| e.contains("different cycle")));
    assert!(errors.get(&3).unwrap().iter().any(|e| e.contains("does not exist")));
    assert!(errors.get(&5).unwrap().iter().any(|e| e.contains("larger cycle_offset")));
}

#[test]
fn test_get_client_rules_duplicate_cid() {
    let scheduler_config = create_config(vec![
        ClientConfig::new(10, 2, 0, vec![], 0).unwrap(),
        ClientConfig::new(10, 2, 0, vec![], 0).unwrap(),
    ]);

    let result = scheduler_config.validate();
    assert!(result.is_err());
    let errors = result.err().unwrap();

    assert_eq!(errors.len(), 1);
    assert!(errors.get(&10).unwrap().iter().any(|e| e.contains("Duplicate client ID")));
}

#[test]
fn test_circular_mutual_dependency() {
    let scheduler_config = create_config(vec![
        ClientConfig::new(100, 1, 0, vec![], 0).unwrap(),
        ClientConfig::new(101, 1, 0, vec![100], 0).unwrap(),
        ClientConfig::new(10, 1, 0, vec![11], 0).unwrap(),
        ClientConfig::new(11, 1, 0, vec![10], 0).unwrap(),
    ]);

    let errors = scheduler_config.validate().err().expect("Should find errors");

    assert!(!errors.contains_key(&100));
    assert!(!errors.contains_key(&101));

    let expected_msg = "Circular dependency detected: 010 -> 011 -> 010";
    assert!(errors.get(&10).unwrap().iter().any(|e| e.contains(expected_msg)));
    assert!(errors.get(&11).unwrap().iter().any(|e| e.contains(expected_msg)));
}

#[test]
fn test_circular_whole_loop() {
    let scheduler_config = create_config(vec![
        ClientConfig::new(100, 1, 0, vec![], 0).unwrap(),
        ClientConfig::new(101, 1, 0, vec![100], 0).unwrap(),
        ClientConfig::new(20, 1, 0, vec![22], 0).unwrap(),
        ClientConfig::new(21, 1, 0, vec![20], 0).unwrap(),
        ClientConfig::new(22, 1, 0, vec![21], 0).unwrap(),
    ]);

    let errors = scheduler_config.validate().err().expect("Should find errors");

    assert!(!errors.contains_key(&100));
    assert!(!errors.contains_key(&101));

    let expected_msg = "Circular dependency detected: 020 -> 022 -> 021 -> 020";
    assert!(errors.get(&20).unwrap().iter().any(|e| e.contains(expected_msg)));
    assert!(errors.get(&21).unwrap().iter().any(|e| e.contains(expected_msg)));
    assert!(errors.get(&22).unwrap().iter().any(|e| e.contains(expected_msg)));
}

#[test]
fn test_circular_mid_path_loop() {
    let scheduler_config = create_config(vec![
        ClientConfig::new(100, 1, 0, vec![], 0).unwrap(),
        ClientConfig::new(101, 1, 0, vec![100], 0).unwrap(),
        ClientConfig::new(30, 1, 0, vec![], 0).unwrap(),
        ClientConfig::new(31, 1, 0, vec![30, 32], 0).unwrap(),
        ClientConfig::new(32, 1, 0, vec![31], 0).unwrap(),
    ]);

    let errors = scheduler_config.validate().err().expect("Should find errors");

    assert!(!errors.contains_key(&100));
    assert!(!errors.contains_key(&101));
    assert!(!errors.contains_key(&30));

    let expected_msg = "Circular dependency detected: 031 -> 032 -> 031";
    assert!(errors.get(&31).unwrap().iter().any(|e| e.contains(expected_msg)));
    assert!(errors.get(&32).unwrap().iter().any(|e| e.contains(expected_msg)));
}

// ---------------------------------------------------------------------------

#[test]
fn client_config_error_text_lists_every_error() {
    let err = ClientConfig::new(1000, 0, 0, vec![1000, 1000], 5).unwrap_err();
    assert_eq!(
        err,
        "[ClientConfig CID:1000] Client ID 1000 is too large, Cycle must not be zero, \
         CycleOffset (0) must be less than trigger cycle (0), Depends CID:1000 is too large, \
         Self-dependency is not allowed (CID:1000), Depends CID:1000 is too large, \
         Self-dependency is not allowed (CID:1000), Duplicate dependency CID:1000"
    );
    let err = ClientConfig::new(7, 3, 5, vec![3, 7], 0).unwrap_err();
    assert_eq!(
        err,
        "[ClientConfig CID:007] CycleOffset (5) must be less than trigger cycle (3), \
         Self-dependency is not allowed (CID:007)"
    );
}

#[test]
fn client_config_new_keeps_fields() {
    let c = ClientConfig::new_with_display_name(5, "cam".to_string(), 4, 3, vec![1, 2], 9).unwrap();
    assert_eq!(c.client_id, 5);
    assert_eq!(c.display_name, "cam");
    assert_eq!(c.cycle, 4);
    assert_eq!(c.cycle_offset, 3);
    assert_eq!(c.depends, vec![1, 2]);
    assert_eq!(c.expected_duration_ms, 9);
    assert!(c.validate().is_empty());
    let d = ClientConfig::new(5, 4, 3, vec![], 0).unwrap();
    assert_eq!(d.display_name, "");
}

#[test]
fn validate_error_texts_per_client() {
    let scheduler_config = create_config(vec![
        ClientConfig::new(0, 2, 1, vec![], 0).unwrap(),
        ClientConfig::new(1, 3, 0, vec![0, 9], 0).unwrap(),
    ]);
    let errors = scheduler_config.validate().unwrap_err();
    assert_eq!(errors.len(), 1);
    assert_eq!(
        errors.get(&1).unwrap(),
        &vec![
            "Dependent process CID:000 has different cycle (2 vs 3)".to_string(),
            "Dependent process CID:000 has larger cycle_offset (1 > 0)".to_string(),
            "Dependent process CID:009 does not exist".to_string(),
        ]
    );
}

#[test]
fn validate_duplicate_replaced_by_own_errors() {
    // A client with its own errors replaces the duplicate report of its ID.
    let mut bad = ClientConfig::new(4, 2, 0, vec![], 0).unwrap();
    bad.cycle_offset = 3;
    let scheduler_config = create_config(vec![ClientConfig::new(4, 2, 0, vec![], 0).unwrap(), bad]);
    let errors = scheduler_config.validate().unwrap_err();
    assert_eq!(
        errors.get(&4).unwrap(),
        &vec!["CycleOffset (3) must be less than trigger cycle (2)".to_string()]
    );
}

#[test]
fn validate_ok_and_cycles_only_within_group() {
    let ok = create_config(vec![
        ClientConfig::new(0, 2, 0, vec![], 0).unwrap(),
        ClientConfig::new(1, 2, 0, vec![0], 0).unwrap(),
        ClientConfig::new(2, 2, 1, vec![1], 0).unwrap(),
    ]);
    assert!(ok.validate().is_ok());

    // A self loop is a cycle of one.
    let mut selfish = ClientConfig::new(5, 1, 0, vec![], 0).unwrap();
    selfish.depends = vec![5];
    let errors = create_config(vec![selfish]).validate().unwrap_err();
    assert_eq!(
        errors.get(&5).unwrap(),
        &vec![
            "Self-dependency is not allowed (CID:005)".to_string(),
            "Circular dependency detected: 005 -> 005".to_string(),
        ]
    );
}

#[test]
fn rules_use_last_duplicate_and_ignore_missing() {
    let scheduler_config = create_config(vec![
        ClientConfig::new(0, 2, 1, vec![], 0).unwrap(),
        ClientConfig::new(0, 2, 0, vec![], 0).unwrap(),
        ClientConfig::new(1, 2, 0, vec![0, 77], 0).unwrap(),
        ClientConfig::new(2, 2, 1, vec![77], 0).unwrap(),
    ]);
    let rules = scheduler_config.get_client_rules();
    assert_eq!(rules.len(), 3);
    assert_eq!(rules.get(&1).unwrap().is_floating, true);
    assert_eq!(rules.get(&1).unwrap().client_id, 1);
    assert_eq!(rules.get(&2).unwrap().is_floating, false);
}

#[test]
fn client_validate_accepts_exactly_valid_fields() {
    assert!(ClientConfig::new(CLIENT_ID_MAX, 3, 2, vec![1, 2], 0).is_ok());
    assert!(ClientConfig::new(CLIENT_ID_MAX + 1, 3, 2, vec![], 0).is_err());
    assert!(ClientConfig::new(5, 0, 0, vec![], 0).is_err());
    assert!(ClientConfig::new(5, 3, 3, vec![], 0).is_err());
    assert!(ClientConfig::new(5, 3, 0, vec![CLIENT_ID_MAX + 1], 0).is_err());
    assert!(ClientConfig::new(5, 3, 0, vec![5], 0).is_err());
    assert!(ClientConfig::new(5, 3, 0, vec![4, 4], 0).is_err());
}

#[test]
fn scheduler_validate_checks_links() {
    let server_config = ServerConfig {
        port: 1,
        cycle_time_ms: 10,
        stats_interval_cycle: 1,
    };
    let ok = SchedulerConfig {
        server_config: server_config.clone(),
        client_configs: vec![
            ClientConfig::new(1, 2, 0, vec![], 0).unwrap(),
            ClientConfig::new(2, 2, 1, vec![1], 0).unwrap(),
        ],
    };
    assert!(ok.validate().is_ok());
    // The dependency has a larger offset.
    let later = SchedulerConfig {
        server_config: server_config.clone(),
        client_configs: vec![
            ClientConfig::new(1, 2, 1, vec![], 0).unwrap(),
            ClientConfig::new(2, 2, 0, vec![1], 0).unwrap(),
        ],
    };
    assert!(later.validate().unwrap_err().contains_key(&2));
    // A different cycle.
    let other = SchedulerConfig {
        server_config,
        client_configs: vec![
            ClientConfig::new(1, 3, 0, vec![], 0).unwrap(),
            ClientConfig::new(2, 2, 0, vec![1], 0).unwrap(),
        ],
    };
    assert!(other.validate().unwrap_err().contains_key(&2));
}
