use ritsu::entry::{ProcessEntry, ProcessState};

fn status(entry: &ProcessEntry, cid: u16) -> Option<bool> {
    entry.dependency_statuses.iter().find(|x| x.0 == cid).map(|x| x.1)
}

#[test]
fn entry_test_test_new() {
    // cycle trigger.
    let entry = ProcessEntry::new(1, &vec![], false);
    assert_eq!(entry.cid, 1);
    assert_eq!(entry.state, ProcessState::Idle);
    assert_eq!(entry.dependency_statuses.len(), 0);
    assert_eq!(entry.is_floating, false);

    // depends trigger.
    let entry = ProcessEntry::new(2, &vec![1, 3], true);
    assert_eq!(entry.cid, 2);
    assert_eq!(entry.state, ProcessState::Idle);
    assert_eq!(entry.dependency_statuses.len(), 2);
    assert_eq!(status(&entry, 0), None);
    assert_eq!(status(&entry, 1), Some(false));
    assert_eq!(status(&entry, 3), Some(false));
    assert_eq!(entry.is_floating, true);
}

#[test]
fn test_set_state() {
    let mut entry = ProcessEntry::new(1, &vec![], false);
    assert_eq!(entry.state, ProcessState::Idle);

    entry.state = ProcessState::Idle;
    assert!(entry.set_state(ProcessState::Ready));
    assert!(entry.set_state(ProcessState::Running));
    assert!(entry.set_state(ProcessState::Idle));

    entry.state = ProcessState::Ready;
    assert!(entry.set_state(ProcessState::Running));
    assert!(entry.set_state(ProcessState::Overrun));
    assert!(entry.set_state(ProcessState::Late));
    assert!(entry.set_state(ProcessState::Idle));
    assert!(entry.set_state(ProcessState::Ready));

    entry.state = ProcessState::Idle;
    assert!(entry.set_state(ProcessState::Late));
    assert!(entry.set_state(ProcessState::Idle));
    assert!(entry.set_state(ProcessState::Ready));

    entry.state = ProcessState::Ready;
    assert!(entry.set_state(ProcessState::Skip));
    assert!(entry.set_state(ProcessState::Ready));

    entry.state = ProcessState::Ready;
    assert!(!entry.set_state(ProcessState::Overrun));
    assert!(!entry.set_state(ProcessState::Late));

    entry.state = ProcessState::Running;
    assert!(!entry.set_state(ProcessState::Ready));
    assert!(!entry.set_state(ProcessState::Late));
}

#[test]
fn test_is_dependent() {
    let entry = ProcessEntry::new(1, &vec![], false);
    assert_eq!(entry.is_dependent(), false);

    let entry = ProcessEntry::new(2, &vec![1, 3], true);
    assert_eq!(entry.is_dependent(), true);
}

#[test]
fn test_is_dependency_met() {
    let entry = ProcessEntry::new(1, &vec![], false);
    assert_eq!(entry.is_dependency_met(), true);

    let mut entry = ProcessEntry::new(2, &vec![1, 3], true);
    assert_eq!(entry.is_dependency_met(), false);

    entry.mark_dependency_complete(1);
    assert_eq!(entry.is_dependency_met(), false);

    entry.mark_dependency_complete(3);
    assert_eq!(entry.is_dependency_met(), true);
}

#[test]
fn test_mark_dependency_complete() {
    let mut entry = ProcessEntry::new(1, &vec![], false);
    entry.mark_dependency_complete(3);
    assert_eq!(entry.is_dependency_met(), true);

    let mut entry = ProcessEntry::new(2, &vec![1, 3], true);
    assert_eq!(entry.is_dependency_met(), false);

    entry.mark_dependency_complete(1);
    assert_eq!(entry.is_dependency_met(), false);

    entry.mark_dependency_complete(2);
    assert_eq!(entry.is_dependency_met(), false);

    entry.mark_dependency_complete(3);
    assert_eq!(entry.is_dependency_met(), true);
}

#[test]
fn test_reset_dependency_statuses() {
    let mut entry = ProcessEntry::new(1, &vec![], false);
    entry.reset_dependency_statuses();
    assert_eq!(entry.is_dependency_met(), true);

    let mut entry = ProcessEntry::new(2, &vec![1, 3], true);
    entry.mark_dependency_complete(1);
    entry.mark_dependency_complete(3);
    assert_eq!(entry.is_dependency_met(), true);

    entry.reset_dependency_statuses();
    assert_eq!(entry.is_dependency_met(), false);
    assert_eq!(entry.dependency_statuses.len(), 2);
}

// ---------------------------------------------------------------------------

#[test]
fn entry_mark_twice_and_reset() {
    let mut entry = ProcessEntry::new(4, &vec![7, 8], true);
    assert!(entry.mark_dependency_complete(7));
    assert!(!entry.mark_dependency_complete(7));
    assert_eq!(entry.unmet_dependencies, 1);
    assert!(!entry.mark_dependency_complete(9));
    entry.state = ProcessState::Running;
    entry.reset();
    assert_eq!(entry.get_state(), ProcessState::Idle);
    assert_eq!(entry.unmet_dependencies, 2);
    assert_eq!(status(&entry, 7), Some(false));
    assert_eq!(entry.get_cid(), 4);
    assert!(entry.is_floating());
}
