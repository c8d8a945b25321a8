use metaros::core_system::{CoreSystem, CoreSystemError, ProcessState};

#[test]
fn test_create_process() {
    let mut core_system = CoreSystem::new();
    let result = core_system.create_process();
    assert!(result.is_ok());
    assert_eq!(result.unwrap(), 1);

    let result = core_system.create_process();
    assert!(result.is_ok());
    assert_eq!(result.unwrap(), 2);
}

#[test]
fn test_schedule() {
    let mut core_system = CoreSystem::new();

    // Create two processes
    let _ = core_system.create_process();
    let _ = core_system.create_process();

    // First schedule should set the current process
    let result = core_system.schedule();
    assert!(result.is_ok());
    assert!(core_system.current_process.is_some());
    assert_eq!(core_system.current_process.as_ref().unwrap().id, 1);
    assert_eq!(core_system.current_process.as_ref().unwrap().state, ProcessState::Running);

    // Second schedule should switch to the next process
    let result = core_system.schedule();
    assert!(result.is_ok());
    assert!(core_system.current_process.is_some());
    assert_eq!(core_system.current_process.as_ref().unwrap().id, 2);
    assert_eq!(core_system.current_process.as_ref().unwrap().state, ProcessState::Running);
}

#[test]
fn test_schedule_empty() {
    let mut core_system = CoreSystem::new();

    // Scheduling with no processes should not error
    let result = core_system.schedule();
    assert!(result.is_ok());
    assert!(core_system.current_process.is_none());
}

#[test]
fn test_round_robin_cycle() {
    let mut core_system = CoreSystem::new();
    for _ in 0..3 {
        core_system.create_process().unwrap();
    }
    // Three schedules run each process once, in creation order.
    for expected in 1..=3u32 {
        core_system.schedule().unwrap();
        assert_eq!(core_system.current_process.as_ref().unwrap().id, expected);
        assert_eq!(core_system.current_process.as_ref().unwrap().state, ProcessState::Running);
    }
    // The fourth schedule cycles back to the first process.
    core_system.schedule().unwrap();
    assert_eq!(core_system.current_process.as_ref().unwrap().id, 1);
}

#[test]
fn test_pids_strictly_increasing() {
    let mut core_system = CoreSystem::new();
    let a = core_system.create_process().unwrap();
    core_system.schedule().unwrap();
    let b = core_system.create_process().unwrap();
    core_system.schedule().unwrap();
    let c = core_system.create_process().unwrap();
    assert_eq!(a, 1);
    assert_eq!(b, 2);
    assert_eq!(c, 3);
    assert!(a < b && b < c);
}

#[test]
fn test_requeued_process_goes_to_tail() {
    let mut core_system = CoreSystem::new();
    let _ = core_system.create_process();
    let _ = core_system.create_process();
    core_system.schedule().unwrap();
    // Process 1 is running; the ready queue holds process 2 only.
    assert_eq!(core_system.processes.len(), 1);
    assert_eq!(core_system.processes[0].id, 2);
    core_system.schedule().unwrap();
    // Process 1 was requeued at the tail in Ready state.
    assert_eq!(core_system.processes.len(), 1);
    assert_eq!(core_system.processes[0].id, 1);
    assert_eq!(core_system.processes[0].state, ProcessState::Ready);
}

#[test]
fn test_error_messages() {
    assert_eq!(CoreSystemError::LockError.message(), "Failed to acquire lock");
    assert_eq!(CoreSystemError::ProcessCreationError.message(), "Failed to create process");
    assert_eq!(CoreSystemError::SchedulingError.message(), "Error during scheduling");
}
