use metaros::scheduler::Scheduler;

#[test]
fn test_scheduler() {
    let mut scheduler = Scheduler::new();

    let task1 = scheduler.add_task(1, 10_000);
    let task2 = scheduler.add_task(2, 5_000);
    let task3 = scheduler.add_task(1, 1_000);

    assert_eq!(scheduler.get_next_task().unwrap().id, task2);
    assert_eq!(scheduler.get_next_task().unwrap().id, task3);
    assert_eq!(scheduler.get_next_task().unwrap().id, task1);
    assert!(scheduler.get_next_task().is_none());
}

#[test]
fn test_get_next_task_empty() {
    let mut scheduler = Scheduler::new();
    assert!(scheduler.get_next_task().is_none());
    let id = scheduler.add_task(7, 100);
    assert_eq!(scheduler.get_next_task().unwrap().id, id);
    assert!(scheduler.get_next_task().is_none());
}

#[test]
fn test_task_id_tiebreak() {
    let mut scheduler = Scheduler::new();
    // Equal priorities and equal relative deadlines: the earlier-assigned
    // task is stamped no later, so it is extracted first; a deadline tie
    // falls back to the smaller id, which picks the same task.
    let first = scheduler.add_task(3, 5_000);
    let second = scheduler.add_task(3, 5_000);
    assert_eq!(scheduler.get_next_task().unwrap().id, first);
    assert_eq!(scheduler.get_next_task().unwrap().id, second);
}

#[test]
fn test_task_ids_monotonic() {
    let mut scheduler = Scheduler::new();
    let a = scheduler.add_task(0, 1);
    let b = scheduler.add_task(255, 2);
    let c = scheduler.add_task(128, 3);
    assert_eq!((a, b, c), (1, 2, 3));
}
