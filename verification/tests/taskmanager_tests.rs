use vkqueue::taskmanager::{FailureKind, SchedulerError, TaskManager, TaskState};

#[test]
fn total_counts_successful_enqueues() {
    let mut tm = TaskManager::new();
    assert_eq!(tm.add_task(0, vec![]), Ok(0));
    assert_eq!(tm.add_task(1, vec![0]), Ok(1));
    // the next id would be 2; depending on it is a self-cycle
    assert_eq!(tm.add_task(2, vec![2]), Err(SchedulerError::DependencyCycle));
    let (completed, total) = tm.get_progress();
    assert_eq!(total, 2);
    assert_eq!(completed, 0);
}

#[test]
fn self_dependency_rejected() {
    let mut tm = TaskManager::new();
    assert_eq!(tm.add_task(0, vec![0]), Err(SchedulerError::DependencyCycle));
    let (_, total) = tm.get_progress();
    assert_eq!(total, 0);
}

#[test]
fn cycle_through_forward_dependency() {
    let mut tm = TaskManager::new();
    // task 0 declares a dependency on the not-yet-assigned id 1
    assert_eq!(tm.add_task(0, vec![1]), Ok(0));
    // registering id 1 with a dependency on 0 would close the cycle 0 -> 1 -> 0
    assert_eq!(tm.add_task(0, vec![0]), Err(SchedulerError::DependencyCycle));
    let (_, total) = tm.get_progress();
    assert_eq!(total, 1);
}

#[test]
fn forward_dependency_blocks_until_registered_and_completed() {
    let mut tm = TaskManager::new();
    assert_eq!(tm.add_task(0, vec![1]), Ok(0));
    // id 1 does not exist yet: task 0 is blocked
    assert_eq!(tm.pop_ready(), None);
    assert_eq!(tm.add_task(0, vec![]), Ok(1));
    // only task 1 is ready
    assert_eq!(tm.pop_ready(), Some(1));
    assert_eq!(tm.pop_ready(), None);
    assert!(tm.complete_task(1, true));
    assert_eq!(tm.pop_ready(), Some(0));
}

#[test]
fn cancel_is_idempotent() {
    let mut tm = TaskManager::new();
    let a = tm.add_task(0, vec![]).unwrap();
    assert!(tm.cancel_task(a));
    assert!(!tm.cancel_task(a));
    assert!(!tm.cancel_task(a));
    assert!(!tm.cancel_task(99));
    assert_eq!(tm.task_state(a), Some(TaskState::Cancelled));
}

#[test]
fn cancel_only_works_while_queued() {
    let mut tm = TaskManager::new();
    let a = tm.add_task(0, vec![]).unwrap();
    assert_eq!(tm.pop_ready(), Some(a));
    // already running: too late to cancel
    assert!(!tm.cancel_task(a));
    assert!(tm.complete_task(a, true));
    assert!(!tm.cancel_task(a));
}

#[test]
fn lower_priority_value_pops_first() {
    for _ in 0..10 {
        let mut tm = TaskManager::new();
        let a = tm.add_task(5, vec![]).unwrap();
        let b = tm.add_task(1, vec![]).unwrap();
        assert_eq!(tm.pop_ready(), Some(b));
        assert_eq!(tm.pop_ready(), Some(a));
        assert_eq!(tm.pop_ready(), None);
    }
}

#[test]
fn equal_priority_ties_break_by_id() {
    let mut tm = TaskManager::new();
    let a = tm.add_task(3, vec![]).unwrap();
    let b = tm.add_task(3, vec![]).unwrap();
    assert!(a < b);
    assert_eq!(tm.pop_ready(), Some(a));
    assert_eq!(tm.pop_ready(), Some(b));
}

#[test]
fn blocked_task_waits_despite_better_priority() {
    // A has the worse priority value but B depends on A, so the observed
    // order with a single worker is A then B.
    let mut tm = TaskManager::new();
    let a = tm.add_task(5, vec![]).unwrap();
    let b = tm.add_task(1, vec![a]).unwrap();
    assert_eq!(tm.pop_ready(), Some(a));
    assert_eq!(tm.pop_ready(), None);
    assert!(tm.complete_task(a, true));
    assert_eq!(tm.pop_ready(), Some(b));
    assert_eq!(tm.task_state(b), Some(TaskState::Running));
}

#[test]
fn cancel_propagates_to_transitive_dependents() {
    let mut tm = TaskManager::new();
    let a = tm.add_task(0, vec![]).unwrap();
    let b = tm.add_task(0, vec![a]).unwrap();
    let c = tm.add_task(0, vec![b]).unwrap();
    let d = tm.add_task(0, vec![]).unwrap();
    assert!(tm.cancel_task(a));
    assert_eq!(tm.task_state(a), Some(TaskState::Cancelled));
    assert_eq!(
        tm.task_state(b),
        Some(TaskState::Failed(FailureKind::DependencyCancelled))
    );
    assert_eq!(
        tm.task_state(c),
        Some(TaskState::Failed(FailureKind::DependencyCancelled))
    );
    assert_eq!(tm.task_state(d), Some(TaskState::Queued));
    let (completed, total) = tm.get_progress();
    assert_eq!((completed, total), (3, 4));
}

#[test]
fn enqueue_on_cancelled_dependency_fails_fast() {
    let mut tm = TaskManager::new();
    let a = tm.add_task(0, vec![]).unwrap();
    assert!(tm.cancel_task(a));
    let d = tm.add_task(0, vec![a]).unwrap();
    assert_eq!(
        tm.task_state(d),
        Some(TaskState::Failed(FailureKind::DependencyCancelled))
    );
    assert_eq!(tm.pop_ready(), None);
}

#[test]
fn shutdown_rejects_new_tasks_but_drains_ready_work() {
    let mut tm = TaskManager::new();
    let a = tm.add_task(0, vec![]).unwrap();
    assert!(!tm.is_closed());
    tm.shutdown();
    assert!(tm.is_closed());
    assert_eq!(tm.add_task(0, vec![]), Err(SchedulerError::SchedulerClosed));
    // already queued ready work still drains
    assert_eq!(tm.pop_ready(), Some(a));
}

#[test]
fn action_failure_is_isolated() {
    let mut tm = TaskManager::new();
    let a = tm.add_task(0, vec![]).unwrap();
    let b = tm.add_task(0, vec![a]).unwrap();
    let c = tm.add_task(0, vec![]).unwrap();
    assert_eq!(tm.pop_ready(), Some(a));
    assert!(tm.complete_task(a, false));
    assert_eq!(tm.task_state(a), Some(TaskState::Failed(FailureKind::ActionFailed)));
    // b's dependency will never complete, but other work is unaffected
    assert_eq!(tm.task_state(b), Some(TaskState::Queued));
    assert_eq!(tm.pop_ready(), Some(c));
    assert!(tm.complete_task(c, true));
    assert_eq!(tm.pop_ready(), None);
    let (completed, total) = tm.get_progress();
    assert_eq!((completed, total), (2, 3));
}

#[test]
fn complete_applies_only_to_running_tasks() {
    let mut tm = TaskManager::new();
    let a = tm.add_task(0, vec![]).unwrap();
    assert!(!tm.complete_task(a, true));
    assert!(!tm.complete_task(7, true));
    assert_eq!(tm.pop_ready(), Some(a));
    assert!(tm.complete_task(a, true));
    assert!(!tm.complete_task(a, true));
    assert_eq!(tm.task_state(a), Some(TaskState::Completed));
}

#[test]
fn progress_counts_are_monotone() {
    let mut tm = TaskManager::new();
    let mut last = (0usize, 0usize);
    for i in 0..5 {
        tm.add_task(i, vec![]).unwrap();
        let p = tm.get_progress();
        assert!(p.0 >= last.0 && p.1 >= last.1 && p.0 <= p.1);
        last = p;
    }
    while let Some(id) = tm.pop_ready() {
        tm.complete_task(id, true);
        let p = tm.get_progress();
        assert!(p.0 >= last.0 && p.1 >= last.1 && p.0 <= p.1);
        last = p;
    }
    assert_eq!(last, (5, 5));
}

#[test]
fn duplicate_dependencies_are_harmless() {
    let mut tm = TaskManager::new();
    let a = tm.add_task(0, vec![]).unwrap();
    let b = tm.add_task(0, vec![a, a, a]).unwrap();
    assert_eq!(tm.pop_ready(), Some(a));
    assert!(tm.complete_task(a, true));
    assert_eq!(tm.pop_ready(), Some(b));
}
