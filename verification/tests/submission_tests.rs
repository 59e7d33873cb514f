use vkqueue::submission::{
    DeviceOutcome, SubmissionCoordinator, SubmissionError, SubmitAction,
};

/// Drive the protocol against a scripted device: `answer` maps each action to
/// its outcome.  Returns the sequence of actions the coordinator requested
/// and the final result.
fn drive(
    lanes: usize,
    mut answer: impl FnMut(SubmitAction) -> DeviceOutcome,
) -> (Vec<SubmitAction>, Result<(), SubmissionError>) {
    let mut coord = SubmissionCoordinator::new(lanes);
    let mut log = Vec::new();
    while let Some(action) = coord.next_action() {
        log.push(action);
        let outcome = answer(action);
        coord.note_result(outcome);
        assert!(log.len() <= 4 * lanes + 16, "protocol does not terminate");
    }
    (log, coord.outcome().unwrap())
}

fn waits_in(log: &[SubmitAction]) -> Vec<usize> {
    let mut waited = Vec::new();
    for a in log {
        if let SubmitAction::WaitLaneFence { lane } = a {
            waited.push(*lane);
        }
    }
    waited
}

#[test]
fn zero_lanes_is_trivially_ok() {
    let coord = SubmissionCoordinator::new(0);
    assert_eq!(coord.next_action(), None);
    assert_eq!(coord.outcome(), Some(Ok(())));
    assert_eq!(coord.lane_count(), 0);
    assert_eq!(coord.lanes_created(), 0);
    assert_eq!(coord.lanes_waited(), 0);
}

#[test]
fn three_lanes_full_protocol_order() {
    let (log, result) = drive(3, |_| DeviceOutcome::Success);
    assert_eq!(result, Ok(()));
    let expected = vec![
        SubmitAction::ResetPool,
        SubmitAction::CreateLaneSync { lane: 0 },
        SubmitAction::CreateLaneSync { lane: 1 },
        SubmitAction::CreateLaneSync { lane: 2 },
        SubmitAction::DispatchLane { lane: 0 },
        SubmitAction::DispatchLane { lane: 1 },
        SubmitAction::DispatchLane { lane: 2 },
        SubmitAction::SubmitBarrier,
        SubmitAction::WaitLaneFence { lane: 0 },
        SubmitAction::WaitLaneFence { lane: 1 },
        SubmitAction::WaitLaneFence { lane: 2 },
    ];
    assert_eq!(log, expected);
}

#[test]
fn empty_lane_still_dispatched_and_waited() {
    // Lane 1's generator yields no command buffers; the lane is still given
    // its synchronization objects, dispatched (as a no-op) and waited on.
    let buffer_counts = [2usize, 0, 3];
    let mut dispatched_counts = Vec::new();
    let (log, result) = drive(3, |action| {
        if let SubmitAction::DispatchLane { lane } = action {
            dispatched_counts.push(buffer_counts[lane]);
        }
        DeviceOutcome::Success
    });
    assert_eq!(result, Ok(()));
    assert_eq!(dispatched_counts, vec![2, 0, 3]);
    assert!(log.contains(&SubmitAction::CreateLaneSync { lane: 1 }));
    assert!(log.contains(&SubmitAction::DispatchLane { lane: 1 }));
    assert_eq!(waits_in(&log), vec![0, 1, 2]);
}

#[test]
fn fence_timeout_still_waits_every_other_lane() {
    let (log, result) = drive(3, |action| match action {
        SubmitAction::WaitLaneFence { lane: 1 } => DeviceOutcome::Timeout,
        _ => DeviceOutcome::Success,
    });
    // every lane's fence received its wait, and only then did the call fail
    assert_eq!(waits_in(&log), vec![0, 1, 2]);
    assert_eq!(result, Err(SubmissionError::FenceTimeout));
    assert_eq!(log.last(), Some(&SubmitAction::WaitLaneFence { lane: 2 }));
}

#[test]
fn dispatch_error_skips_barrier_but_waits_all() {
    let (log, result) = drive(3, |action| match action {
        SubmitAction::DispatchLane { lane: 1 } => DeviceOutcome::Error(-4),
        _ => DeviceOutcome::Success,
    });
    assert!(!log.contains(&SubmitAction::SubmitBarrier));
    assert_eq!(waits_in(&log), vec![0, 1, 2]);
    assert_eq!(result, Err(SubmissionError::DeviceOperationFailed(-4)));
}

#[test]
fn first_error_encountered_is_reported() {
    let (log, result) = drive(3, |action| match action {
        SubmitAction::DispatchLane { lane: 0 } => DeviceOutcome::Error(-1),
        SubmitAction::WaitLaneFence { lane: 2 } => DeviceOutcome::Timeout,
        _ => DeviceOutcome::Success,
    });
    assert_eq!(waits_in(&log), vec![0, 1, 2]);
    assert_eq!(result, Err(SubmissionError::DeviceOperationFailed(-1)));
}

#[test]
fn reset_failure_ends_the_call_before_any_lane_exists() {
    let (log, result) = drive(2, |action| match action {
        SubmitAction::ResetPool => DeviceOutcome::Error(-3),
        _ => DeviceOutcome::Success,
    });
    assert_eq!(log, vec![SubmitAction::ResetPool]);
    assert_eq!(result, Err(SubmissionError::DeviceOperationFailed(-3)));
}

#[test]
fn create_failure_still_waits_already_created_lanes() {
    let (log, result) = drive(3, |action| match action {
        SubmitAction::CreateLaneSync { lane: 1 } => DeviceOutcome::Error(-2),
        _ => DeviceOutcome::Success,
    });
    // lane 0 was created, so its fence is owed a wait; nothing is dispatched
    assert!(!log.iter().any(|a| matches!(a, SubmitAction::DispatchLane { .. })));
    assert!(!log.contains(&SubmitAction::SubmitBarrier));
    assert_eq!(waits_in(&log), vec![0]);
    assert_eq!(result, Err(SubmissionError::DeviceOperationFailed(-2)));
}
