use vector_engine::resharding::{
    first_step, next_step, run_task, DriveOutcome, ReshardKey, ReshardStage, ReshardState,
    ShardKey, TaskStep, MAX_RETRY_COUNT, RETRY_DELAY_MILLIS,
};

#[test]
fn reshard_state_starts_migrating_and_knows_its_key() {
    let state = ReshardState::new(7, 3, Some(ShardKey::Keyword("eu".to_string())));
    assert_eq!(state.stage, ReshardStage::MigratingPoints);
    assert_eq!(ReshardStage::default(), ReshardStage::MigratingPoints);
    let key = state.key();
    assert_eq!(
        key,
        ReshardKey { peer_id: 7, shard_id: 3, shard_key: Some(ShardKey::Keyword("eu".to_string())) }
    );
    assert!(state.matches(&key));
    assert!(!state.matches(&ReshardKey { peer_id: 8, ..key.clone() }));
    assert!(!state.matches(&ReshardKey { shard_id: 4, ..key.clone() }));
    assert!(!state.matches(&ReshardKey { shard_key: None, ..key.clone() }));
    assert!(!state.matches(&ReshardKey { shard_key: Some(ShardKey::Number(1)), ..key.clone() }));
    assert!(!state.matches(&ReshardKey {
        shard_key: Some(ShardKey::Keyword("us".to_string())),
        ..key.clone()
    }));
    let plain = ReshardState::new(1, 2, None);
    assert!(plain.matches(&plain.key()));
    let numbered = ReshardState::new(1, 2, Some(ShardKey::Number(5)));
    assert!(numbered.matches(&numbered.key()));
    assert!(!numbered.matches(&plain.key()));
}

#[test]
fn stages_follow_each_other() {
    assert_eq!(ReshardStage::MigratingPoints.next(), Some(ReshardStage::ReadHashRingCommitted));
    assert_eq!(
        ReshardStage::ReadHashRingCommitted.next(),
        Some(ReshardStage::WriteHashRingCommitted)
    );
    assert_eq!(ReshardStage::WriteHashRingCommitted.next(), None);
    assert!(ReshardStage::MigratingPoints < ReshardStage::WriteHashRingCommitted);
}

#[test]
fn driver_is_tried_again_with_growing_pauses() {
    assert_eq!(MAX_RETRY_COUNT, 3);
    assert_eq!(first_step(), TaskStep::Drive { attempt: 0, delay_millis: 0 });
    assert_eq!(
        next_step(0, DriveOutcome::Failed),
        TaskStep::Drive { attempt: 1, delay_millis: RETRY_DELAY_MILLIS }
    );
    assert_eq!(
        next_step(1, DriveOutcome::Failed),
        TaskStep::Drive { attempt: 2, delay_millis: 2 * RETRY_DELAY_MILLIS }
    );
    assert_eq!(
        next_step(2, DriveOutcome::Failed),
        TaskStep::Stop { on_finish: false, on_error: true, result: false }
    );
    for attempt in 0..3 {
        assert_eq!(
            next_step(attempt, DriveOutcome::Done(true)),
            TaskStep::Stop { on_finish: true, on_error: false, result: true }
        );
        let silent = TaskStep::Stop { on_finish: false, on_error: false, result: false };
        assert_eq!(next_step(attempt, DriveOutcome::Done(false)), silent);
        assert_eq!(next_step(attempt, DriveOutcome::Cancelled), silent);
    }
}

#[test]
fn driver_that_fails_twice_then_succeeds_finishes_once() {
    let report = run_task(&vec![DriveOutcome::Failed, DriveOutcome::Failed, DriveOutcome::Done(true)]);
    assert_eq!(report.delays, vec![0, RETRY_DELAY_MILLIS, 2 * RETRY_DELAY_MILLIS]);
    assert_eq!((report.finished, report.failed, report.result), (1, 0, true));
}

#[test]
fn task_ends_by_what_the_driver_says() {
    let failed = run_task(&vec![DriveOutcome::Failed; 5]);
    assert_eq!(failed.delays, vec![0, 1000, 2000]);
    assert_eq!((failed.finished, failed.failed, failed.result), (0, 1, false));
    let at_once = run_task(&vec![DriveOutcome::Done(true), DriveOutcome::Failed]);
    assert_eq!(at_once.delays, vec![0]);
    assert_eq!((at_once.finished, at_once.failed, at_once.result), (1, 0, true));
    let cancelled = run_task(&vec![DriveOutcome::Failed, DriveOutcome::Cancelled, DriveOutcome::Done(true)]);
    assert_eq!(cancelled.delays, vec![0, 1000]);
    assert_eq!((cancelled.finished, cancelled.failed, cancelled.result), (0, 0, false));
    let declined = run_task(&vec![DriveOutcome::Done(false)]);
    assert_eq!((declined.finished, declined.failed, declined.result), (0, 0, false));
    let idle = run_task(&vec![]);
    assert!(idle.delays.is_empty());
    assert_eq!((idle.finished, idle.failed, idle.result), (0, 0, false));
}
