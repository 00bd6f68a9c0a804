use iot_metrics::sync::{
    failure_is_ignored, plan_sync_apply, should_sync, sync_step, ApplyStep, SyncAction, SyncEvent,
    SyncState, NORMAL_SYNC_INTERVAL_SECS,
};

fn is_state(s: &SyncState, name: &str) -> bool {
    matches!(
        (s, name),
        (SyncState::Waiting, "waiting")
            | (SyncState::Fetching, "fetching")
            | (SyncState::Sending { .. }, "sending")
            | (SyncState::MarkingReadings { .. }, "marking_readings")
            | (SyncState::MarkingMetrics { .. }, "marking_metrics")
    )
}

#[test]
fn poll_decision() {
    assert!(should_sync(true, 0));
    assert!(!should_sync(false, 59));
    assert!(should_sync(false, 60));
    assert_eq!(NORMAL_SYNC_INTERVAL_SECS, 60);
}

#[test]
fn quiet_poll_sleeps() {
    let (s, a) = sync_step(SyncState::Waiting, SyncEvent::Tick { has_alerts: false, secs_since_last_sync: 10 });
    assert!(is_state(&s, "waiting"));
    assert!(matches!(a, SyncAction::Sleep));
}

#[test]
fn full_successful_round() {
    let (s, a) = sync_step(SyncState::Waiting, SyncEvent::Tick { has_alerts: true, secs_since_last_sync: 1 });
    assert!(is_state(&s, "fetching") && matches!(a, SyncAction::FetchUnsynced));
    let (s, a) = sync_step(s, SyncEvent::Fetched { reading_ids: vec![1, 2], metric_ids: vec![3] });
    assert!(is_state(&s, "sending") && matches!(a, SyncAction::Send));
    let (s, a) = sync_step(s, SyncEvent::Delivered { success: true });
    assert!(is_state(&s, "marking_readings"));
    match a {
        SyncAction::MarkReadingsSynced(ids) => assert_eq!(ids, vec![1, 2]),
        _ => panic!("expected readings to be marked"),
    }
    let (s, a) = sync_step(s, SyncEvent::Marked);
    assert!(is_state(&s, "marking_metrics"));
    match a {
        SyncAction::MarkMetricsSynced(ids) => assert_eq!(ids, vec![3]),
        _ => panic!("expected metrics to be marked"),
    }
    let (s, a) = sync_step(s, SyncEvent::Marked);
    assert!(is_state(&s, "waiting"));
    assert!(matches!(a, SyncAction::Completed(3)));
}

#[test]
fn round_with_only_metrics() {
    let (s, _) = sync_step(SyncState::Fetching, SyncEvent::Fetched { reading_ids: vec![], metric_ids: vec![9, 8] });
    let (s, a) = sync_step(s, SyncEvent::Delivered { success: true });
    assert!(is_state(&s, "marking_metrics"));
    assert!(matches!(a, SyncAction::MarkMetricsSynced(ref ids) if ids == &vec![9, 8]));
    let (_, a) = sync_step(s, SyncEvent::Marked);
    assert!(matches!(a, SyncAction::Completed(2)));
}

#[test]
fn nothing_to_sync_completes_with_zero() {
    let (s, a) = sync_step(SyncState::Fetching, SyncEvent::Fetched { reading_ids: vec![], metric_ids: vec![] });
    assert!(is_state(&s, "waiting"));
    assert!(matches!(a, SyncAction::Completed(0)));
}

#[test]
fn refused_delivery_aborts_without_marking() {
    let (s, _) = sync_step(SyncState::Fetching, SyncEvent::Fetched { reading_ids: vec![5], metric_ids: vec![] });
    let (s, a) = sync_step(s, SyncEvent::Delivered { success: false });
    assert!(is_state(&s, "waiting"));
    assert!(matches!(a, SyncAction::Aborted));
}

#[test]
fn failures_abort_the_round() {
    let (s, a) = sync_step(SyncState::Fetching, SyncEvent::Failed);
    assert!(is_state(&s, "waiting") && matches!(a, SyncAction::Aborted));
    let (s, a) = sync_step(SyncState::MarkingReadings { metric_ids: vec![1], total: 2 }, SyncEvent::Failed);
    assert!(is_state(&s, "waiting") && matches!(a, SyncAction::Aborted));
    let (s, a) = sync_step(SyncState::Waiting, SyncEvent::Failed);
    assert!(is_state(&s, "waiting") && matches!(a, SyncAction::Sleep));
}

#[test]
fn apply_plan_order() {
    let plan = plan_sync_apply(2, 1);
    assert_eq!(
        plan,
        vec![
            ApplyStep::EnsureStation(0),
            ApplyStep::EnsureEdge(0),
            ApplyStep::EnsureSensor(0),
            ApplyStep::EnsureStation(1),
            ApplyStep::EnsureEdge(1),
            ApplyStep::EnsureSensor(1),
            ApplyStep::InsertReading(0),
            ApplyStep::InsertReading(1),
            ApplyStep::InsertMetric(0),
        ]
    );
    assert!(plan_sync_apply(0, 0).is_empty());
    assert!(failure_is_ignored(&ApplyStep::EnsureEdge(3)));
    assert!(!failure_is_ignored(&ApplyStep::InsertReading(0)));
    assert!(!failure_is_ignored(&ApplyStep::InsertMetric(0)));
}
