use arcanum::monitor::{
    enqueue_target, should_resume, skill_message, MonitorLoop, MonitorStep, SubscribeOutcome,
    ENQUEUE_KEY,
};

#[test]
fn first_snapshot_without_baseline_injects() {
    let mut m = MonitorLoop::new(None, 100);
    assert_eq!(m.on_outcome(SubscribeOutcome::Snapshot(5), true), MonitorStep::Inject { total: 5 });
    assert_eq!(m.seen, Some(5));
    assert_eq!(m.base, None);
    m.on_injected(5);
    assert_eq!(m.base, Some(5));
}

#[test]
fn reinjects_only_past_the_threshold() {
    let mut m = MonitorLoop::new(Some(1000), 500);
    assert_eq!(m.on_outcome(SubscribeOutcome::Snapshot(1500), true), MonitorStep::Hold);
    assert_eq!(m.base, Some(1000));
    assert_eq!(m.seen, Some(1500));
    assert_eq!(
        m.on_outcome(SubscribeOutcome::Snapshot(1501), true),
        MonitorStep::Inject { total: 1501 }
    );
    // A failed read leaves the baseline put: the next tick retries.
    assert_eq!(
        m.on_outcome(SubscribeOutcome::Snapshot(1600), true),
        MonitorStep::Inject { total: 1600 }
    );
    m.on_injected(1600);
    assert_eq!(m.on_outcome(SubscribeOutcome::Snapshot(2100), true), MonitorStep::Hold);
    assert_eq!(
        m.on_outcome(SubscribeOutcome::Snapshot(2101), true),
        MonitorStep::Inject { total: 2101 }
    );
}

#[test]
fn no_skill_advances_the_baseline_quietly() {
    let mut m = MonitorLoop::new(Some(10), 1);
    assert_eq!(
        m.on_outcome(SubscribeOutcome::Snapshot(400), false),
        MonitorStep::Advance { total: 400 }
    );
    assert_eq!(m.base, Some(400));
    assert_eq!(m.seen, Some(400));
}

#[test]
fn inactive_and_ended_stop() {
    let mut m = MonitorLoop::new(Some(1), 1);
    assert_eq!(m.on_outcome(SubscribeOutcome::Inactive, true), MonitorStep::Stop { delete_row: true });
    assert_eq!(m.on_outcome(SubscribeOutcome::Ended, false), MonitorStep::Stop { delete_row: false });
    assert_eq!(m.base, Some(1));
    assert_eq!(m.seen, Some(1));
}

#[test]
fn extreme_counts_do_not_overflow() {
    let mut m = MonitorLoop::new(Some(i64::MIN), 0);
    assert_eq!(
        m.on_outcome(SubscribeOutcome::Snapshot(i64::MAX), true),
        MonitorStep::Inject { total: i64::MAX }
    );
}

#[test]
fn resume_needs_a_baseline_and_no_loop() {
    assert!(should_resume(false, Some(0)));
    assert!(!should_resume(true, Some(0)));
    assert!(!should_resume(false, None));
}

#[test]
fn enqueue_target_splits_at_the_last_slash() {
    assert_eq!(
        enqueue_target("root/child/leaf"),
        (Some("root/child".to_string()), "leaf".to_string())
    );
    assert_eq!(enqueue_target("solo"), (None, "solo".to_string()));
    assert_eq!(enqueue_target("/x"), (Some(String::new()), "x".to_string()));
}

#[test]
fn skill_message_wraps_the_content() {
    assert_eq!(skill_message("Greeting skill"), "<arcanum>\nGreeting skill\n</arcanum>");
    assert_eq!(ENQUEUE_KEY, "arcanum-skill");
}
