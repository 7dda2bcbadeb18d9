use iris::cleanup::{
    cutoff_for, CleanupPass, CleanupReport, CleanupStep, CleanupTask, CHECK_INTERVAL_SECS,
};
use iris::config::StorageConfig;
use std::sync::atomic::Ordering;

fn ids(names: &[&str]) -> Vec<String> {
    names.iter().map(|name| name.to_string()).collect()
}

#[test]
fn cutoff_is_the_present_less_the_retention_time() {
    assert_eq!(cutoff_for(1_700_000_000, 5), 1_700_000_000 - 5 * 86400);
    assert_eq!(cutoff_for(1_700_000_000, 0), 1_700_000_000);
    assert_eq!(cutoff_for(0, 1), -86400);
    assert_eq!(cutoff_for(-100, 1), -86500);
    assert_eq!(cutoff_for(i64::MAX, 1), i64::MAX - 86400);
}

#[test]
fn cutoff_stops_at_the_smallest_timestamp() {
    assert_eq!(cutoff_for(0, u64::MAX), i64::MIN);
    assert_eq!(cutoff_for(i64::MIN, 1), i64::MIN);
    assert_eq!(cutoff_for(i64::MIN + 86400, 1), i64::MIN);
    assert_eq!(cutoff_for(i64::MIN + 86401, 1), i64::MIN + 1);
    assert_eq!(cutoff_for(1_700_000_000, 213_503_982_334_601), i64::MIN);
}

#[test]
fn pass_goes_through_the_agents_and_then_the_age_limit() {
    let mut pass = CleanupPass::new(ids(&["a", "b", "c"]), 4, 5);
    let now = 1_000_000;
    match pass.next_step(true, now) {
        CleanupStep::DeleteOldest { agent_id, keep_count } => {
            assert_eq!(agent_id, "a");
            assert_eq!(keep_count, 4);
        }
        other => panic!("unexpected step {:?}", other),
    }
    pass.record_oldest(Some(3));
    match pass.next_step(true, now) {
        CleanupStep::DeleteOldest { agent_id, .. } => assert_eq!(agent_id, "b"),
        other => panic!("unexpected step {:?}", other),
    }
    pass.record_oldest(None);
    match pass.next_step(true, now) {
        CleanupStep::DeleteOldest { agent_id, .. } => assert_eq!(agent_id, "c"),
        other => panic!("unexpected step {:?}", other),
    }
    pass.record_oldest(Some(0));
    match pass.next_step(false, now) {
        CleanupStep::DeleteBefore { cutoff } => assert_eq!(cutoff, now - 5 * 86400),
        other => panic!("unexpected step {:?}", other),
    }
    pass.record_before(Some(9));
    match pass.next_step(true, now) {
        CleanupStep::Finished(report) => assert_eq!(
            report,
            CleanupReport {
                agents_total: 3,
                agents_cleaned: 1,
                deleted_by_count: 3,
                deleted_by_time: 9,
                retention_days: 5,
            }
        ),
        other => panic!("unexpected step {:?}", other),
    }
}

#[test]
fn pass_without_age_limit_ends_after_the_agents() {
    let mut pass = CleanupPass::new(ids(&["a"]), 10, 0);
    assert!(matches!(pass.next_step(true, 0), CleanupStep::DeleteOldest { .. }));
    pass.record_oldest(Some(2));
    match pass.next_step(true, 0) {
        CleanupStep::Finished(report) => {
            assert_eq!(report.agents_cleaned, 1);
            assert_eq!(report.deleted_by_count, 2);
            assert_eq!(report.deleted_by_time, 0);
            assert_eq!(report.retention_days, 0);
        }
        other => panic!("unexpected step {:?}", other),
    }
}

#[test]
fn pass_stops_before_an_agent_when_told_to() {
    let mut pass = CleanupPass::new(ids(&["a", "b"]), 10, 7);
    assert!(matches!(pass.next_step(true, 0), CleanupStep::DeleteOldest { .. }));
    pass.record_oldest(Some(1));
    assert!(matches!(pass.next_step(false, 0), CleanupStep::Stopped));
}

#[test]
fn pass_counts_of_failed_deletions_stay_out_of_the_report() {
    let mut pass = CleanupPass::new(ids(&["a"]), 1, 3);
    pass.record_oldest(None);
    assert!(matches!(pass.next_step(true, 0), CleanupStep::DeleteBefore { .. }));
    pass.record_before(None);
    match pass.next_step(true, 0) {
        CleanupStep::Finished(report) => {
            assert_eq!(report.agents_cleaned, 0);
            assert_eq!(report.deleted_by_count, 0);
            assert_eq!(report.deleted_by_time, 0);
        }
        other => panic!("unexpected step {:?}", other),
    }
}

#[test]
fn pass_sums_stop_at_the_greatest_count() {
    let mut pass = CleanupPass::new(ids(&["a", "b"]), 1, 0);
    pass.record_oldest(Some(usize::MAX));
    pass.record_oldest(Some(5));
    match pass.next_step(true, 0) {
        CleanupStep::Finished(report) => {
            assert_eq!(report.deleted_by_count, usize::MAX);
            assert_eq!(report.agents_cleaned, 2);
        }
        other => panic!("unexpected step {:?}", other),
    }
}

#[test]
fn task_begins_no_pass_without_agents() {
    let task = CleanupTask::new(StorageConfig::default());
    assert!(task.begin_pass(None).is_none());
    assert!(task.begin_pass(Some(vec![])).is_none());
    let pass = task.begin_pass(Some(ids(&["a"]))).unwrap();
    match pass.next_step(true, 0) {
        CleanupStep::DeleteOldest { agent_id, keep_count } => {
            assert_eq!(agent_id, "a");
            assert_eq!(keep_count, 604_800);
        }
        other => panic!("unexpected step {:?}", other),
    }
}

#[test]
fn task_runs_until_it_is_told_to_stop() {
    let task = CleanupTask::new(StorageConfig::default());
    assert!(task.is_running());
    let flag = task.running_flag();
    assert!(flag.load(Ordering::SeqCst));
    flag.store(false, Ordering::SeqCst);
    assert!(!task.is_running());
    let pass = task.begin_pass(Some(ids(&["a"]))).unwrap();
    assert!(matches!(task.advance(&pass), CleanupStep::Stopped));

    let other = CleanupTask::new(StorageConfig::default());
    other.stop();
    assert!(!other.is_running());
    assert!(!other.running_flag().load(Ordering::SeqCst));
    assert!(task.running_flag().load(Ordering::SeqCst) == task.is_running());
}

#[test]
fn task_advances_by_the_wall_clock() {
    let task = CleanupTask::new(StorageConfig { retention_days: 1, ..Default::default() });
    let mut pass = task.begin_pass(Some(ids(&["a"]))).unwrap();
    assert!(matches!(task.advance(&pass), CleanupStep::DeleteOldest { .. }));
    pass.record_oldest(Some(0));
    match task.advance(&pass) {
        CleanupStep::DeleteBefore { cutoff } => assert!(cutoff > 1_600_000_000),
        other => panic!("unexpected step {:?}", other),
    }
}

#[test]
fn task_interval_is_the_hours_in_seconds() {
    let task = CleanupTask::new(StorageConfig::default());
    assert_eq!(task.interval_secs(), 6 * 3600);
    let huge = CleanupTask::new(StorageConfig {
        cleanup_interval_hours: u64::MAX / 3600 + 1,
        ..Default::default()
    });
    assert_eq!(huge.interval_secs(), u64::MAX);
    let edge =
        CleanupTask::new(StorageConfig { cleanup_interval_hours: u64::MAX / 3600, ..Default::default() });
    assert_eq!(edge.interval_secs(), (u64::MAX / 3600) * 3600);
    assert_eq!(CHECK_INTERVAL_SECS, 10);
}

#[test]
fn handle_is_the_flag_that_the_task_reads() {
    let task = CleanupTask::new(StorageConfig::default());
    let first = task.running_flag();
    let second = task.running_flag();
    assert!(std::sync::Arc::ptr_eq(&first, &second));
    second.store(false, Ordering::SeqCst);
    assert!(!first.load(Ordering::SeqCst));
    assert!(!task.is_running());
    first.store(true, Ordering::SeqCst);
    assert!(task.is_running());
    let other = CleanupTask::new(StorageConfig::default());
    assert!(!std::sync::Arc::ptr_eq(&first, &other.running_flag()));
    other.stop();
    assert!(task.is_running());
}
