use rscheduler::scheduler::{Scheduler, SchedulerError};

#[test]
fn ids_start_at_one_and_increase() {
    let mut s: Scheduler<&'static str> = Scheduler::new();
    assert_eq!(s.schedule("a", 100), Ok(1));
    assert_eq!(s.schedule("b", 200), Ok(2));
    assert_eq!(s.schedule("c", 50), Ok(3));
}

#[test]
fn start_empties_pending_and_returns_launches() {
    let mut s: Scheduler<&'static str> = Scheduler::new();
    let id1 = s.schedule("one", 100).unwrap();
    let id2 = s.schedule("two", 250).unwrap();
    let launches = s.start();
    assert_eq!(launches.len(), 2);
    assert_eq!(launches[0].id, id1);
    assert_eq!(launches[0].interval_ms, 100);
    assert_eq!(launches[0].invocable, "one");
    assert_eq!(launches[1].id, id2);
    assert_eq!(launches[1].interval_ms, 250);
    assert_eq!(launches[1].invocable, "two");
    let report = s.list_schedules();
    assert!(report.pending.is_empty());
    assert_eq!(report.running, vec![id1, id2]);
}

#[test]
fn tasks_registered_after_start_stay_pending() {
    let mut s: Scheduler<&'static str> = Scheduler::new();
    let id1 = s.schedule("early", 100).unwrap();
    let first = s.start();
    assert_eq!(first.len(), 1);
    let id2 = s.schedule("late", 100).unwrap();
    let report = s.list_schedules();
    assert_eq!(report.pending, vec![id2]);
    let second = s.start();
    assert_eq!(second.len(), 1);
    assert_eq!(second[0].id, id2);
    assert_ne!(id1, id2);
    assert!(s.list_schedules().pending.is_empty());
}

#[test]
fn terminate_unknown_id_is_not_found() {
    let mut s: Scheduler<u32> = Scheduler::new();
    assert_eq!(s.terminate(7), Err(SchedulerError::NotFound));
}

#[test]
fn terminate_twice_is_not_found() {
    let mut s: Scheduler<u32> = Scheduler::new();
    let id = s.schedule(0, 100).unwrap();
    let _ = s.start();
    assert_eq!(s.terminate(id), Ok(()));
    assert_eq!(s.terminate(id), Err(SchedulerError::NotFound));
}

#[test]
fn terminate_live_id_unlists_it() {
    let mut s: Scheduler<u32> = Scheduler::new();
    let id1 = s.schedule(1, 100).unwrap();
    let id2 = s.schedule(2, 100).unwrap();
    let launches = s.start();
    assert_eq!(s.terminate(id1), Ok(()));
    let report = s.list_schedules();
    assert_eq!(report.running, vec![id2]);
    assert!(!launches[0].token.is_active());
    assert!(launches[1].token.is_active());
}

#[test]
fn terminate_before_start_drops_task() {
    let mut s: Scheduler<u32> = Scheduler::new();
    let id = s.schedule(9, 100).unwrap();
    assert_eq!(s.terminate(id), Ok(()));
    let launches = s.start();
    assert!(launches.is_empty());
    let report = s.list_schedules();
    assert!(report.pending.is_empty());
    assert!(report.running.is_empty());
}

#[test]
fn cancellation_isolation_between_two_tasks() {
    let mut s: Scheduler<u32> = Scheduler::new();
    let id1 = s.schedule(1, 100).unwrap();
    let _id2 = s.schedule(2, 300).unwrap();
    let launches = s.start();
    assert!(launches[0].token.is_active());
    assert!(launches[1].token.is_active());
    assert_eq!(s.terminate(id1), Ok(()));
    assert!(!launches[0].token.is_active());
    assert!(launches[1].token.is_active());
    assert_eq!(launches[1].interval_ms, 300);
}

#[test]
fn shutdown_empties_everything_and_counter_continues() {
    let mut s: Scheduler<u32> = Scheduler::new();
    let _ = s.schedule(1, 100).unwrap();
    let _ = s.schedule(2, 100).unwrap();
    let launches = s.start();
    let _ = s.schedule(3, 100).unwrap();
    s.shutdown();
    let report = s.list_schedules();
    assert!(report.pending.is_empty());
    assert!(report.running.is_empty());
    assert!(!launches[0].token.is_active());
    assert!(!launches[1].token.is_active());
    assert_eq!(s.schedule(4, 100), Ok(4));
    let relaunched = s.start();
    assert_eq!(relaunched.len(), 1);
    assert_eq!(relaunched[0].id, 4);
    assert!(relaunched[0].token.is_active());
}
