use gitcode_jupyter_tool::jobs::{JobError, JobStatus, JobTable, OrderedJobQueue};

#[test]
fn ordered_queue_runs_one_at_a_time_in_order() {
    let mut q = OrderedJobQueue::new("heavy");
    q.enter("a".to_string());
    q.enter("b".to_string());
    assert!(!q.try_start("b"));
    assert!(q.try_start("a"));
    assert!(!q.try_start("b"));
    let s = q.status();
    assert_eq!(s.name, "heavy");
    assert_eq!(s.running.as_deref(), Some("a"));
    assert_eq!(s.queued, 1);
    assert_eq!(s.waiting, vec!["b".to_string()]);
    q.leave("b");
    assert!(!q.may_start("b"));
    q.leave("a");
    assert!(q.may_start("b"));
    assert!(q.try_start("b"));
    let s = q.status();
    assert_eq!(s.running.as_deref(), Some("b"));
    assert_eq!(s.queued, 0);
}

#[test]
fn submitted_jobs_can_be_looked_up() {
    let mut t = JobTable::new();
    let j = t.submit("j1".to_string(), "run", None, 100, 600_000_000);
    assert_eq!(j.id, "j1");
    assert_eq!(j.status, JobStatus::Queued);
    assert_eq!(j.submitted, 100);
    let got = t.get("j1").ok().unwrap();
    assert_eq!(got.name, "run");
    assert!(got.queue.is_none());
    match t.get("nope") {
        Err(JobError::UnknownJob(id)) => assert_eq!(id, "nope"),
        Ok(_) => panic!("unknown job found"),
    }
    assert_eq!(JobError::UnknownJob("x".to_string()).message(), "unknown job id: x");
}

#[test]
fn jobs_move_from_queued_to_finished() {
    let mut t = JobTable::new();
    t.submit("a".to_string(), "upload", Some("heavy"), 1, 10);
    t.mark_running("a", 2);
    let a = t.get("a").ok().unwrap();
    assert_eq!(a.status, JobStatus::Running);
    assert_eq!(a.started, Some(2));
    assert_eq!(a.queue.as_deref(), Some("heavy"));
    t.finish("a", Ok("{\"ok\":true}".to_string()), 3);
    let a = t.get("a").ok().unwrap();
    assert_eq!(a.status, JobStatus::Succeeded);
    assert_eq!(a.ok, Some(true));
    assert_eq!(a.result.as_deref(), Some("{\"ok\":true}"));
    assert_eq!(a.finished, Some(3));
    t.submit("b".to_string(), "run", None, 4, 10);
    t.finish("b", Err("boom".to_string()), 5);
    let b = t.get("b").ok().unwrap();
    assert_eq!(b.status, JobStatus::Failed);
    assert_eq!(b.error.as_deref(), Some("boom"));
    assert_eq!(JobStatus::Failed.as_str(), "failed");
    t.mark_running("missing", 9);
    assert!(t.get("missing").is_err());
}

#[test]
fn old_finished_jobs_are_pruned_but_active_ones_stay() {
    let mut t = JobTable::new();
    t.submit("done-old".to_string(), "run", None, 0, 100);
    t.finish("done-old", Ok("1".to_string()), 10);
    t.submit("done-new".to_string(), "run", None, 0, 100);
    t.finish("done-new", Ok("2".to_string()), 150);
    t.submit("waiting".to_string(), "run", None, 0, 100);
    t.submit("busy".to_string(), "run", None, 0, 100);
    t.mark_running("busy", 5);
    t.submit("new".to_string(), "run", None, 200, 100);
    assert!(t.get("done-old").is_err());
    assert!(t.get("done-new").is_ok());
    assert!(t.get("waiting").is_ok());
    assert!(t.get("busy").is_ok());
    let s = t.stats();
    assert_eq!((s.queued, s.running, s.succeeded, s.failed), (2, 1, 1, 0));
}

#[test]
fn two_callers_are_served_in_the_order_they_joined() {
    let mut q = OrderedJobQueue::new("heavy");
    q.enter("a".to_string());
    q.enter("b".to_string());
    assert!(!q.try_start("b"));
    assert!(q.try_start("a"));
    assert!(!q.try_start("b"));
    let st = q.status();
    assert_eq!(st.running.as_deref(), Some("a"));
    assert_eq!(st.waiting, vec!["b".to_string()]);
    q.leave("b");
    assert!(!q.try_start("b"));
    q.leave("a");
    assert!(q.try_start("b"));
    assert_eq!(q.status().running.as_deref(), Some("b"));
    assert!(q.status().waiting.is_empty());
}
