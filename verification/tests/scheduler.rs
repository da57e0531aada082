use fyrer::config::RestartConfig;
use fyrer::env_map::EnvMap;
use fyrer::scheduler::{Scheduler, TaskStatus};
use fyrer::task_id::TaskId;
use fyrer::tasks::{Task, TaskMap};

fn task(name: &str, deps: &[&str]) -> Task {
    Task {
        project_name: "p".to_string(),
        project_root: ".".to_string(),
        env: EnvMap::new(),
        task_name: name.to_string(),
        cmd: "true".to_string(),
        depends_on: deps.iter().map(|d| d.to_string()).collect(),
        inputs: vec![],
        outputs: vec![],
        ignore: vec![],
        cache: false,
        restart: RestartConfig::default_config(),
    }
}

fn id(t: &str) -> TaskId {
    TaskId::new("p", t)
}

fn scheduler() -> Scheduler {
    let map = TaskMap::from_tasks(vec![
        task("a", &[]),
        task("b", &["a"]),
        task("c", &["p:b"]),
        task("d", &[]),
    ]);
    Scheduler::new(map, vec![vec![id("a"), id("d")], vec![id("b")], vec![id("c")]])
}

#[test]
fn failure_propagates_down_the_chain() {
    let mut s = scheduler();
    assert!(s.begin_task(&id("a")));
    s.record_exit(&id("a"), 1);
    assert!(s.begin_task(&id("d")));
    s.record_exit(&id("d"), 0);
    assert!(!s.begin_task(&id("b")));
    assert_eq!(s.status(&id("b")), Some(TaskStatus::Skipped));
    assert!(!s.begin_task(&id("c")));
    assert_eq!(s.status(&id("c")), Some(TaskStatus::Skipped));
    let summary = s.summary(12);
    assert_eq!(summary.total, 4);
    assert_eq!(summary.successful, 1);
    assert_eq!(summary.failed, 1);
    assert_eq!(summary.skipped, 2);
    assert_eq!(summary.cached, 0);
    assert_eq!(summary.duration_ms, 12);
    assert_eq!(summary.successful + summary.cached + summary.failed + summary.skipped, summary.total);
    assert!(summary.has_failures());
    assert!(!summary.all_cached());
}

#[test]
fn success_and_cache_hits_do_not_block() {
    let mut s = scheduler();
    assert!(s.begin_task(&id("a")));
    s.set_status(&id("a"), TaskStatus::Cached);
    assert!(!s.is_blocked(&id("b")));
    assert!(s.begin_task(&id("b")));
    s.record_exit(&id("b"), 0);
    assert!(s.begin_task(&id("c")));
    s.set_status(&id("c"), TaskStatus::Cached);
    let summary = s.summary(0);
    assert_eq!(summary.total, 3);
    assert_eq!(summary.cached, 2);
    assert_eq!(summary.successful, 1);
    assert!(!summary.has_failures());
}

#[test]
fn unknown_tasks_are_never_blocked() {
    let s = scheduler();
    assert!(!s.is_blocked(&TaskId::new("x", "y")));
    assert_eq!(s.levels().len(), 3);
}

#[test]
fn levels_are_run_once() {
    let mut s = scheduler();
    let levels = s.take_levels();
    assert_eq!(levels.len(), 3);
    assert_eq!(levels[0], vec![id("a"), id("d")]);
    assert!(s.begin_task(&id("a")));
    s.record_exit(&id("a"), 0);
    assert!(s.take_levels().is_empty());
    assert!(s.levels().is_empty());
    assert_eq!(s.status(&id("a")), Some(TaskStatus::Success));
}
