use fyrer::orchestrator::{Action, Event, Key, LogStream, Orchestrator, ScrollDirection, TaskStatus};
use fyrer::task_id::TaskId;

fn id(t: &str) -> TaskId {
    TaskId::new("web", t)
}

fn status_of(o: &Orchestrator, t: &str) -> TaskStatus {
    o.snapshot()
        .into_iter()
        .find(|(i, _)| *i == id(t))
        .map(|(_, s)| s)
        .unwrap()
}

fn spawned(o: &mut Orchestrator, t: &str) {
    assert!(matches!(o.handle_event(Event::TaskSpawned { task_id: id(t) }), Action::Nothing));
}

#[test]
fn new_run_waits() {
    let o = Orchestrator::new(vec![id("a"), id("b")]);
    let snap = o.snapshot();
    assert_eq!(snap.len(), 2);
    assert!(snap.iter().all(|(_, s)| matches!(s, TaskStatus::Waiting)));
    assert!(!o.should_quit());
}

#[test]
fn completion_counts_and_auto_quits() {
    let mut o = Orchestrator::new(vec![id("a"), id("b")]).with_auto_quit(true);
    spawned(&mut o, "a");
    assert!(matches!(status_of(&o, "a"), TaskStatus::Running));
    o.handle_event(Event::TaskComplete { task_id: id("a") });
    assert!(matches!(status_of(&o, "a"), TaskStatus::Complete));
    assert_eq!(o.finished(), 1);
    assert!(!o.should_quit());
    o.handle_event(Event::TaskFailed {
        task_id: id("b"),
        exit_code: 2,
        error: Some("boom".to_string()),
    });
    assert!(matches!(status_of(&o, "b"), TaskStatus::Failed { code: 2, .. }));
    assert!(o.should_quit());
}

#[test]
fn without_auto_quit_the_run_goes_on() {
    let mut o = Orchestrator::new(vec![id("a")]);
    o.handle_event(Event::TaskComplete { task_id: id("a") });
    assert!(!o.should_quit());
}

#[test]
fn file_change_restarts_a_running_task_once() {
    let mut o = Orchestrator::new(vec![id("a")]);
    spawned(&mut o, "a");
    assert!(matches!(o.handle_event(Event::FileChanged { task_id: id("a") }), Action::Kill(t) if t == id("a")));
    assert!(matches!(status_of(&o, "a"), TaskStatus::Restarting));
    assert!(matches!(o.handle_event(Event::FileChanged { task_id: id("a") }), Action::Nothing));
    assert!(matches!(o.handle_event(Event::TaskComplete { task_id: id("a") }), Action::Restart(t) if t == id("a")));
    assert_eq!(o.finished(), 0);
    assert!(matches!(o.restart_result(&id("a"), Ok(())), Action::Nothing));
    assert!(matches!(status_of(&o, "a"), TaskStatus::Running));
}

#[test]
fn failed_restart_is_logged_and_finishes() {
    let mut o = Orchestrator::new(vec![id("a")]);
    let a = o.restart_result(&id("a"), Err("no shell".to_string()));
    assert!(matches!(a, Action::PushLog { line, stream: LogStream::Stderr, .. } if line == "restart failed: no shell"));
    assert!(matches!(status_of(&o, "a"), TaskStatus::Failed { code: -1, .. }));
    assert_eq!(o.finished(), 1);
}

#[test]
fn file_change_of_an_idle_task_does_nothing() {
    let mut o = Orchestrator::new(vec![id("a")]);
    assert!(matches!(o.handle_event(Event::FileChanged { task_id: id("a") }), Action::Nothing));
    assert!(matches!(status_of(&o, "a"), TaskStatus::Waiting));
}

#[test]
fn quit_kills_running_tasks() {
    let mut o = Orchestrator::new(vec![id("a"), id("b"), id("c")]);
    spawned(&mut o, "a");
    spawned(&mut o, "c");
    match o.handle_event(Event::KeyPress(Key::Char('q'))) {
        Action::KillAll(v) => {
            assert_eq!(v.len(), 2);
            assert!(v.contains(&id("a")) && v.contains(&id("c")));
        }
        _ => panic!("expected KillAll"),
    }
    assert!(o.should_quit());
}

#[test]
fn keys_and_wheel_move_the_screen() {
    let mut o = Orchestrator::new(vec![id("a")]);
    assert!(matches!(o.handle_event(Event::KeyPress(Key::Char('j'))), Action::NavigateNext));
    assert!(matches!(o.handle_event(Event::KeyPress(Key::Down)), Action::NavigateNext));
    assert!(matches!(o.handle_event(Event::KeyPress(Key::Up)), Action::NavigatePrevious));
    assert!(matches!(o.handle_event(Event::KeyPress(Key::Char('u'))), Action::ScrollUp(3)));
    assert!(matches!(o.handle_event(Event::MouseScroll(ScrollDirection::Down)), Action::ScrollDown(3)));
    assert!(matches!(o.handle_event(Event::KeyPress(Key::Char('x'))), Action::Nothing));
    assert!(matches!(o.handle_event(Event::Tick), Action::Nothing));
    let a = o.handle_event(Event::TaskLog {
        task_id: id("a"),
        stream: LogStream::Stdout,
        line: "hello".to_string(),
    });
    assert!(matches!(a, Action::PushLog { line, stream: LogStream::Stdout, .. } if line == "hello"));
}
