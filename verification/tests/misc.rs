use fyrer::monitor::{MonitorStep, RunEvent, RunMonitor, TaskState};
use fyrer::kill_process::child_pids;
use fyrer::cli::{plan_lines, App, Cli, Command};
use fyrer::config::{FyrerConfig, ProjectConfig, RestartConfig, RestartStrategy, TaskConfig};
use fyrer::env_map::EnvMap;
use fyrer::error::ConfigError;
use fyrer::global::{
    is_shutting_down, register_pid, running_pids, shutdown_code, unregister_pid, PidRegistry, ShutdownSignal,
    ShutdownState,
};
use fyrer::logs::{Diagnostics, ErrorCollector};
use fyrer::paths::join_path;
use fyrer::task_id::TaskId;
use fyrer::tasks::{Task, TaskMap};
use fyrer::types::{Project, Task as Service};

#[test]
fn project_env_path_defaults_to_dot_env() {
    let mut p = Project {
        name: "p".to_string(),
        root: "./app".to_string(),
        setup: None,
        env: None,
        env_path: None,
        tasks: vec![],
    };
    assert_eq!(p.get_env_path(), "./app/.env");
    p.env_path = Some(".env.local".to_string());
    assert_eq!(p.get_env_path(), "./app/.env.local");
}

#[test]
fn service_env_path_cases() {
    let mut s = Service {
        dir: Some("svc".to_string()),
        cmd: "run".to_string(),
        watch: String::new(),
        env: None,
        env_path: Some("x.env".to_string()),
        quiet: None,
    };
    assert_eq!(s.get_env_path(), Some("svc/x.env".to_string()));
    s.env_path = None;
    assert_eq!(s.get_env_path(), Some("svc/.env".to_string()));
    s.dir = None;
    assert_eq!(s.get_env_path(), None);
    s.env_path = Some("y.env".to_string());
    assert_eq!(s.get_env_path(), Some("y.env".to_string()));
}

#[test]
fn project_env_overrides_file() {
    let p = Project {
        name: "p".to_string(),
        root: "./".to_string(),
        setup: None,
        env: Some(EnvMap::from_pairs(vec![("APP_NAME".to_string(), "overridden".to_string())])),
        env_path: Some(".env.test".to_string()),
        tasks: vec![],
    };
    let env = p.get_project_env(Some("APP_NAME=fyrer-dev\nDB_HOST=localhost"));
    assert_eq!(env.get("APP_NAME").unwrap(), "overridden");
    assert_eq!(env.get("DB_HOST").unwrap(), "localhost");
    let env = p.get_project_env(None);
    assert_eq!(env.len(), 1);
}

#[test]
fn pid_registry_tracks_running_tasks() {
    let mut r = PidRegistry::new();
    register_pid(&mut r, TaskId::new("a", "b"), 10);
    register_pid(&mut r, TaskId::new("a", "c"), 11);
    register_pid(&mut r, TaskId::new("a", "b"), 12);
    let mut pids = running_pids(&r);
    pids.sort();
    assert_eq!(pids, vec![11, 12]);
    unregister_pid(&mut r, &TaskId::new("a", "b"));
    assert_eq!(running_pids(&r), vec![11]);
    register_pid(&mut r, TaskId::new("x", "y"), 99);
    unregister_pid(&mut r, &TaskId::new("x", "y"));
    assert_eq!(running_pids(&r), vec![11]);
}

#[test]
fn signals_set_exit_codes() {
    let mut s = ShutdownState::new();
    assert!(!is_shutting_down(&s));
    assert_eq!(shutdown_code(&s), 0);
    s.signal_received(ShutdownSignal::Interrupt);
    assert!(is_shutting_down(&s));
    assert_eq!(shutdown_code(&s), 130);
    s.signal_received(ShutdownSignal::Terminate);
    assert_eq!(shutdown_code(&s), 143);
}

#[test]
fn error_collector_reports_in_order() {
    let mut c = ErrorCollector::new();
    c.push_error(Some(TaskId::new("web", "build")), "exit 1".to_string());
    c.push_warning(None, "slow".to_string());
    c.push(Diagnostics::Error { task_id: None, error: "x".to_string() });
    assert_eq!(c.get_errors().len(), 3);
    assert_eq!(
        c.finalize(),
        vec![
            "Following errors and warnings were collected during execution:".to_string(),
            "Error in task web:build: exit 1".to_string(),
            "Warning: slow".to_string(),
            "Error: x".to_string(),
        ]
    );
}

fn task(project: &str, name: &str) -> Task {
    Task {
        project_name: project.to_string(),
        project_root: ".".to_string(),
        env: EnvMap::new(),
        task_name: name.to_string(),
        cmd: "true".to_string(),
        depends_on: vec![],
        inputs: vec![],
        outputs: vec![],
        ignore: vec![],
        cache: false,
        restart: RestartConfig::default_config(),
    }
}

#[test]
fn app_resolves_specifiers_in_map_order() {
    let app = App::new(Cli { config: "fyrer.yml".to_string(), command: Command::List });
    assert_eq!(app.command_line().config, "fyrer.yml");
    let map = TaskMap::from_tasks(vec![task("web", "build"), task("api", "build"), task("web", "test")]);
    let all: Vec<String> = app.resolve_task_ids(&map, None).unwrap().iter().map(|t| t.to_string()).collect();
    assert_eq!(all, vec!["web:build", "api:build", "web:test"]);
    let by_name: Vec<String> =
        app.resolve_task_ids(&map, Some("build")).unwrap().iter().map(|t| t.to_string()).collect();
    assert_eq!(by_name, vec!["web:build", "api:build"]);
    assert_eq!(app.resolve_task_ids(&map, Some("web:test")).unwrap(), vec![TaskId::new("web", "test")]);
    assert_eq!(app.resolve_task_ids(&map, Some("web:nope")).unwrap_err(), "Task web:nope not found");
    assert_eq!(app.resolve_task_ids(&map, Some("nope")).unwrap_err(), "Task nope not found");
    assert_eq!(app.resolve_task_ids(&map, Some("web:")).unwrap_err(), "Invalid task specifier: web:");
}

#[test]
fn plan_lines_draw_levels() {
    let levels = vec![
        vec![TaskId::new("ui", "build")],
        vec![TaskId::new("web", "build"), TaskId::new("web", "test")],
    ];
    assert_eq!(
        plan_lines(&levels),
        vec![
            "\nExecution plan:",
            "  Level 1 (parallel):",
            "    └── ui:build",
            "         ↓",
            "  Level 2 (parallel):",
            "    ├── web:build",
            "    └── web:test",
            "",
        ]
    );
}

fn task_config(cmd: &str) -> TaskConfig {
    TaskConfig {
        cmd: cmd.to_string(),
        depends_on: vec![],
        inputs: vec![],
        outputs: vec![],
        ignore: vec![],
        cache: false,
        restart: RestartConfig::default_config(),
        env: EnvMap::new(),
    }
}

#[test]
fn project_config_validation_reports_first_problem() {
    let mut c = FyrerConfig {
        version: 1,
        env: EnvMap::new(),
        projects: vec![ProjectConfig {
            name: "web".to_string(),
            root: "web".to_string(),
            env: EnvMap::new(),
            env_path: ".env".to_string(),
            tasks: vec![("build".to_string(), task_config("make"))],
        }],
    };
    assert!(c.validate().is_ok());
    c.projects[0].tasks[0].1.cache = true;
    assert!(matches!(c.validate(), Err(ConfigError::CacheWithoutOutputs { .. })));
    c.projects[0].tasks[0].1.outputs = vec!["dist".to_string()];
    assert!(matches!(c.validate(), Err(ConfigError::CacheWithoutInputs { .. })));
    c.projects[0].tasks[0].1.cache = false;
    c.projects[0].tasks[0].1.restart.strategy = RestartStrategy::FileChange;
    assert!(matches!(c.validate(), Err(ConfigError::FileChangeWithoutInputs { .. })));
    c.projects[0].root = "/web".to_string();
    assert!(matches!(c.validate(), Err(ConfigError::AbsoluteProjectRoot { .. })));
    c.projects.push(c.projects[0].clone());
    c.projects[0].root = "web".to_string();
    assert!(matches!(c.validate(), Err(ConfigError::DuplicateProject { .. })));
    c.version = 3;
    assert!(matches!(c.validate(), Err(ConfigError::UnsupportedVersion { version: 3 })));
}

#[test]
fn create_task_map_layers_environments() {
    let mut c = FyrerConfig {
        version: 1,
        env: EnvMap::from_pairs(vec![("A".to_string(), "root".to_string())]),
        projects: vec![ProjectConfig {
            name: "web".to_string(),
            root: "web".to_string(),
            env: EnvMap::from_pairs(vec![("B".to_string(), "project".to_string())]),
            env_path: ".env".to_string(),
            tasks: vec![("build".to_string(), task_config("make"))],
        }],
    };
    c.projects[0].tasks[0].1.env = EnvMap::from_pairs(vec![("C".to_string(), "task".to_string())]);
    let map = c.create_task_map(&vec![Some("A=file\nB=file".to_string())]);
    let t = map.get(&TaskId::new("web", "build")).unwrap();
    assert_eq!(t.env.get("A").unwrap(), "file");
    assert_eq!(t.env.get("B").unwrap(), "project");
    assert_eq!(t.env.get("C").unwrap(), "task");
}

#[test]
fn task_ids_parse_at_the_first_colon() {
    let id = TaskId::parse("web:build:prod").unwrap();
    assert_eq!(id.project_name(), "web");
    assert_eq!(id.task_name(), "build:prod");
    assert!(TaskId::parse("web").is_none());
    assert!(TaskId::parse(":build").is_none());
    assert_eq!(join_path("a", "/b"), "/b");
    assert_eq!(join_path("a/", "b"), "a/b");
    assert_eq!(join_path("", "b"), "b");
}

#[test]
fn child_pids_parse_each_line() {
    let listing = "  123\n456\r\nabc\n+7\n-1\n\n4294967295\n4294967296\n 12 34 \n";
    assert_eq!(child_pids(listing), vec![123, 456, 7, 4294967295]);
    assert_eq!(child_pids(""), Vec::<u32>::new());
    assert_eq!(child_pids("99"), vec![99]);
    assert_eq!(child_pids("+\n0\n007"), vec![0, 7]);
}

#[test]
fn monitor_tracks_spawned_tasks_and_diagnostics() {
    let mut m = RunMonitor::new();
    let a = TaskId::new("web", "build");
    let b = TaskId::new("api", "build");
    assert_eq!(m.handle_event(RunEvent::TaskComplete { task_id: a.clone() }), MonitorStep::Continue);
    assert_eq!(m.state(&a), None);
    assert_eq!(m.handle_event(RunEvent::TaskSpawned { task_id: a.clone() }), MonitorStep::Continue);
    assert_eq!(m.handle_event(RunEvent::TaskSpawned { task_id: b.clone() }), MonitorStep::Continue);
    assert_eq!(m.state(&a), Some(TaskState::Running));
    m.handle_event(RunEvent::TaskComplete { task_id: a.clone() });
    m.handle_event(RunEvent::TaskFailed { task_id: b.clone() });
    assert_eq!(m.state(&a), Some(TaskState::Succeeded));
    assert_eq!(m.state(&b), Some(TaskState::Failed));
    m.handle_event(RunEvent::NonFatalError { task_id: Some(b.clone()), error: "boom".to_string() });
    m.handle_event(RunEvent::Warning { task_id: None, message: "careful".to_string() });
    assert_eq!(
        m.errors().finalize(),
        vec![
            "Following errors and warnings were collected during execution:".to_string(),
            "Error in task api:build: boom".to_string(),
            "Warning: careful".to_string(),
        ]
    );
    let mut targets: Vec<String> = m.kill_targets().iter().map(|t| t.to_string()).collect();
    targets.sort();
    assert_eq!(targets, vec!["api:build", "web:build"]);
    assert_eq!(m.handle_event(RunEvent::Other), MonitorStep::Continue);
    assert_eq!(m.handle_event(RunEvent::Closed), MonitorStep::Stop);
    assert_eq!(m.handle_event(RunEvent::Shutdown), MonitorStep::KillAllAndStop);
    assert_eq!(m.handle_event(RunEvent::UiEnded), MonitorStep::KillAllAndStop);
}

/// The text of the `.env.test` file the project tests read.
const ENV_TEST: &str = "APP_NAME=fyrer-dev\nDB_HOST=localhost\n";

fn env_project(env: Option<EnvMap>, env_path: Option<&str>) -> Project {
    Project {
        name: "test".to_string(),
        root: "./".to_string(),
        env,
        env_path: env_path.map(|p| p.to_string()),
        setup: None,
        tasks: vec![],
    }
}

#[test]
fn handle_no_env() {
    let project = Project {
        name: "test".to_string(),
        root: ".".to_string(),
        env: None,
        env_path: None,
        setup: None,
        tasks: vec![],
    };
    let envs = project.get_project_env(None);
    assert_eq!(envs.len(), 0);
}

#[test]
fn handle_env_from_file() {
    let project = env_project(None, Some(".env.test"));
    let envs = project.get_project_env(Some(ENV_TEST));
    assert_eq!(envs.get("APP_NAME").unwrap(), "fyrer-dev");
}

#[test]
fn handle_env_in_config() {
    let env_map = EnvMap::from_pairs(vec![
        ("APP_NAME".to_string(), "fyrer-dev".to_string()),
        ("PORT".to_string(), "3000".to_string()),
    ]);
    let project = env_project(Some(env_map), None);
    let envs = project.get_project_env(None);
    assert_eq!(envs.get("APP_NAME").unwrap(), "fyrer-dev");
    assert_eq!(envs.get("PORT").unwrap(), "3000");
    assert_eq!(envs.get("DOESNOTeXISt"), None)
}

#[test]
fn handle_env_override() {
    let env_map = EnvMap::from_pairs(vec![
        ("APP_NAME".to_string(), "overridden".to_string()),
        ("PORT".to_string(), "3000".to_string()),
    ]);
    let project = env_project(Some(env_map), Some(".env.test"));
    let envs = project.get_project_env(Some(ENV_TEST));
    assert_eq!(envs.get("APP_NAME").unwrap(), "overridden");
    assert_eq!(envs.get("DB_HOST").unwrap(), "localhost");
}

#[test]
fn parsing_the_text_of_an_id_gives_it_back() {
    let id = TaskId::new("web", "build");
    assert_eq!(TaskId::parse(&id.to_string()), Some(id));
    let odd = TaskId::new("web", "a:b");
    assert_eq!(TaskId::parse(&odd.to_string()), Some(odd));
    let parsed = TaskId::parse("api:x:y").unwrap();
    assert_eq!(parsed.to_string(), "api:x:y");
    assert_eq!(TaskId::parse("web:"), None);
    assert_eq!(TaskId::parse(":b"), None);
}
