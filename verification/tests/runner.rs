use fyrer::config::{FyrerConfig, ProjectConfig, RestartConfig, TaskConfig};
use fyrer::env_map::EnvMap;
use fyrer::error::GraphError;
use fyrer::runner::Runner;
use fyrer::task_id::TaskId;

fn task_config(cmd: &str) -> TaskConfig {
    TaskConfig {
        cmd: cmd.to_string(),
        depends_on: vec![],
        inputs: vec![],
        outputs: vec![],
        ignore: vec![],
        cache: false,
        restart: RestartConfig::default_config(),
        env: EnvMap::new(),
    }
}

fn project(name: &str, tasks: &[(&str, &str)]) -> ProjectConfig {
    ProjectConfig {
        name: name.to_string(),
        root: "./".to_string(),
        env: EnvMap::new(),
        env_path: ".env".to_string(),
        tasks: tasks
            .iter()
            .map(|(n, c)| (n.to_string(), task_config(c)))
            .collect(),
    }
}

/// The configuration with projects `web` (tasks `build`, `test`) and `api`
/// (task `build`).
fn config() -> FyrerConfig {
    FyrerConfig {
        version: 1,
        env: EnvMap::new(),
        projects: vec![
            project("web", &[("build", "echo build"), ("test", "echo test")]),
            project("api", &[("build", "echo build")]),
        ],
    }
}

fn runner() -> Runner {
    let config = config();
    config.validate().unwrap();
    Runner::from_config(&config, &vec![None, None]).unwrap()
}

#[test]
fn resolve_all() {
    let runner = runner();
    assert_eq!(runner.resolve(None).unwrap().len(), 3);
}

#[test]
fn resolve_specific() {
    let runner = runner();
    let tasks = runner.resolve(Some("web:build")).unwrap();
    assert_eq!(tasks, vec![TaskId::new("web", "build")]);
}

#[test]
fn resolve_by_name() {
    let runner = runner();
    let tasks = runner.resolve(Some("build")).unwrap();
    let names: Vec<String> = tasks.iter().map(|t| t.to_string()).collect();
    assert_eq!(names, vec!["api:build", "web:build"]);
}

#[test]
fn resolve_missing() {
    let runner = runner();
    assert!(runner.resolve(Some("nope")).is_err());
    assert!(runner.resolve(Some("web:nope")).is_err());
}

#[test]
fn resolve_all_is_sorted_by_text() {
    let runner = runner();
    let names: Vec<String> = runner
        .resolve(None)
        .unwrap()
        .iter()
        .map(|t| t.to_string())
        .collect();
    assert_eq!(names, vec!["api:build", "web:build", "web:test"]);
}

#[test]
fn resolve_rejects_malformed_specifier() {
    let runner = runner();
    assert!(runner.resolve(Some("web:")).is_err());
    assert!(runner.resolve(Some(":build")).is_err());
}

#[test]
fn list_groups_tasks_by_project_sorted() {
    let runner = runner();
    let listing = runner.list();
    assert_eq!(listing.len(), 2);
    assert_eq!(listing[0].0, "api");
    assert_eq!(listing[0].1, vec!["build".to_string()]);
    assert_eq!(listing[1].0, "web");
    assert_eq!(listing[1].1, vec!["build".to_string(), "test".to_string()]);
}

#[test]
fn plan_orders_requested_tasks() {
    let runner = runner();
    let levels = runner.orders(&[TaskId::new("web", "test")]).unwrap();
    assert_eq!(levels.len(), 1);
    assert_eq!(levels[0][0].0, TaskId::new("web", "test"));
    assert!(runner.orders(&[TaskId::new("x", "y")]).is_err());
}

#[test]
fn from_config_rejects_cycles() {
    let mut config = config();
    config.projects[0].tasks[0].1.depends_on = vec!["test".to_string()];
    config.projects[0].tasks[1].1.depends_on = vec!["build".to_string()];
    assert!(Runner::from_config(&config, &vec![None, None]).is_err());
}

#[test]
fn from_config_names_the_problem() {
    let mut config = config();
    config.projects[0].tasks[0].1.depends_on = vec!["test".to_string()];
    config.projects[0].tasks[1].1.depends_on = vec!["build".to_string()];
    match Runner::from_config(&config, &vec![None, None]) {
        Err(GraphError::CycleDetected(t)) => assert!(t == "web:build" || t == "web:test"),
        other => panic!("unexpected {:?}", other.is_ok()),
    }

    let mut config = config_with_dep("web:build");
    assert!(matches!(Runner::from_config(&config, &vec![None, None]), Err(GraphError::SelfDependency(t)) if t == "web:build"));
    config = config_with_dep("api:deploy");
    match Runner::from_config(&config, &vec![None, None]) {
        Err(GraphError::MissingDependency { dependent, dependency }) => {
            assert_eq!(dependent, "web:build");
            assert_eq!(dependency, "api:deploy");
        },
        other => panic!("unexpected {:?}", other.is_ok()),
    }
    config = config_with_dep("api:build");
    assert!(Runner::from_config(&config, &vec![None, None]).is_ok());
}

fn config_with_dep(dep: &str) -> FyrerConfig {
    let mut config = config();
    config.projects[0].tasks[0].1.depends_on = vec![dep.to_string()];
    config
}

#[test]
fn plan_shows_one_step_per_level() {
    let mut config = config();
    config.projects[0].tasks[1].1.depends_on = vec!["build".to_string(), "api:build".to_string()];
    let runner = Runner::from_config(&config, &vec![None, None]).unwrap();
    let steps = runner.plan(&[TaskId::new("web", "test")]).unwrap();
    assert_eq!(steps, vec!["step 1: web:build, api:build", "step 2: web:test"]);
    assert!(runner.plan(&[TaskId::new("x", "y")]).is_err());
}
