use fyrer::error::GraphError;
use fyrer::config::{RestartConfig, RestartStrategy};
use fyrer::env_map::EnvMap;
use fyrer::graph::TaskGraph;
use fyrer::task_id::TaskId;
use fyrer::tasks::{Task, TaskMap};

fn task(project: &str, name: &str, deps: Vec<String>) -> Task {
    Task {
        project_name: project.to_string(),
        project_root: "./".into(),
        env: EnvMap::new(),
        task_name: name.to_string(),
        cmd: "echo hi".into(),
        depends_on: deps,
        inputs: vec![],
        outputs: vec![],
        ignore: vec![],
        cache: false,
        restart: RestartConfig {
            strategy: RestartStrategy::Never,
            delay: None,
        },
    }
}

fn map_with(entries: &[(&str, &str, Vec<String>)]) -> TaskMap {
    let mut map = TaskMap::new();
    for (project, name, deps) in entries {
        map.insert(task(project, name, deps.clone()));
    }
    map
}

fn graph_with(entries: &[(&str, &str, Vec<String>)]) -> TaskGraph {
    TaskGraph::new(&map_with(entries)).unwrap()
}

#[test]
fn get_orders_dedupes_shared_dependencies() {
    let graph = graph_with(&[
        ("web", "build", vec!["ui:build".into()]),
        ("web", "test", vec!["ui:build".into()]),
        ("ui", "build", vec![]),
    ]);
    graph.validate().unwrap();

    let order = graph
        .get_orders(&[TaskId::new("web", "build"), TaskId::new("web", "test")])
        .unwrap();

    assert_eq!(order.len(), 2);
    assert_eq!(order[0], vec![(TaskId::new("ui", "build"), vec![])]);
    let second: Vec<String> = order[1].iter().map(|(id, _)| id.to_string()).collect();
    assert!(second.contains(&"web:build".to_string()));
    assert!(second.contains(&"web:test".to_string()));
    for (_, deps) in &order[1] {
        assert_eq!(deps, &vec![TaskId::new("ui", "build")]);
    }
}

#[test]
fn get_orders_rejects_unknown_tasks() {
    let graph = graph_with(&[("web", "build", vec![])]);
    assert!(graph.get_orders(&[TaskId::new("nope", "nope")]).is_err());
}

#[test]
fn validate_rejects_cycles() {
    let graph = graph_with(&[
        ("web", "build", vec!["web:test".into()]),
        ("web", "test", vec!["web:build".into()]),
    ]);
    assert!(graph.validate().is_err());
}

#[test]
fn validate_accepts_diamond_dependency() {
    let graph = graph_with(&[
        ("web", "build", vec!["ui:build".into()]),
        ("web", "test", vec!["ui:build".into()]),
        ("ui", "build", vec![]),
    ]);
    assert!(graph.validate().is_ok());
}

#[test]
fn new_rejects_self_dependency() {
    let map = map_with(&[("web", "build", vec!["web:build".into()])]);
    assert!(TaskGraph::new(&map).is_err());
}

#[test]
fn new_rejects_missing_dependency() {
    let map = map_with(&[("web", "build", vec!["ui:build".into()])]);
    assert!(TaskGraph::new(&map).is_err());
}

#[test]
fn bare_dependency_names_a_task_of_the_same_project() {
    let graph = graph_with(&[
        ("web", "build", vec!["lint".into()]),
        ("web", "lint", vec![]),
    ]);
    let order = graph.get_orders(&[TaskId::new("web", "build")]).unwrap();
    assert_eq!(order.len(), 2);
    assert_eq!(order[0], vec![(TaskId::new("web", "lint"), vec![])]);
    assert_eq!(
        order[1],
        vec![(TaskId::new("web", "build"), vec![TaskId::new("web", "lint")])]
    );
}

#[test]
fn plan_lists_each_task_once_and_dependencies_first() {
    let graph = graph_with(&[
        ("a", "one", vec![]),
        ("a", "two", vec!["a:one".into()]),
        ("a", "three", vec!["a:one".into(), "a:two".into()]),
    ]);
    let order = graph
        .get_orders(&[TaskId::new("a", "three"), TaskId::new("a", "two")])
        .unwrap();
    let flat: Vec<String> = order
        .iter()
        .flat_map(|level| level.iter().map(|(id, _)| id.to_string()))
        .collect();
    assert_eq!(flat, vec!["a:one", "a:two", "a:three"]);
}

#[test]
fn plan_of_nothing_is_empty() {
    let graph = graph_with(&[("a", "one", vec![])]);
    assert!(graph.get_orders(&[]).unwrap().is_empty());
}

#[test]
fn validate_names_the_first_task_that_reaches_a_cycle() {
    let graph = graph_with(&[
        ("m", "a", vec![]),
        ("m", "b", vec!["m:c".into()]),
        ("m", "c", vec!["m:b".into()]),
    ]);
    assert!(matches!(graph.validate(), Err(GraphError::CycleDetected(t)) if t == "m:b"));
    let graph = graph_with(&[
        ("m", "a", vec!["m:b".into()]),
        ("m", "b", vec!["m:c".into()]),
        ("m", "c", vec!["m:b".into()]),
    ]);
    assert!(matches!(graph.validate(), Err(GraphError::CycleDetected(t)) if t == "m:a"));
}
