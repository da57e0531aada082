use fyrer::paths::path_leaves_base;
use fyrer::workspace::parse_timeout;
use fyrer::env_map::EnvMap;
use fyrer::workspace::{
    check_pattern, CacheConfig, CacheProviderKind, FyrerConfig, PackageConfig, PathFacts, TaskConfig,
    ValidationError,
};

fn task() -> TaskConfig {
    TaskConfig {
        cmd: "echo hi".to_string(),
        depends_on: vec![],
        inputs: vec!["src/**/*.rs".to_string()],
        outputs: vec!["dist/**".to_string()],
        ignore: vec![],
        cache: false,
        persistent: false,
        watch: false,
        timeout_nanos: None,
        cwd: None,
        env: EnvMap::new(),
        env_file: None,
    }
}

fn package(name: &str, tasks: Vec<(&str, TaskConfig)>) -> PackageConfig {
    PackageConfig {
        name: name.to_string(),
        root: name.to_string(),
        env: EnvMap::new(),
        env_file: None,
        tasks: tasks.into_iter().map(|(n, t)| (n.to_string(), t)).collect(),
    }
}

fn config(packages: Vec<PackageConfig>) -> FyrerConfig {
    FyrerConfig {
        version: 1,
        cache: CacheConfig::default(),
        env: EnvMap::new(),
        packages,
    }
}

fn facts(existing: &[&str], dirs: &[&str]) -> PathFacts {
    PathFacts {
        existing: existing.iter().map(|s| s.to_string()).collect(),
        dirs: dirs.iter().map(|s| s.to_string()).collect(),
    }
}

fn all_dirs() -> PathFacts {
    facts(&["web/.env", "web/src"], &["web", "api"])
}

#[test]
fn valid_workspace_passes() {
    let c = config(vec![package("web", vec![("build", task())]), package("api", vec![])]);
    assert!(c.validate(&all_dirs()).is_ok());
    assert_eq!(c.cache.provider, CacheProviderKind::Local);
}

#[test]
fn version_must_be_one() {
    let mut c = config(vec![]);
    c.version = 2;
    assert!(matches!(c.validate(&all_dirs()), Err(ValidationError::UnsupportedVersion(2))));
}

#[test]
fn package_rules_in_order() {
    let c = config(vec![package("web", vec![]), package("web", vec![])]);
    assert!(matches!(c.validate(&all_dirs()), Err(ValidationError::DuplicatePackageName(n)) if n == "web"));

    let mut p = package("web", vec![]);
    p.root = String::new();
    assert!(matches!(config(vec![p]).validate(&all_dirs()), Err(ValidationError::EmptyProjectRoot { .. })));

    let p = package("gone", vec![]);
    assert!(matches!(
        config(vec![p]).validate(&all_dirs()),
        Err(ValidationError::ProjectRootDoesNotExist { .. })
    ));

    let mut p = package("web", vec![]);
    p.root = "/abs".to_string();
    assert!(matches!(
        config(vec![p]).validate(&facts(&[], &["/abs"])),
        Err(ValidationError::AbsoluteProjectRoot { .. })
    ));

    let mut p = package("web", vec![]);
    p.env_file = Some(".env".to_string());
    assert!(config(vec![p]).validate(&all_dirs()).is_ok());
    let mut p = package("web", vec![]);
    p.env_file = Some("missing.env".to_string());
    assert!(matches!(
        config(vec![p]).validate(&all_dirs()),
        Err(ValidationError::EnvFileNotFound { file, task, .. }) if file == "missing.env" && task == "N/A"
    ));
    let mut p = package("web", vec![]);
    p.env_file = Some("/etc/env".to_string());
    assert!(matches!(
        config(vec![p]).validate(&all_dirs()),
        Err(ValidationError::AbsolutePath { actor, .. }) if actor == "env_file"
    ));
}

#[test]
fn task_rules_in_order() {
    let run = |t: TaskConfig| config(vec![package("web", vec![("build", t)])]).validate(&all_dirs());

    let c = config(vec![package("web", vec![("build", task()), ("build", task())])]);
    assert!(matches!(c.validate(&all_dirs()), Err(ValidationError::DuplicateTaskName { .. })));

    let mut t = task();
    t.cmd = String::new();
    assert!(matches!(run(t), Err(ValidationError::EmptyCommand { .. })));

    let mut t = task();
    t.timeout_nanos = Some(0);
    assert!(matches!(run(t), Err(ValidationError::InvalidTimeout { .. })));
    let mut t = task();
    t.timeout_nanos = Some(5_000_000_000);
    assert!(run(t).is_ok());
    let mut t = task();
    t.timeout_nanos = Some(500_000_000);
    assert!(run(t).is_ok());

    let mut t = task();
    t.cwd = Some("src".to_string());
    assert!(run(t).is_ok());
    let mut t = task();
    t.cwd = Some("nowhere".to_string());
    assert!(matches!(run(t), Err(ValidationError::InvalidCwd { .. })));

    let mut t = task();
    t.ignore = vec!["/tmp/*".to_string()];
    assert!(matches!(run(t), Err(ValidationError::AbsolutePath { actor, .. }) if actor == "ignore"));

    let mut t = task();
    t.inputs = vec!["src/[".to_string()];
    assert!(matches!(
        run(t),
        Err(ValidationError::InvalidGlobPattern { actor, pattern, .. }) if actor == "inputs" && pattern == "src/["
    ));

    let mut t = task();
    t.outputs = vec!["dist/***".to_string()];
    assert!(matches!(
        run(t),
        Err(ValidationError::InvalidGlobPattern { actor, .. }) if actor == "outputs"
    ));

    let mut t = task();
    t.cache = true;
    t.persistent = true;
    assert!(matches!(run(t), Err(ValidationError::CacheWithPersistentTask { .. })));

    let mut t = task();
    t.cache = true;
    t.watch = true;
    assert!(matches!(run(t), Err(ValidationError::CacheWithWatchTask { .. })));
}

#[test]
fn check_pattern_uses_the_given_verdict() {
    let p = "web".to_string();
    let t = "build".to_string();
    assert!(check_pattern(&p, &p, &t, "inputs", &"src/*".to_string(), true).is_none());
    assert!(matches!(
        check_pattern(&p, &p, &t, "inputs", &"src/*".to_string(), false),
        Some(ValidationError::InvalidGlobPattern { .. })
    ));
    assert!(matches!(
        check_pattern(&p, &p, &t, "inputs", &"/src/*".to_string(), true),
        Some(ValidationError::AbsolutePath { .. })
    ));
}

#[test]
fn paths_to_probe_lists_roots_and_files() {
    let mut t = task();
    t.cwd = Some("src".to_string());
    t.env_file = Some("task.env".to_string());
    let mut p = package("web", vec![("build", t)]);
    p.env_file = Some(".env".to_string());
    let probes = config(vec![p]).paths_to_probe();
    for want in ["web", "web/.env", "web/src", "web/task.env"] {
        assert!(probes.contains(&want.to_string()), "{want}");
    }
}

#[test]
fn cwd_must_stay_inside_the_package_root() {
    let run = |cwd: &str, existing: &[&str]| {
        let mut t = task();
        t.cwd = Some(cwd.to_string());
        let mut p = package("web", vec![("build", t)]);
        p.root = ".".to_string();
        let mut dirs: Vec<&str> = vec!["."];
        dirs.extend_from_slice(existing);
        config(vec![p]).validate(&facts(existing, &dirs))
    };
    assert!(matches!(run("..", &["./.."]), Err(ValidationError::InvalidCwd { .. })));
    assert!(matches!(run("src/../..", &["./src/../.."]), Err(ValidationError::InvalidCwd { .. })));
    assert!(matches!(run("../web/src", &["./../web/src"]), Err(ValidationError::InvalidCwd { .. })));
    assert!(run("src/../lib", &["./src/../lib"]).is_ok());
    assert!(run("./src/", &["././src/"]).is_ok());
}

#[test]
fn relative_paths_that_climb_out_are_detected() {
    assert!(path_leaves_base(".."));
    assert!(path_leaves_base("../b"));
    assert!(path_leaves_base("a/../.."));
    assert!(!path_leaves_base("a/../b"));
    assert!(!path_leaves_base("src"));
    assert!(!path_leaves_base(""));
    assert!(!path_leaves_base("./a//b/"));
}

#[test]
fn timeouts_are_read_with_their_units() {
    assert_eq!(parse_timeout("30s"), Some(30_000_000_000));
    assert_eq!(parse_timeout("500ms"), Some(500_000_000));
    assert_eq!(parse_timeout("2m"), Some(120_000_000_000));
    assert_eq!(parse_timeout("1h"), Some(3_600_000_000_000));
    assert_eq!(parse_timeout("7us"), Some(7_000));
    assert_eq!(parse_timeout("9ns"), Some(9));
    assert_eq!(parse_timeout("0s"), Some(0));
    assert_eq!(parse_timeout("30"), None);
    assert_eq!(parse_timeout("s"), None);
    assert_eq!(parse_timeout("3 s"), None);
    assert_eq!(parse_timeout("1.5s"), None);
}
