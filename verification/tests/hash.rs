use fyrer::config::RestartConfig;
use fyrer::env_map::EnvMap;
use fyrer::hash::{get_hash, hash_output_files, is_ignored, path_text_le, HashError, InputFile, InputGlob};
use fyrer::task_id::TaskId;
use fyrer::tasks::{Task, TaskMap};

fn make_task(id: &str, env: EnvMap, depends_on: Vec<String>) -> Task {
    Task {
        project_name: "m".to_string(),
        project_root: ".".to_string(),
        env,
        task_name: id.to_string(),
        cmd: "echo hi".to_string(),
        depends_on,
        inputs: Vec::new(),
        outputs: Vec::new(),
        ignore: Vec::new(),
        cache: true,
        restart: RestartConfig::default_config(),
    }
}

fn make_map(tasks: Vec<Task>) -> TaskMap {
    TaskMap::from_tasks(tasks)
}

fn env(pairs: &[(&str, &str)]) -> EnvMap {
    EnvMap::from_pairs(
        pairs
            .iter()
            .map(|(k, v)| (k.to_string(), v.to_string()))
            .collect(),
    )
}

fn hash(map: &TaskMap, id: &TaskId, globs: &Vec<InputGlob>) -> Result<String, HashError> {
    get_hash(map.get(id).unwrap(), map, globs)
}

#[test]
fn hash_is_stable_regardless_of_env_order() {
    let map = make_map(vec![
        make_task("a", env(&[("X", "1"), ("Y", "2")]), Vec::new()),
        make_task("b", env(&[("Y", "2"), ("X", "1")]), vec!["m:a".to_string()]),
    ]);
    let id = TaskId::new("m", "b");
    let first = hash(&map, &id, &vec![]).unwrap();
    let second = hash(&map, &id, &vec![]).unwrap();
    assert_eq!(first, second);
}

#[test]
fn hash_bubbles_up_dependency_changes() {
    let mut map = make_map(vec![
        make_task("a", EnvMap::new(), Vec::new()),
        make_task("b", EnvMap::new(), vec!["m:a".to_string()]),
    ]);
    let id_b = TaskId::new("m", "b");
    let before = hash(&map, &id_b, &vec![]).unwrap();

    let mut changed = make_task("a", EnvMap::new(), Vec::new());
    changed.cmd = "echo changed".to_string();
    map.insert(changed);
    let after = hash(&map, &id_b, &vec![]).unwrap();
    assert_ne!(before, after);
}

#[test]
fn hash_errors_on_circular_dependency() {
    let map = make_map(vec![
        make_task("a", EnvMap::new(), vec!["m:b".to_string()]),
        make_task("b", EnvMap::new(), vec!["m:a".to_string()]),
    ]);
    assert!(hash(&map, &TaskId::new("m", "a"), &vec![]).is_err());
}

#[test]
fn hash_errors_on_missing_dependency() {
    let map = make_map(vec![make_task(
        "a",
        EnvMap::new(),
        vec!["m:nope".to_string()],
    )]);
    assert!(hash(&map, &TaskId::new("m", "a"), &vec![]).is_err());
}

#[test]
fn env_insertion_order_does_not_change_the_hash() {
    let one = make_map(vec![make_task("a", env(&[("X", "1"), ("Y", "2")]), Vec::new())]);
    let two = make_map(vec![make_task("a", env(&[("Y", "2"), ("X", "1")]), Vec::new())]);
    let id = TaskId::new("m", "a");
    assert_eq!(hash(&one, &id, &vec![]).unwrap(), hash(&two, &id, &vec![]).unwrap());
}

#[test]
fn hash_is_hexadecimal_blake3() {
    let map = make_map(vec![make_task("a", EnvMap::new(), Vec::new())]);
    let h = hash(&map, &TaskId::new("m", "a"), &vec![]).unwrap();
    assert_eq!(h.len(), 64);
    assert!(h.chars().all(|c| c.is_ascii_hexdigit() && !c.is_ascii_uppercase()));
    // The stream of the task: each field framed by its lengths.
    let mut stream: Vec<u8> = Vec::new();
    for (k, v) in [("id", "m:a"), ("cmd", "echo hi"), ("root", ".")] {
        stream.extend_from_slice(&(k.len() as u64).to_le_bytes());
        stream.extend_from_slice(k.as_bytes());
        stream.extend_from_slice(&(v.len() as u64).to_le_bytes());
        stream.extend_from_slice(v.as_bytes());
    }
    assert_eq!(h, blake3::hash(&stream).to_hex().to_string());
}

#[test]
fn duplicate_dependencies_count_once() {
    let once = make_map(vec![
        make_task("a", EnvMap::new(), Vec::new()),
        make_task("b", EnvMap::new(), vec!["m:a".to_string()]),
    ]);
    let twice = make_map(vec![
        make_task("a", EnvMap::new(), Vec::new()),
        make_task("b", EnvMap::new(), vec!["m:a".to_string(), "m:a".to_string()]),
    ]);
    let id = TaskId::new("m", "b");
    assert_eq!(hash(&once, &id, &vec![]).unwrap(), hash(&twice, &id, &vec![]).unwrap());
}

#[test]
fn invalid_and_self_dependencies_have_no_hash() {
    let map = make_map(vec![make_task("a", EnvMap::new(), vec!["a".to_string()])]);
    assert!(matches!(
        hash(&map, &TaskId::new("m", "a"), &vec![]),
        Err(HashError::InvalidDependency { .. })
    ));
    let map = make_map(vec![make_task("a", EnvMap::new(), vec!["m:a".to_string()])]);
    assert!(matches!(
        hash(&map, &TaskId::new("m", "a"), &vec![]),
        Err(HashError::CircularDependency { .. })
    ));
}

fn task_with_input() -> Task {
    let mut t = make_task("a", EnvMap::new(), Vec::new());
    t.inputs = vec!["src/**/*".to_string()];
    t.ignore = vec!["*.log".to_string()];
    t
}

fn walk(files: Vec<(&str, Option<&str>)>) -> Vec<InputGlob> {
    vec![InputGlob {
        task: TaskId::new("m", "a"),
        input: "src/**/*".to_string(),
        walk: Ok(files
            .into_iter()
            .map(|(p, c)| InputFile {
                path: p.to_string(),
                content: c.map(|c| c.as_bytes().to_vec()).ok_or_else(|| "Permission denied (os error 13)".to_string()),
            })
            .collect()),
    }]
}

#[test]
fn input_contents_change_the_hash() {
    let map = make_map(vec![task_with_input()]);
    let id = TaskId::new("m", "a");
    let one = hash(&map, &id, &walk(vec![("src/main.rs", Some("one"))])).unwrap();
    let two = hash(&map, &id, &walk(vec![("src/main.rs", Some("two"))])).unwrap();
    assert_ne!(one, two);
}

#[test]
fn ignored_inputs_do_not_change_the_hash() {
    let map = make_map(vec![task_with_input()]);
    let id = TaskId::new("m", "a");
    let plain = hash(&map, &id, &walk(vec![("src/main.rs", Some("one"))])).unwrap();
    let with_log = hash(
        &map,
        &id,
        &walk(vec![("src/main.rs", Some("one")), ("server.log", None)]),
    )
    .unwrap();
    assert_eq!(plain, with_log);
}

#[test]
fn input_problems_are_errors() {
    let map = make_map(vec![task_with_input()]);
    let id = TaskId::new("m", "a");
    assert!(matches!(hash(&map, &id, &vec![]), Err(HashError::NoInputFiles { .. })));
    assert!(matches!(
        hash(&map, &id, &walk(vec![("a.log", Some("x"))])),
        Err(HashError::NoInputFiles { .. })
    ));
    assert!(matches!(
        hash(&map, &id, &walk(vec![("src/main.rs", None)])),
        Err(HashError::UnreadableInput { .. })
    ));
    let failed = vec![InputGlob {
        task: TaskId::new("m", "a"),
        input: "src/**/*".to_string(),
        walk: Err("bad pattern".to_string()),
    }];
    assert!(matches!(hash(&map, &id, &failed), Err(HashError::InputWalk { .. })));
}

#[test]
fn ignore_patterns_match_with_glob() {
    let patterns = vec!["*.log".to_string(), "dist/**".to_string()];
    assert!(is_ignored("server.log", &patterns));
    assert!(is_ignored("dist/a/b.js", &patterns));
    assert!(!is_ignored("src/main.rs", &patterns));
    assert!(!is_ignored("x", &vec!["[".to_string()]));
}

fn task_with_outputs() -> Task {
    let mut t = make_task("a", EnvMap::new(), Vec::new());
    t.outputs = vec!["dist/**/*".to_string(), "out.txt".to_string()];
    t.ignore = vec!["*.map".to_string()];
    t
}

fn output_walks(first: Vec<(&str, Option<&str>)>, second: Vec<(&str, Option<&str>)>) -> Vec<InputGlob> {
    let files = |fs: Vec<(&str, Option<&str>)>| -> Vec<InputFile> {
        fs.into_iter()
            .map(|(p, c)| InputFile { path: p.to_string(), content: c.map(|c| c.as_bytes().to_vec()).ok_or_else(|| "Permission denied (os error 13)".to_string()) })
            .collect()
    };
    vec![
        InputGlob { task: TaskId::new("m", "a"), input: "dist/**/*".to_string(), walk: Ok(files(first)) },
        InputGlob { task: TaskId::new("m", "a"), input: "out.txt".to_string(), walk: Ok(files(second)) },
    ]
}

#[test]
fn output_digest_does_not_depend_on_walk_order() {
    let t = task_with_outputs();
    let one = hash_output_files(
        &t,
        &output_walks(vec![("dist/b.js", Some("b")), ("dist/a.js", Some("a"))], vec![("out.txt", Some("o"))]),
    )
    .unwrap();
    let two = hash_output_files(
        &t,
        &output_walks(vec![("dist/a.js", Some("a")), ("dist/b.js", Some("b"))], vec![("out.txt", Some("o"))]),
    )
    .unwrap();
    assert_eq!(one, two);
    assert_eq!(one.len(), 64);
    assert!(one.chars().all(|c| c.is_ascii_hexdigit() && !c.is_ascii_uppercase()));
}

#[test]
fn output_contents_and_ignores() {
    let t = task_with_outputs();
    let base = hash_output_files(&t, &output_walks(vec![("dist/a.js", Some("a"))], vec![])).unwrap();
    let changed = hash_output_files(&t, &output_walks(vec![("dist/a.js", Some("z"))], vec![])).unwrap();
    assert_ne!(base, changed);
    let with_map =
        hash_output_files(&t, &output_walks(vec![("dist/a.js", Some("a")), ("dist/a.js.map", None)], vec![]))
            .unwrap();
    assert_eq!(base, with_map);
    let none = hash_output_files(&t, &output_walks(vec![], vec![])).unwrap();
    assert_ne!(base, none);
    let no_outputs = make_task("a", EnvMap::new(), Vec::new());
    assert_eq!(hash_output_files(&no_outputs, &vec![]).unwrap(), none);
}

#[test]
fn output_problems_are_errors() {
    let t = task_with_outputs();
    assert!(matches!(
        hash_output_files(&t, &output_walks(vec![("dist/a.js", None)], vec![])),
        Err(HashError::UnreadableInput { .. })
    ));
    let failed = vec![InputGlob {
        task: TaskId::new("m", "a"),
        input: "out.txt".to_string(),
        walk: Err("bad pattern".to_string()),
    }];
    match hash_output_files(&t, &failed) {
        Err(HashError::OutputWalk { output, task, message }) => {
            assert_eq!(output, "out.txt");
            assert_eq!(task, "m:a");
            assert_eq!(message, "bad pattern");
        },
        other => panic!("unexpected {:?}", other),
    }
}

#[test]
fn paths_compare_component_by_component() {
    assert!(path_text_le("dist/a", "dist-a"));
    assert!(!path_text_le("dist-a", "dist/a"));
    assert!(path_text_le("a", "a/b"));
    assert!(path_text_le("a/b", "a/c"));
    assert!(!path_text_le("b", "a"));
    assert!(path_text_le("same", "same"));
}

#[test]
fn hash_errors_have_messages() {
    let map = make_map(vec![make_task("a", EnvMap::new(), vec!["m:zzz".to_string()])]);
    let e = hash(&map, &TaskId::new("m", "a"), &vec![]).unwrap_err();
    assert_eq!(e.message(), "Dependency 'm:zzz' of task 'm:a' not found");

    let map = make_map(vec![make_task("a", EnvMap::new(), vec!["nocolon".to_string()])]);
    let e = hash(&map, &TaskId::new("m", "a"), &vec![]).unwrap_err();
    assert_eq!(e.message(), "Invalid dependency 'nocolon' of task 'm:a'");

    let map = make_map(vec![task_with_input()]);
    let e = hash(&map, &TaskId::new("m", "a"), &vec![]).unwrap_err();
    assert_eq!(e.message(), "No files matched input 'src/**/*' of task 'm:a'");

    let failed = vec![InputGlob {
        task: TaskId::new("m", "a"),
        input: "src/**/*".to_string(),
        walk: Err("Invalid input glob 'src/[': bad".to_string()),
    }];
    let e = hash(&map, &TaskId::new("m", "a"), &failed).unwrap_err();
    assert_eq!(e.message(), "Invalid input glob 'src/[': bad");

    let map = make_map(vec![
        make_task("a", EnvMap::new(), vec!["m:b".to_string()]),
        make_task("b", EnvMap::new(), vec!["m:a".to_string()]),
    ]);
    let e = hash(&map, &TaskId::new("m", "a"), &vec![]).unwrap_err();
    assert_eq!(e.message(), "Circular dependency detected involving task 'm:a'");
    let map = make_map(vec![task_with_input()]);
    let e = hash(&map, &TaskId::new("m", "a"), &walk(vec![("src/main.rs", None)])).unwrap_err();
    assert_eq!(e.message(), "Permission denied (os error 13)");
}

#[test]
fn input_walk_order_does_not_change_the_hash() {
    let map = make_map(vec![task_with_input()]);
    let id = TaskId::new("m", "a");
    let one = hash(&map, &id, &walk(vec![("src/b.rs", Some("b")), ("src/a.rs", Some("a")), ("src/a/x.rs", Some("x"))]))
        .unwrap();
    let two = hash(&map, &id, &walk(vec![("src/a/x.rs", Some("x")), ("src/a.rs", Some("a")), ("src/b.rs", Some("b"))]))
        .unwrap();
    assert_eq!(one, two);
}

#[test]
fn shared_dependencies_hash_the_same_along_every_path() {
    let map = make_map(vec![
        make_task("base", EnvMap::new(), Vec::new()),
        make_task("left", EnvMap::new(), vec!["m:base".to_string()]),
        make_task("right", EnvMap::new(), vec!["m:base".to_string()]),
        make_task("top", EnvMap::new(), vec!["m:left".to_string(), "m:right".to_string()]),
    ]);
    let top = hash(&map, &TaskId::new("m", "top"), &vec![]).unwrap();
    assert_eq!(top.len(), 64);
    assert_eq!(top, hash(&map, &TaskId::new("m", "top"), &vec![]).unwrap());
    let left = hash(&map, &TaskId::new("m", "left"), &vec![]).unwrap();
    let right = hash(&map, &TaskId::new("m", "right"), &vec![]).unwrap();
    assert_ne!(left, right);
    assert_ne!(top, left);
}
