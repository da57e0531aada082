use fyrer::cache::{
    compute_key, hex_digits, is_fresh, outputs_exist, key_path, matched_input_files, needs_hydration, resolve_output_dirs, trim_text,
    CacheError, CacheMetadata, CacheStatus, LocalCacheProvider,
};
use fyrer::hash::{InputFile, InputGlob};
use fyrer::task_id::TaskId;
use fyrer::config::RestartConfig;
use fyrer::env_map::EnvMap;
use fyrer::tasks::Task;

fn task(root: &str, outputs: &[&str]) -> Task {
    Task {
        project_name: "proj".to_string(),
        project_root: root.to_string(),
        env: EnvMap::new(),
        task_name: "build".to_string(),
        cmd: "echo hi".to_string(),
        depends_on: vec![],
        inputs: vec![],
        outputs: outputs.iter().map(|s| s.to_string()).collect(),
        ignore: vec![],
        cache: true,
        restart: RestartConfig::default_config(),
    }
}

#[test]
fn key_file_is_per_project_and_task() {
    assert_eq!(key_path(".fyrer/cache", &task(".", &[])), ".fyrer/cache/proj/build.key");
}

#[test]
fn freshness_needs_matching_key_and_outputs() {
    assert!(is_fresh(Some("abc"), Some("  abc\n"), true));
    assert!(!is_fresh(Some("abc"), Some("abd"), true));
    assert!(!is_fresh(Some("abc"), None, true));
    assert!(!is_fresh(None, Some("abc"), true));
    assert!(!is_fresh(Some("abc"), Some("abc"), false));
    assert_eq!(trim_text("\t x y \n"), "x y");
}

#[test]
fn output_dirs_stop_at_the_first_wildcard() {
    let dirs = resolve_output_dirs(&task("web", &["dist/**/*", "build/", "*.js", "out/a?b", "lib/[ab]/x"]));
    assert_eq!(dirs, vec!["web/dist", "web/build", "web/", "web/out/a", "web/lib"]);
}

#[test]
fn hydration_when_missing_or_changed() {
    let meta = CacheMetadata::new(
        "web:build".to_string(),
        10,
        0,
        CacheStatus::Miss,
        "key".to_string(),
        "digest".to_string(),
        1,
    );
    assert!(!needs_hydration(Some(&meta), "digest"));
    assert!(needs_hydration(Some(&meta), "other"));
    assert!(needs_hydration(None, "digest"));
    assert_eq!(meta.cache_status, CacheStatus::Miss);
}

#[test]
fn local_provider_keeps_entries_under_its_directory() {
    let p = LocalCacheProvider::new(".fyrer/cache".to_string());
    assert_eq!(p.cache_dir(), ".fyrer/cache");
    assert_eq!(p.entry_dir("abc"), ".fyrer/cache/abc");
}

fn key_task(root: &str, cmd: &str, inputs: &[&str], outputs: &[&str]) -> Task {
    let mut t = task(root, outputs);
    t.cmd = cmd.to_string();
    t.inputs = inputs.iter().map(|s| s.to_string()).collect();
    t
}

fn walks(pattern: &str, files: &[(&str, Option<&str>)]) -> Vec<InputGlob> {
    vec![InputGlob {
        task: TaskId::new("proj", "build"),
        input: pattern.to_string(),
        walk: Ok(files
            .iter()
            .map(|(p, c)| InputFile { path: p.to_string(), content: c.map(|c| c.as_bytes().to_vec()).ok_or_else(|| "Permission denied (os error 13)".to_string()) })
            .collect()),
    }]
}

#[test]
fn key_is_deterministic() {
    let task = key_task("root", "echo hi", &["src/**/*"], &["dist/**/*"]);
    let w = walks("src/**/*", &[("src/main.rs", Some("one"))]);
    assert_eq!(compute_key(&task, &w).unwrap(), compute_key(&task, &w).unwrap());
}

#[test]
fn key_changes_with_input_content() {
    let task = key_task("root", "echo hi", &["src/**/*"], &["dist/**/*"]);
    let before = compute_key(&task, &walks("src/**/*", &[("src/main.rs", Some("one"))])).unwrap();
    let after = compute_key(&task, &walks("src/**/*", &[("src/main.rs", Some("two"))])).unwrap();
    assert_ne!(after, before);
}

#[test]
fn key_changes_with_cmd_and_env() {
    let w = walks("src/**/*", &[("src/main.rs", Some("one"))]);
    let base = key_task("root", "echo hi", &["src/**/*"], &["dist/**/*"]);
    let key = compute_key(&base, &w).unwrap();

    let different_cmd = key_task("root", "echo bye", &["src/**/*"], &["dist/**/*"]);
    assert_ne!(compute_key(&different_cmd, &w).unwrap(), key);

    let mut with_env = key_task("root", "echo hi", &["src/**/*"], &["dist/**/*"]);
    with_env.env.insert("PORT".to_string(), "3000".to_string());
    assert_ne!(compute_key(&with_env, &w).unwrap(), key);
}

#[test]
fn fresh_requires_a_recorded_key() {
    let task = key_task("root", "echo hi", &["src/**/*"], &["dist/**/*"]);
    let key = compute_key(&task, &walks("src/**/*", &[("src/main.rs", Some("one"))])).unwrap();
    assert!(!is_fresh(Some(&key), None, true));
}

#[test]
fn records_then_reports_fresh() {
    let task = key_task("root", "echo hi", &["src/**/*"], &["dist/**/*"]);
    let w = walks("src/**/*", &[("src/main.rs", Some("one"))]);
    let recorded = compute_key(&task, &w).unwrap();
    let now = compute_key(&task, &w).unwrap();
    assert!(is_fresh(Some(&now), Some(&recorded), true));
}

#[test]
fn missing_outputs_invalidate_freshness() {
    let task = key_task("root", "echo hi", &["src/**/*"], &["dist/**/*"]);
    let w = walks("src/**/*", &[("src/main.rs", Some("one"))]);
    let recorded = compute_key(&task, &w).unwrap();
    assert!(!is_fresh(Some(&recorded), Some(&recorded), false));
}

#[test]
fn changed_inputs_invalidate_freshness() {
    let task = key_task("root", "echo hi", &["src/**/*"], &["dist/**/*"]);
    let recorded = compute_key(&task, &walks("src/**/*", &[("src/main.rs", Some("one"))])).unwrap();
    let now = compute_key(&task, &walks("src/**/*", &[("src/main.rs", Some("two"))])).unwrap();
    assert!(!is_fresh(Some(&now), Some(&recorded), true));
}

#[test]
fn ignored_inputs_are_not_hashed() {
    let mut task = key_task("root", "echo hi", &["**/*"], &["dist/**/*"]);
    task.ignore = vec!["*.log".to_string()];
    let files = matched_input_files(&task, &walks("**/*", &[("a.txt", Some("one")), ("server.log", Some("logs"))])).unwrap();
    assert!(files.iter().all(|f| !f.path.ends_with(".log")));
    assert_eq!(files.len(), 1);
    assert_eq!(files[0].path, "root/a.txt");
}

#[test]
fn matched_files_are_sorted_once_each() {
    let mut task = key_task("root", "echo hi", &["src/*", "src/**/*"], &[]);
    task.ignore = vec!["*.tmp".to_string()];
    let w = vec![
        InputGlob {
            task: TaskId::new("proj", "build"),
            input: "src/*".to_string(),
            walk: Ok(vec![
                InputFile { path: "src/b.rs".to_string(), content: Ok(b"b".to_vec()) },
                InputFile { path: "src/a.rs".to_string(), content: Ok(b"a".to_vec()) },
            ]),
        },
        InputGlob {
            task: TaskId::new("proj", "build"),
            input: "src/**/*".to_string(),
            walk: Ok(vec![
                InputFile { path: "src/x/c.rs".to_string(), content: Ok(b"c".to_vec()) },
                InputFile { path: "src/a.rs".to_string(), content: Ok(b"a".to_vec()) },
                InputFile { path: "src/x/d.tmp".to_string(), content: Err("Permission denied (os error 13)".to_string()) },
                InputFile { path: "src-old.rs".to_string(), content: Err("Permission denied (os error 13)".to_string()) },
                InputFile { path: "junk.tmp".to_string(), content: Err("Permission denied (os error 13)".to_string()) },
            ]),
        },
    ];
    let files = matched_input_files(&task, &w).unwrap();
    let paths: Vec<&str> = files.iter().map(|f| f.path.as_str()).collect();
    assert_eq!(
        paths,
        vec!["root/src/a.rs", "root/src/b.rs", "root/src/x/c.rs", "root/src/x/d.tmp", "root/src-old.rs"]
    );
    // The ignore pattern does not cross a `/`: `*.tmp` only matches at the root.
    let mut deep = key_task("root", "echo hi", &["src/**/*"], &[]);
    deep.ignore = vec!["*.tmp".to_string()];
    let only_tmp = walks("src/**/*", &[("src/x/d.tmp", Some("t"))]);
    assert_eq!(matched_input_files(&deep, &only_tmp).unwrap().len(), 1);
}

#[test]
fn key_errors() {
    let task = key_task("root", "echo hi", &["src/**/*"], &[]);
    let failed = vec![InputGlob {
        task: TaskId::new("proj", "build"),
        input: "src/**/*".to_string(),
        walk: Err("bad pattern".to_string()),
    }];
    match compute_key(&task, &failed) {
        Err(CacheError::Glob { pattern, message }) => {
            assert_eq!(pattern, "root/src/**/*");
            assert_eq!(message, "bad pattern");
        },
        other => panic!("unexpected {:?}", other),
    }
    let unreadable = walks("src/**/*", &[("src/b.rs", None), ("src/a.rs", None), ("src/c.rs", Some("c"))]);
    match compute_key(&task, &unreadable) {
        Err(CacheError::ReadInput { path }) => assert_eq!(path, "root/src/a.rs"),
        other => panic!("unexpected {:?}", other),
    }
    let key = compute_key(&task, &walks("src/**/*", &[])).unwrap();
    assert_eq!(key.len(), 16);
    assert!(key.chars().all(|c| c.is_ascii_hexdigit() && !c.is_ascii_uppercase()));
}

#[test]
fn hex_digits_are_lowercase_and_padded() {
    assert_eq!(hex_digits(255, 16), "00000000000000ff");
    assert_eq!(hex_digits(0x1234abcd, 8), "1234abcd");
    assert_eq!(hex_digits(u64::MAX, 16), "ffffffffffffffff");
    assert_eq!(hex_digits(7, 0), "");
}

#[test]
fn outputs_exist_only_when_every_pattern_matches() {
    assert!(outputs_exist(&vec![]));
    assert!(outputs_exist(&vec![Some(1), Some(3)]));
    assert!(!outputs_exist(&vec![Some(2), Some(0)]));
    assert!(!outputs_exist(&vec![None, Some(4)]));
}
