use fyrer::env_parser::load_env_from_file;
use fyrer::env::merge_envs;
use fyrer::env_map::EnvMap;
use fyrer::env_parser::parse_env;

#[test]
fn parse_basic_key_value() {
    let input = "PORT=3000";
    let out = parse_env(&input);
    assert_eq!(out.get("PORT").unwrap(), "3000")
}

#[test]
fn ingore_comments_and_empty_lines() {
    let input = r#"

          # comment, should be ignored

          PORT=3000
        "#;
    let out = parse_env(&input);
    assert_eq!(out.get("PORT").unwrap(), "3000")
}

#[test]
fn ignore_invalid_lines() {
    let input = r#"
        this is an invalid line
        PORT=3000
        "#;
    let out = parse_env(&input);
    assert_eq!(out.len(), 1);
    assert_eq!(out.get("PORT").unwrap(), "3000")
}

#[test]
fn handle_qoutes() {
    let input = r#"
        PORT="3000"
        "#;
    let out = parse_env(&input);
    assert_eq!(out.get("PORT").unwrap(), "\"3000\"")
}

#[test]
fn later_line_wins_and_blank_names_are_skipped() {
    let out = parse_env("A=1\n=2\nA=3\r\nB = x = y ");
    assert_eq!(out.len(), 2);
    assert_eq!(out.get("A").unwrap(), "3");
    assert_eq!(out.get("B").unwrap(), "x = y");
}

#[test]
fn trimmed_parser_skips_indented_comments() {
    let out = fyrer::env::parse_env("   # X=1\n  Y=2  ");
    assert_eq!(out.len(), 1);
    assert_eq!(out.get("Y").unwrap(), "2");
}

#[test]
fn merge_envs_layers_in_order() {
    let global = EnvMap::from_pairs(vec![
        ("A".to_string(), "global".to_string()),
        ("B".to_string(), "global".to_string()),
        ("KEEP".to_string(), "root".to_string()),
    ]);
    let project = EnvMap::from_pairs(vec![("B".to_string(), "project".to_string())]);
    let task = EnvMap::from_pairs(vec![("C".to_string(), "task".to_string())]);
    let merged = merge_envs(
        &global,
        &project,
        &task,
        Some("A=project-file\nC=project-file"),
        Some("B=task-file"),
    );
    assert_eq!(merged.get("A").unwrap(), "project-file");
    assert_eq!(merged.get("B").unwrap(), "task-file");
    assert_eq!(merged.get("C").unwrap(), "task");
    assert_eq!(merged.get("KEEP").unwrap(), "root");
    assert_eq!(merged.len(), 4);
}

#[test]
fn handle_file_not_exist() {
    let out = load_env_from_file(".env", None);
    assert_eq!(out.unwrap_err().message(), "File not found: .env".to_string());
    let found = load_env_from_file(".env", Some("PORT=3000\n# note\n")).unwrap();
    assert_eq!(found.get("PORT").unwrap(), "3000");
    assert_eq!(found.len(), 1);
}
