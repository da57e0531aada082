use fyrer::error::{ConfigError, FyrerError, GraphError, IoError, StateError};

#[test]
fn test_fyrer_error_renders_domain() {
    let err = FyrerError::Config(ConfigError::DuplicateProject {
        name: "web".to_string(),
    });
    assert_eq!(err.message(), "config error: duplicate project name 'web'");

    let err = FyrerError::Graph(GraphError::TaskNotFound("api:build".to_string()));
    assert_eq!(
        err.message(),
        "graph error: task 'api:build' not found in the task graph"
    );

    let err = FyrerError::Io(IoError::NotFound("fyrer.yml".to_string()));
    assert_eq!(
        err.message(),
        "io error: file or directory not found at 'fyrer.yml'"
    );

    let err = FyrerError::State(StateError::AlreadyInitialized);
    assert_eq!(
        err.message(),
        "state error: global state has already been initialized"
    );
}

#[test]
fn test_question_mark_conversion() {
    fn takes_result() -> Result<(), FyrerError> {
        Err(ConfigError::UnsupportedVersion { version: 2 })?;
        Ok(())
    }
    assert!(matches!(
        takes_result().unwrap_err(),
        FyrerError::Config(ConfigError::UnsupportedVersion { version: 2 })
    ));
}

#[test]
fn config_error_messages() {
    assert_eq!(
        ConfigError::UnsupportedVersion { version: 12 }.message(),
        "unsupported config version '12', expected 1"
    );
    assert_eq!(
        ConfigError::EmptyCommand {
            project: "web".to_string(),
            task: "build".to_string()
        }
        .message(),
        "task 'build' in project 'web' has empty cmd"
    );
    assert_eq!(ConfigError::Other("plain".to_string()).message(), "plain");
}
