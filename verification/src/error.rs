//! Errors of the library, each with the text it is shown as.
use vstd::prelude::*;

verus! {

/// Errors in building, checking and ordering the task graph.
#[derive(Debug, Clone)]
pub enum GraphError {
    /// A task lists itself among its dependencies.
    SelfDependency(String),
    /// A dependency names a task that does not exist.
    MissingDependency { dependent: String, dependency: String },
    /// The dependencies form a cycle; the task named is where it was found.
    CycleDetected(String),
    /// A requested task does not exist.
    TaskNotFound(String),
    /// A task specifier is not of the form `project:task`.
    InvalidTaskId { dependency: String, task: String },
}

/// A `GraphError` with its texts as character sequences.
pub ghost enum GraphErrorView {
    SelfDependency(Seq<char>),
    MissingDependency { dependent: Seq<char>, dependency: Seq<char> },
    CycleDetected(Seq<char>),
    TaskNotFound(Seq<char>),
    InvalidTaskId { dependency: Seq<char>, task: Seq<char> },
}

impl View for GraphError {
    type V = GraphErrorView;

    open spec fn view(&self) -> GraphErrorView {
        match self {
            GraphError::SelfDependency(s) => GraphErrorView::SelfDependency(s@),
            GraphError::MissingDependency { dependent, dependency } =>
                GraphErrorView::MissingDependency { dependent: dependent@, dependency: dependency@ },
            GraphError::CycleDetected(s) => GraphErrorView::CycleDetected(s@),
            GraphError::TaskNotFound(s) => GraphErrorView::TaskNotFound(s@),
            GraphError::InvalidTaskId { dependency, task } =>
                GraphErrorView::InvalidTaskId { dependency: dependency@, task: task@ },
        }
    }
}

/// Errors in reading and checking a project configuration.
#[derive(Debug, Clone)]
pub enum ConfigError {
    /// The file could not be read; `message` says why.
    ReadFile { path: String, message: String },
    /// The file is not valid YAML for a configuration; the text says why.
    ParseYaml(String),
    UnsupportedVersion { version: u32 },
    DuplicateProject { name: String },
    EmptyProjectRoot { project: String },
    AbsoluteProjectRoot { project: String, path: String },
    EmptyEnvPath { project: String },
    EmptyCommand { project: String, task: String },
    CacheWithoutOutputs { project: String, task: String },
    CacheWithoutInputs { project: String, task: String },
    CacheAndPersistent { project: String, task: String },
    FileChangeWithoutInputs { project: String, task: String },
    InvalidConfig(String),
    Other(String),
}

/// A `ConfigError` with its texts as character sequences.
pub ghost enum ConfigErrorView {
    ReadFile { path: Seq<char>, message: Seq<char> },
    ParseYaml(Seq<char>),
    UnsupportedVersion { version: u32 },
    DuplicateProject { name: Seq<char> },
    EmptyProjectRoot { project: Seq<char> },
    AbsoluteProjectRoot { project: Seq<char>, path: Seq<char> },
    EmptyEnvPath { project: Seq<char> },
    EmptyCommand { project: Seq<char>, task: Seq<char> },
    CacheWithoutOutputs { project: Seq<char>, task: Seq<char> },
    CacheWithoutInputs { project: Seq<char>, task: Seq<char> },
    CacheAndPersistent { project: Seq<char>, task: Seq<char> },
    FileChangeWithoutInputs { project: Seq<char>, task: Seq<char> },
    InvalidConfig(Seq<char>),
    Other(Seq<char>),
}

impl View for ConfigError {
    type V = ConfigErrorView;

    open spec fn view(&self) -> ConfigErrorView {
        match self {
            ConfigError::ReadFile { path, message } => ConfigErrorView::ReadFile { path: path@, message: message@ },
            ConfigError::ParseYaml(s) => ConfigErrorView::ParseYaml(s@),
            ConfigError::UnsupportedVersion { version } => ConfigErrorView::UnsupportedVersion { version: *version },
            ConfigError::DuplicateProject { name } => ConfigErrorView::DuplicateProject { name: name@ },
            ConfigError::EmptyProjectRoot { project } => ConfigErrorView::EmptyProjectRoot { project: project@ },
            ConfigError::AbsoluteProjectRoot { project, path } => ConfigErrorView::AbsoluteProjectRoot {
                project: project@,
                path: path@,
            },
            ConfigError::EmptyEnvPath { project } => ConfigErrorView::EmptyEnvPath { project: project@ },
            ConfigError::EmptyCommand { project, task } => ConfigErrorView::EmptyCommand { project: project@, task: task@ },
            ConfigError::CacheWithoutOutputs { project, task } => ConfigErrorView::CacheWithoutOutputs {
                project: project@,
                task: task@,
            },
            ConfigError::CacheWithoutInputs { project, task } => ConfigErrorView::CacheWithoutInputs {
                project: project@,
                task: task@,
            },
            ConfigError::CacheAndPersistent { project, task } => ConfigErrorView::CacheAndPersistent {
                project: project@,
                task: task@,
            },
            ConfigError::FileChangeWithoutInputs { project, task } => ConfigErrorView::FileChangeWithoutInputs {
                project: project@,
                task: task@,
            },
            ConfigError::InvalidConfig(s) => ConfigErrorView::InvalidConfig(s@),
            ConfigError::Other(s) => ConfigErrorView::Other(s@),
        }
    }
}

/// Errors of the shared run state.
#[derive(Debug, Clone, Copy, PartialEq, Eq, Structural)]
pub enum StateError {
    AlreadyInitialized,
    NotInitialized,
}

/// Errors in reading and writing files; `message` says what the system
/// reported.
#[derive(Debug, Clone)]
pub enum IoError {
    ReadFile { path: String, message: String },
    WriteFile { path: String, message: String },
    CreateDir { path: String, message: String },
    NotFound(String),
    PermissionDenied { path: String, message: String },
}

/// Errors in reading an `.env` file.
#[derive(Debug, Clone)]
pub enum EvnError {
    ReadFile { message: String },
}

/// Any error of the library, by the part it comes from.
#[derive(Debug, Clone)]
pub enum FyrerError {
    Config(ConfigError),
    Graph(GraphError),
    Io(IoError),
    State(StateError),
    Env(EvnError),
    /// A file that had to be read does not exist.
    FileNotFound(String),
}

/// `'text'`.
pub open spec fn quoted(text: Seq<char>) -> Seq<char> {
    "'"@ + text + "'"@
}

/// The text a `ConfigError` is shown as.
pub open spec fn config_error_text(e: ConfigErrorView) -> Seq<char> {
    match e {
        ConfigErrorView::ReadFile { path, message } => "failed to read config file at "@ + quoted(path) + ": "@ + message,
        ConfigErrorView::ParseYaml(m) => "failed to parse YAML config: "@ + m,
        ConfigErrorView::UnsupportedVersion { version } => "unsupported config version "@ + quoted(
            crate::error::decimal(version as nat),
        ) + ", expected 1"@,
        ConfigErrorView::DuplicateProject { name } => "duplicate project name "@ + quoted(name),
        ConfigErrorView::EmptyProjectRoot { project } => "project "@ + quoted(project) + " has empty root path"@,
        ConfigErrorView::AbsoluteProjectRoot { project, path } => "project "@ + quoted(project) + " has absolute root path "@
            + quoted(path) + ". Root must be relative"@,
        ConfigErrorView::EmptyEnvPath { project } => "project "@ + quoted(project) + " has empty env_path"@,
        ConfigErrorView::EmptyCommand { project, task } => "task "@ + quoted(task) + " in project "@ + quoted(project)
            + " has empty cmd"@,
        ConfigErrorView::CacheWithoutOutputs { project, task } => "task "@ + quoted(task) + " in project "@ + quoted(
            project,
        ) + " has cache enabled but no outputs defined"@,
        ConfigErrorView::CacheWithoutInputs { project, task } => "task "@ + quoted(task) + " in project "@ + quoted(
            project,
        ) + " has cache enabled but no inputs defined"@,
        ConfigErrorView::CacheAndPersistent { project, task } => "task "@ + quoted(task) + " in project "@ + quoted(
            project,
        ) + " cannot be both cacheable and persistent"@,
        ConfigErrorView::FileChangeWithoutInputs { project, task } => "task "@ + quoted(task) + " in project "@
            + quoted(project) + " uses the FileChange restart strategy but has no inputs defined"@,
        ConfigErrorView::InvalidConfig(m) => "invalid config: "@ + m,
        ConfigErrorView::Other(m) => m,
    }
}

/// The decimal digits of `n`.
pub open spec fn decimal(n: nat) -> Seq<char>
    decreases n,
{
    if n < 10 {
        digit(n)
    } else {
        decimal(n / 10) + digit(n % 10)
    }
}

/// The text of digit `d < 10`.
pub open spec fn digit(d: nat) -> Seq<char> {
    if d == 0 {
        "0"@
    } else if d == 1 {
        "1"@
    } else if d == 2 {
        "2"@
    } else if d == 3 {
        "3"@
    } else if d == 4 {
        "4"@
    } else if d == 5 {
        "5"@
    } else if d == 6 {
        "6"@
    } else if d == 7 {
        "7"@
    } else if d == 8 {
        "8"@
    } else {
        "9"@
    }
}

/// The text a `GraphError` is shown as.
pub open spec fn graph_error_text(e: GraphErrorView) -> Seq<char> {
    match e {
        GraphErrorView::SelfDependency(t) => "task "@ + quoted(t) + " depends on itself"@,
        GraphErrorView::MissingDependency { dependent, dependency } => "task "@ + quoted(dependent)
            + " depends on unknown task "@ + quoted(dependency),
        GraphErrorView::CycleDetected(t) => "dependency cycle detected at task "@ + quoted(t),
        GraphErrorView::TaskNotFound(t) => "task "@ + quoted(t) + " not found in the task graph"@,
        GraphErrorView::InvalidTaskId { dependency, task } => "invalid task id "@ + quoted(dependency)
            + " in task "@ + quoted(task),
    }
}

/// The text a `StateError` is shown as.
pub open spec fn state_error_text(e: StateError) -> Seq<char> {
    match e {
        StateError::AlreadyInitialized => "global state has already been initialized"@,
        StateError::NotInitialized => "global state has not been initialized yet"@,
    }
}

/// Appends `'text'`.
pub fn push_quoted(s: String, text: &str) -> (r: String)
    ensures
        r@ == s@ + quoted(text@),
{
    let r = s.concat("'").concat(text).concat("'");
    proof {
        assert(r@ =~= s@ + quoted(text@));
    }
    r
}

/// The decimal text of a number.
pub fn decimal_text(n: u64) -> (r: String)
    ensures
        r@ == decimal(n as nat),
    decreases n,
{
    let d: u64 = n % 10;
    let c: &str = if d == 0 {
        "0"
    } else if d == 1 {
        "1"
    } else if d == 2 {
        "2"
    } else if d == 3 {
        "3"
    } else if d == 4 {
        "4"
    } else if d == 5 {
        "5"
    } else if d == 6 {
        "6"
    } else if d == 7 {
        "7"
    } else if d == 8 {
        "8"
    } else {
        "9"
    };
    if n < 10 {
        String::from_str(c)
    } else {
        decimal_text(n / 10).concat(c)
    }
}

impl ConfigError {
    /// The text the error is shown as.
    pub fn message(&self) -> (r: String)
        ensures
            r@ == config_error_text(self@),
    {
        let r = match self {
            ConfigError::ReadFile { path, message } => push_quoted(String::from_str("failed to read config file at "), path.as_str()).concat(": ").concat(message.as_str()),
            ConfigError::ParseYaml(m) => String::from_str("failed to parse YAML config: ").concat(m.as_str()),
            ConfigError::UnsupportedVersion { version } => push_quoted(
                String::from_str("unsupported config version "),
                decimal_text(*version as u64).as_str(),
            ).concat(", expected 1"),
            ConfigError::DuplicateProject { name } => push_quoted(String::from_str("duplicate project name "), name.as_str()),
            ConfigError::EmptyProjectRoot { project } => push_quoted(String::from_str("project "), project.as_str()).concat(" has empty root path"),
            ConfigError::AbsoluteProjectRoot { project, path } => push_quoted(
                push_quoted(String::from_str("project "), project.as_str()).concat(" has absolute root path "),
                path.as_str(),
            ).concat(". Root must be relative"),
            ConfigError::EmptyEnvPath { project } => push_quoted(String::from_str("project "), project.as_str()).concat(" has empty env_path"),
            ConfigError::EmptyCommand { project, task } => push_quoted(
                push_quoted(String::from_str("task "), task.as_str()).concat(" in project "),
                project.as_str(),
            ).concat(" has empty cmd"),
            ConfigError::CacheWithoutOutputs { project, task } => push_quoted(
                push_quoted(String::from_str("task "), task.as_str()).concat(" in project "),
                project.as_str(),
            ).concat(" has cache enabled but no outputs defined"),
            ConfigError::CacheWithoutInputs { project, task } => push_quoted(
                push_quoted(String::from_str("task "), task.as_str()).concat(" in project "),
                project.as_str(),
            ).concat(" has cache enabled but no inputs defined"),
            ConfigError::CacheAndPersistent { project, task } => push_quoted(
                push_quoted(String::from_str("task "), task.as_str()).concat(" in project "),
                project.as_str(),
            ).concat(" cannot be both cacheable and persistent"),
            ConfigError::FileChangeWithoutInputs { project, task } => push_quoted(
                push_quoted(String::from_str("task "), task.as_str()).concat(" in project "),
                project.as_str(),
            ).concat(" uses the FileChange restart strategy but has no inputs defined"),
            ConfigError::InvalidConfig(m) => String::from_str("invalid config: ").concat(m.as_str()),
            ConfigError::Other(m) => m.clone(),
        };
        proof {
            assert(r@ =~= config_error_text(self@));
        }
        r
    }
}

impl GraphError {
    /// The text the error is shown as.
    pub fn message(&self) -> (r: String)
        ensures
            r@ == graph_error_text(self@),
    {
        let r = match self {
            GraphError::SelfDependency(t) => push_quoted(String::from_str("task "), t.as_str()).concat(" depends on itself"),
            GraphError::MissingDependency { dependent, dependency } => push_quoted(
                push_quoted(String::from_str("task "), dependent.as_str()).concat(" depends on unknown task "),
                dependency.as_str(),
            ),
            GraphError::CycleDetected(t) => push_quoted(String::from_str("dependency cycle detected at task "), t.as_str()),
            GraphError::TaskNotFound(t) => push_quoted(String::from_str("task "), t.as_str()).concat(" not found in the task graph"),
            GraphError::InvalidTaskId { dependency, task } => push_quoted(
                push_quoted(String::from_str("invalid task id "), dependency.as_str()).concat(" in task "),
                task.as_str(),
            ),
        };
        proof {
            assert(r@ =~= graph_error_text(self@));
        }
        r
    }
}

impl StateError {
    /// The text the error is shown as.
    pub fn message(&self) -> (r: String)
        ensures
            r@ == state_error_text(*self),
    {
        match self {
            StateError::AlreadyInitialized => String::from_str("global state has already been initialized"),
            StateError::NotInitialized => String::from_str("global state has not been initialized yet"),
        }
    }
}

/// The text an `IoError` is shown as.
pub open spec fn io_error_text(e: IoError) -> Seq<char> {
    match e {
        IoError::ReadFile { path, message } => "failed to read file at "@ + quoted(path@) + ": "@ + message@,
        IoError::WriteFile { path, message } => "failed to write file at "@ + quoted(path@) + ": "@ + message@,
        IoError::CreateDir { path, message } => "failed to create directory at "@ + quoted(path@) + ": "@ + message@,
        IoError::NotFound(path) => "file or directory not found at "@ + quoted(path@),
        IoError::PermissionDenied { path, message } => "permission denied while accessing "@ + quoted(path@) + ": "@
            + message@,
    }
}

impl IoError {
    /// The text the error is shown as.
    pub fn message(&self) -> (r: String)
        ensures
            r@ == io_error_text(*self),
    {
        let r = match self {
            IoError::ReadFile { path, message } => push_quoted(String::from_str("failed to read file at "), path.as_str()).concat(": ").concat(message.as_str()),
            IoError::WriteFile { path, message } => push_quoted(String::from_str("failed to write file at "), path.as_str()).concat(": ").concat(message.as_str()),
            IoError::CreateDir { path, message } => push_quoted(String::from_str("failed to create directory at "), path.as_str()).concat(": ").concat(message.as_str()),
            IoError::NotFound(path) => push_quoted(String::from_str("file or directory not found at "), path.as_str()),
            IoError::PermissionDenied { path, message } => push_quoted(String::from_str("permission denied while accessing "), path.as_str()).concat(": ").concat(message.as_str()),
        };
        proof {
            assert(r@ =~= io_error_text(*self));
        }
        r
    }
}

/// The text an `EvnError` is shown as.
pub open spec fn env_error_text(e: EvnError) -> Seq<char> {
    match e {
        EvnError::ReadFile { message } => "Failed to read env file:\n "@ + message@,
    }
}

impl EvnError {
    /// The text the error is shown as.
    pub fn message(&self) -> (r: String)
        ensures
            r@ == env_error_text(*self),
    {
        match self {
            EvnError::ReadFile { message } => String::from_str("Failed to read env file:\n ").concat(message.as_str()),
        }
    }
}

/// The text a `FyrerError` is shown as: its part, then the inner error.
pub open spec fn fyrer_error_text(e: FyrerError) -> Seq<char> {
    match e {
        FyrerError::Config(c) => "config error: "@ + config_error_text(c@),
        FyrerError::Graph(g) => "graph error: "@ + graph_error_text(g@),
        FyrerError::Io(i) => "io error: "@ + io_error_text(i),
        FyrerError::State(s) => "state error: "@ + state_error_text(s),
        FyrerError::Env(v) => "env error: "@ + env_error_text(v),
        FyrerError::FileNotFound(path) => "File not found: "@ + path@,
    }
}

impl FyrerError {
    /// The text the error is shown as.
    pub fn message(&self) -> (r: String)
        ensures
            r@ == fyrer_error_text(*self),
    {
        match self {
            FyrerError::Config(c) => String::from_str("config error: ").concat(c.message().as_str()),
            FyrerError::Graph(g) => String::from_str("graph error: ").concat(g.message().as_str()),
            FyrerError::Io(i) => String::from_str("io error: ").concat(i.message().as_str()),
            FyrerError::State(s) => String::from_str("state error: ").concat(s.message().as_str()),
            FyrerError::Env(v) => String::from_str("env error: ").concat(v.message().as_str()),
            FyrerError::FileNotFound(path) => String::from_str("File not found: ").concat(path.as_str()),
        }
    }
}

impl From<ConfigError> for FyrerError {
    fn from(e: ConfigError) -> (r: FyrerError) {
        FyrerError::Config(e)
    }
}

impl vstd::std_specs::convert::FromSpecImpl<ConfigError> for FyrerError {
    open spec fn obeys_from_spec() -> bool {
        true
    }

    open spec fn from_spec(e: ConfigError) -> FyrerError {
        FyrerError::Config(e)
    }
}

impl From<GraphError> for FyrerError {
    fn from(e: GraphError) -> (r: FyrerError) {
        FyrerError::Graph(e)
    }
}

impl vstd::std_specs::convert::FromSpecImpl<GraphError> for FyrerError {
    open spec fn obeys_from_spec() -> bool {
        true
    }

    open spec fn from_spec(e: GraphError) -> FyrerError {
        FyrerError::Graph(e)
    }
}

} // verus!
