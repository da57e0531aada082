//! The service-style configuration: projects with a setup command, an
//! optional `.env` file and services to run.
use vstd::prelude::*;

use crate::env::env_text;
use crate::env_map::{merge, EnvMap};
use crate::env_parser::parse_env;
use crate::paths::{join, join_path};

verus! {

/// A configuration: its projects.
#[derive(Debug, Clone)]
pub struct FyrerConfig {
    pub projects: Vec<Project>,
}

/// A project: its root, an optional setup command, variables, an optional
/// `.env` file, and its services by name.
#[derive(Debug, Clone)]
pub struct Project {
    pub name: String,
    pub root: String,
    pub setup: Option<String>,
    pub env: Option<EnvMap>,
    pub env_path: Option<String>,
    pub tasks: Vec<(String, Task)>,
}

/// A service of a project.
#[derive(Debug, Clone)]
pub struct Task {
    /// The directory the service runs in.
    pub dir: Option<String>,
    pub cmd: String,
    /// Which files restart the service when they change.
    pub watch: String,
    pub env: Option<EnvMap>,
    pub env_path: Option<String>,
    /// Whether the service's output is hidden.
    pub quiet: Option<bool>,
}

/// The `.env` file of a project: `env_path` under the root, `.env` when
/// none is set.
pub open spec fn project_env_path(root: Seq<char>, env_path: Option<String>) -> Seq<char> {
    match env_path {
        Some(p) => join(root, p@),
        None => join(root, ".env"@),
    }
}

/// The `.env` file of a service, if it has one: `env_path` under its
/// directory, `.env` in its directory when only the directory is set,
/// `env_path` as given when only that is set.
pub open spec fn task_env_path(dir: Option<String>, env_path: Option<String>) -> Option<Seq<char>> {
    match (dir, env_path) {
        (Some(d), Some(p)) => Some(join(d@, p@)),
        (Some(d), None) => Some(join(d@, ".env"@)),
        (None, Some(p)) => Some(p@),
        (None, None) => None,
    }
}

impl Project {
    /// The project's `.env` file.
    pub fn get_env_path(&self) -> (r: String)
        ensures
            r@ == project_env_path(self.root@, self.env_path),
    {
        match &self.env_path {
            Some(p) => join_path(self.root.as_str(), p.as_str()),
            None => join_path(self.root.as_str(), ".env"),
        }
    }

    /// The project's variables: those of its `.env` file, if it names one
    /// and `file` holds its text, overridden by its own `env`.
    pub fn get_project_env(&self, file: Option<&str>) -> (r: EnvMap)
        requires
            self.env matches Some(e) ==> e.wf(),
        ensures
            r.wf(),
            r@ == (match (self.env_path, file) {
                (Some(_), Some(text)) => env_text(text@, false),
                _ => Map::empty(),
            }).union_prefer_right(match self.env {
                Some(e) => e@,
                None => Map::empty(),
            }),
    {
        let base = match (&self.env_path, file) {
            (Some(_), Some(text)) => parse_env(text),
            _ => EnvMap::new(),
        };
        match &self.env {
            Some(e) => merge(&base, e),
            None => {
                let empty = EnvMap::new();
                let r = merge(&base, &empty);
                r
            },
        }
    }
}

impl Project {
    /// The command that sets the project up: its `setup` command, or one
    /// that says there is none.
    pub fn setup_command(&self) -> (r: String)
        ensures
            r@ == match self.setup {
                Some(c) => c@,
                None => "echo \"No setup command for "@ + self.name@ + "\""@,
            },
    {
        match &self.setup {
            Some(c) => c.clone(),
            None => String::from_str("echo \"No setup command for ").concat(self.name.as_str()).concat("\""),
        }
    }
}

/// The `.env` file of a service run in `dir`: `env_path` there, `.env` when
/// none is set.
pub fn service_env_path(dir: &str, env_path: Option<&str>) -> (r: String)
    ensures
        r@ == join(dir@, match env_path {
            Some(p) => p@,
            None => ".env"@,
        }),
{
    match env_path {
        Some(p) => join_path(dir, p),
        None => join_path(dir, ".env"),
    }
}

/// The variables a service runs with: those of its `.env` file, when its
/// text could be read, overridden by the service's own `env`.
pub fn service_env(file: Option<&str>, inline: Option<&EnvMap>) -> (r: EnvMap)
    requires
        inline matches Some(e) ==> e.wf(),
    ensures
        r.wf(),
        r@ == (match file {
            Some(text) => env_text(text@, false),
            None => Map::empty(),
        }).union_prefer_right(match inline {
            Some(e) => e@,
            None => Map::empty(),
        }),
{
    let base = match file {
        Some(text) => parse_env(text),
        None => EnvMap::new(),
    };
    match inline {
        Some(e) => merge(&base, e),
        None => {
            let empty = EnvMap::new();
            merge(&base, &empty)
        },
    }
}

impl Task {
    /// The service's `.env` file, if it has one.
    pub fn get_env_path(&self) -> (r: Option<String>)
        ensures
            match r {
                Some(p) => task_env_path(self.dir, self.env_path) == Some(p@),
                None => task_env_path(self.dir, self.env_path) is None,
            },
    {
        match (&self.dir, &self.env_path) {
            (Some(d), Some(p)) => Some(join_path(d.as_str(), p.as_str())),
            (Some(d), None) => Some(join_path(d.as_str(), ".env")),
            (None, Some(p)) => Some(p.clone()),
            (None, None) => None,
        }
    }
}

} // verus!
