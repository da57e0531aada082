//! The project configuration: projects, their tasks, and its validation.
use vstd::prelude::*;

use crate::env::{env_text, merge_envs};
use crate::env_map::EnvMap;
use crate::paths::join;
use crate::strings::{copy_strings, views};
use crate::tasks::{Task, TaskMap, TaskView};
use crate::error::{ConfigError, ConfigErrorView};
use crate::paths::{is_absolute, path_is_absolute};

verus! {

/// A whole configuration: the shared variables and the projects.
#[derive(Debug, Clone)]
pub struct FyrerConfig {
    pub version: u32,
    /// Environment variables shared by every project.
    pub env: EnvMap,
    pub projects: Vec<ProjectConfig>,
}

/// A single project in the monorepo.
#[derive(Debug, Clone)]
pub struct ProjectConfig {
    /// Unique project name, used as the first half of every task id.
    pub name: String,
    /// Relative root directory of the project.
    pub root: String,
    /// Environment variables shared by every task in the project.
    pub env: EnvMap,
    /// Path of the project's `.env` file, relative to `root`.
    pub env_path: String,
    /// The tasks defined in this project, each with its name; names are unique.
    pub tasks: Vec<(String, TaskConfig)>,
}

/// A task definition within a project.
#[derive(Debug, Clone)]
pub struct TaskConfig {
    /// The shell command to run.
    pub cmd: String,
    /// Names of tasks that must run first, either `name` or `project:name`.
    pub depends_on: Vec<String>,
    /// Glob patterns of files watched for changes.
    pub inputs: Vec<String>,
    /// Glob patterns of files produced by the task.
    pub outputs: Vec<String>,
    /// Glob patterns of files excluded from watching.
    pub ignore: Vec<String>,
    /// Whether the task may be skipped when its outputs are already fresh.
    pub cache: bool,
    /// How and when the task should be restarted.
    pub restart: RestartConfig,
    /// Environment variables that override the root and project-level env.
    pub env: EnvMap,
}

/// When a task is restarted.
#[derive(Debug, Clone, Copy, PartialEq, Eq, Structural)]
pub enum RestartStrategy {
    /// Restart whenever a watched input file changes.
    FileChange,
    /// Restart after the process exits with a failure.
    OnFailure,
    /// Never restart the task.
    Never,
}

/// Restart policy for a task.
#[derive(Debug, Clone, Copy, PartialEq, Eq, Structural)]
pub struct RestartConfig {
    /// When the task should be restarted.
    pub strategy: RestartStrategy,
    /// Debounce delay in milliseconds before restarting.
    pub delay: Option<u64>,
}

impl RestartConfig {
    /// The default policy: never restart, no delay.
    pub fn default_config() -> (r: RestartConfig)
        ensures
            r.strategy == RestartStrategy::Never,
            r.delay is None,
    {
        RestartConfig { strategy: RestartStrategy::Never, delay: None }
    }

    /// A copy of the policy.
    pub fn copy(&self) -> (r: RestartConfig)
        ensures
            r == *self,
    {
        *self
    }
}

/// The default for a list of strings: empty.
pub fn default_vec_string() -> (r: Vec<String>)
    ensures
        r@.len() == 0,
{
    Vec::new()
}

/// The default variables: none.
pub fn default_env_map() -> (r: EnvMap)
    ensures
        r.wf(),
        r@ == Map::<Seq<char>, Seq<char>>::empty(),
{
    EnvMap::new()
}

/// The default `.env` path of a project: `.env`.
pub fn default_env_path() -> (r: String)
    ensures
        r@ == ".env"@,
{
    String::from_str(".env")
}

/// The default tasks of a project: none.
pub fn default_tasks() -> (r: Vec<(String, TaskConfig)>)
    ensures
        r@.len() == 0,
{
    Vec::new()
}

/// The default for a flag: off.
pub fn default_bool() -> (r: bool)
    ensures
        r == false,
{
    false
}

/// The default command of a task.
pub fn default_cmd() -> (r: String)
    ensures
        r@ == "echo from fyrer"@,
{
    String::from_str("echo from fyrer")
}

/// The default restart policy: never.
pub fn default_restart() -> (r: RestartConfig)
    ensures
        r.strategy == RestartStrategy::Never,
        r.delay is None,
{
    RestartConfig::default_config()
}

/// What is wrong with project `i`, if anything: a name used by an earlier
/// project, an empty or absolute root, or an empty `.env` path.
pub open spec fn project_problem(ps: Seq<ProjectConfig>, i: int) -> Option<ConfigErrorView> {
    let p = ps[i];
    if exists|j: int| 0 <= j < i && #[trigger] ps[j].name@ == p.name@ {
        Some(ConfigErrorView::DuplicateProject { name: p.name@ })
    } else if p.root@.len() == 0 {
        Some(ConfigErrorView::EmptyProjectRoot { project: p.name@ })
    } else if is_absolute(p.root@) {
        Some(ConfigErrorView::AbsoluteProjectRoot { project: p.name@, path: p.root@ })
    } else if p.env_path@.len() == 0 {
        Some(ConfigErrorView::EmptyEnvPath { project: p.name@ })
    } else {
        None
    }
}

/// What is wrong with task `j` of project `p`, if anything: an empty
/// command, caching without outputs or inputs, or restarting on file changes
/// without inputs.
pub open spec fn task_problem(p: ProjectConfig, j: int) -> Option<ConfigErrorView> {
    let name = p.tasks@[j].0@;
    let t = p.tasks@[j].1;
    if t.cmd@.len() == 0 {
        Some(ConfigErrorView::EmptyCommand { project: p.name@, task: name })
    } else if t.cache && t.outputs@.len() == 0 {
        Some(ConfigErrorView::CacheWithoutOutputs { project: p.name@, task: name })
    } else if t.cache && t.inputs@.len() == 0 {
        Some(ConfigErrorView::CacheWithoutInputs { project: p.name@, task: name })
    } else if t.restart.strategy == RestartStrategy::FileChange && t.inputs@.len() == 0 {
        Some(ConfigErrorView::FileChangeWithoutInputs { project: p.name@, task: name })
    } else {
        None
    }
}

/// The first problem among the first `k` projects.
pub open spec fn first_project_problem(ps: Seq<ProjectConfig>, k: int) -> Option<ConfigErrorView>
    decreases k,
{
    if k <= 0 {
        None
    } else {
        match first_project_problem(ps, k - 1) {
            Some(e) => Some(e),
            None => project_problem(ps, k - 1),
        }
    }
}

/// The first problem among the first `k` tasks of project `p`.
pub open spec fn first_task_problem_in(p: ProjectConfig, k: int) -> Option<ConfigErrorView>
    decreases k,
{
    if k <= 0 {
        None
    } else {
        match first_task_problem_in(p, k - 1) {
            Some(e) => Some(e),
            None => task_problem(p, k - 1),
        }
    }
}

proof fn lemma_first_project_stable(ps: Seq<ProjectConfig>, k: int, m: int)
    requires
        0 <= k <= m,
        first_project_problem(ps, k) is Some,
    ensures
        first_project_problem(ps, m) == first_project_problem(ps, k),
    decreases m - k,
{
    if k < m {
        lemma_first_project_stable(ps, k, m - 1);
    }
}

proof fn lemma_first_task_in_stable(p: ProjectConfig, k: int, m: int)
    requires
        0 <= k <= m,
        first_task_problem_in(p, k) is Some,
    ensures
        first_task_problem_in(p, m) == first_task_problem_in(p, k),
    decreases m - k,
{
    if k < m {
        lemma_first_task_in_stable(p, k, m - 1);
    }
}

proof fn lemma_first_task_stable(ps: Seq<ProjectConfig>, k: int, m: int)
    requires
        0 <= k <= m,
        first_task_problem(ps, k) is Some,
    ensures
        first_task_problem(ps, m) == first_task_problem(ps, k),
    decreases m - k,
{
    if k < m {
        lemma_first_task_stable(ps, k, m - 1);
    }
}

/// The first task problem in the first `k` projects.
pub open spec fn first_task_problem(ps: Seq<ProjectConfig>, k: int) -> Option<ConfigErrorView>
    decreases k,
{
    if k <= 0 {
        None
    } else {
        match first_task_problem(ps, k - 1) {
            Some(e) => Some(e),
            None => first_task_problem_in(ps[k - 1], ps[k - 1].tasks@.len() as int),
        }
    }
}

/// The first problem of a configuration: an unsupported version, then the
/// projects in order, then their tasks in order.
pub open spec fn config_problem(c: FyrerConfig) -> Option<ConfigErrorView> {
    if c.version != 1 {
        Some(ConfigErrorView::UnsupportedVersion { version: c.version })
    } else {
        match first_project_problem(c.projects@, c.projects@.len() as int) {
            Some(e) => Some(e),
            None => first_task_problem(c.projects@, c.projects@.len() as int),
        }
    }
}

/// The variables of an optional `.env` text.
pub open spec fn text_env(text: Option<String>) -> Map<Seq<char>, Seq<char>> {
    match text {
        Some(t) => env_text(t@, true),
        None => Map::empty(),
    }
}

/// The resolved task `j` of project `p`, given the text of the project's
/// `.env` file. Its variables are, from lowest to highest precedence, the
/// root `env`, the project's `.env` file, the project `env` and the task `env`.
pub open spec fn built_task(root_env: Map<Seq<char>, Seq<char>>, p: ProjectConfig, file: Option<String>, j: int) -> TaskView {
    let t = p.tasks@[j].1;
    TaskView {
        project_name: p.name@,
        project_root: p.root@,
        env: root_env.union_prefer_right(text_env(file)).union_prefer_right(p.env@).union_prefer_right(t.env@),
        task_name: p.tasks@[j].0@,
        cmd: t.cmd@,
        depends_on: views(t.depends_on@),
        inputs: views(t.inputs@),
        outputs: views(t.outputs@),
        ignore: views(t.ignore@),
        cache: t.cache,
        restart: t.restart,
    }
}

/// `m` with the first `k` tasks of project `p` added.
pub open spec fn add_project_tasks(
    m: Map<(Seq<char>, Seq<char>), TaskView>,
    root_env: Map<Seq<char>, Seq<char>>,
    p: ProjectConfig,
    file: Option<String>,
    k: int,
) -> Map<(Seq<char>, Seq<char>), TaskView>
    decreases k,
{
    if k <= 0 {
        m
    } else {
        add_project_tasks(m, root_env, p, file, k - 1).insert(
            (p.name@, p.tasks@[k - 1].0@),
            built_task(root_env, p, file, k - 1),
        )
    }
}

/// The tasks of the first `k` projects, by id; a later task with the same id
/// replaces an earlier one.
pub open spec fn config_tasks(c: FyrerConfig, files: Seq<Option<String>>, k: int) -> Map<(Seq<char>, Seq<char>), TaskView>
    decreases k,
{
    if k <= 0 {
        Map::empty()
    } else {
        let p = c.projects@[k - 1];
        add_project_tasks(config_tasks(c, files, k - 1), c.env@, p, files[k - 1], p.tasks@.len() as int)
    }
}

impl FyrerConfig {
    /// Every variable map of the configuration is well formed.
    pub open spec fn envs_wf(&self) -> bool {
        &&& self.env.wf()
        &&& forall|i: int| 0 <= i < self.projects@.len() ==> (#[trigger] self.projects@[i]).env.wf()
        &&& forall|i: int, j: int|
            0 <= i < self.projects@.len() && 0 <= j < self.projects@[i].tasks@.len()
                ==> (#[trigger] self.projects@[i].tasks@[j]).1.env.wf()
    }

    /// Builds the resolved tasks of every project. `env_files[i]` is the
    /// text of project `i`'s `.env` file (at `root` joined with `env_path`),
    /// or `None` where it could not be read.
    pub fn create_task_map(&self, env_files: &Vec<Option<String>>) -> (r: TaskMap)
        requires
            self.envs_wf(),
            env_files@.len() == self.projects@.len(),
        ensures
            r.wf(),
            r.map_view() == config_tasks(*self, env_files@, self.projects@.len() as int),
    {
        let mut task_map = TaskMap::new();
        proof {
            assert(task_map.map_view() =~= Map::<(Seq<char>, Seq<char>), TaskView>::empty());
        }
        let ps = &self.projects;
        for i in 0..ps.len()
            invariant
                ps@ == self.projects@,
                self.envs_wf(),
                env_files@.len() == ps@.len(),
                task_map.wf(),
                task_map.map_view() == config_tasks(*self, env_files@, i as int),
        {
            let p = &ps[i];
            let file: Option<&str> = match &env_files[i] {
                Some(text) => Some(text.as_str()),
                None => None,
            };
            proof {
                assert(p.env.wf());
                assert(crate::env::file_env(file) == text_env(env_files@[i as int]));
            }
            for j in 0..p.tasks.len()
                invariant
                    ps@ == self.projects@,
                    self.envs_wf(),
                    i < ps@.len(),
                    *p == ps@[i as int],
                    env_files@.len() == ps@.len(),
                    crate::env::file_env(file) == text_env(env_files@[i as int]),
                    task_map.wf(),
                    task_map.map_view() == add_project_tasks(
                        config_tasks(*self, env_files@, i as int),
                        self.env@,
                        *p,
                        env_files@[i as int],
                        j as int,
                    ),
            {
                let name = &p.tasks[j].0;
                let tc = &p.tasks[j].1;
                proof {
                    assert(tc.env.wf());
                }
                let env = merge_envs(&self.env, &p.env, &tc.env, file, None);
                proof {
                    let em: Map<Seq<char>, Seq<char>> = Map::empty();
                    assert(env@ =~= built_task(self.env@, *p, env_files@[i as int], j as int).env) by {
                        assert(crate::env::file_env(None) =~= em);
                        assert(env@ =~= self.env@.union_prefer_right(crate::env::file_env(file)).union_prefer_right(p.env@).union_prefer_right(tc.env@));
                    }
                }
                let task = Task {
                    project_name: p.name.clone(),
                    project_root: p.root.clone(),
                    env,
                    task_name: name.clone(),
                    cmd: tc.cmd.clone(),
                    depends_on: copy_strings(&tc.depends_on),
                    inputs: copy_strings(&tc.inputs),
                    outputs: copy_strings(&tc.outputs),
                    ignore: copy_strings(&tc.ignore),
                    cache: tc.cache,
                    restart: tc.restart.copy(),
                };
                proof {
                    assert(task@ == built_task(self.env@, *p, env_files@[i as int], j as int));
                }
                task_map.insert(task);
            }
        }
        task_map
    }

    /// Checks the configuration and reports the first problem found.
    pub fn validate(&self) -> (r: Result<(), ConfigError>)
        ensures
            r is Ok <==> config_problem(*self) is None,
            r matches Err(e) ==> config_problem(*self) == Some(e@),
    {
        self.validate_version()?;
        self.validate_projects()?;
        self.validate_tasks()?;
        Ok(())
    }

    fn validate_version(&self) -> (r: Result<(), ConfigError>)
        ensures
            r is Ok <==> self.version == 1,
            r matches Err(e) ==> e@ == (ConfigErrorView::UnsupportedVersion { version: self.version }),
    {
        if self.version != 1 {
            return Err(ConfigError::UnsupportedVersion { version: self.version });
        }
        Ok(())
    }

    fn validate_projects(&self) -> (r: Result<(), ConfigError>)
        ensures
            r is Ok <==> first_project_problem(self.projects@, self.projects@.len() as int) is None,
            r matches Err(e) ==> first_project_problem(self.projects@, self.projects@.len() as int) == Some(e@),
    {
        let ps = &self.projects;
        for i in 0..ps.len()
            invariant
                ps@ == self.projects@,
                first_project_problem(ps@, i as int) is None,
        {
            let p = &ps[i];
            let mut j: usize = 0;
            while j < i
                invariant
                    j <= i < ps@.len(),
                    *p == ps@[i as int],
                    ps@ == self.projects@,
                    first_project_problem(ps@, i as int) is None,
                    forall|k: int| 0 <= k < j ==> ps@[k].name@ != p.name@,
                decreases i - j,
            {
                if ps[j].name == p.name {
                    let e = ConfigError::DuplicateProject { name: p.name.clone() };
                    proof {
                        assert(ps@[j as int].name@ == p.name@);
                        assert(project_problem(ps@, i as int) == Some(e@));
                        lemma_first_project_stable(ps@, i + 1, ps@.len() as int);
                    }
                    return Err(e);
                }
                j = j + 1;
            }
            proof {
                assert(!exists|k: int| 0 <= k < i && #[trigger] ps@[k].name@ == p.name@);
            }
            if p.root.unicode_len() == 0 {
                let e = ConfigError::EmptyProjectRoot { project: p.name.clone() };
                proof {
                    assert(project_problem(ps@, i as int) == Some(e@));
                    lemma_first_project_stable(ps@, i + 1, ps@.len() as int);
                }
                return Err(e);
            }
            if path_is_absolute(p.root.as_str()) {
                let e = ConfigError::AbsoluteProjectRoot { project: p.name.clone(), path: p.root.clone() };
                proof {
                    assert(project_problem(ps@, i as int) == Some(e@));
                    lemma_first_project_stable(ps@, i + 1, ps@.len() as int);
                }
                return Err(e);
            }
            if p.env_path.unicode_len() == 0 {
                let e = ConfigError::EmptyEnvPath { project: p.name.clone() };
                proof {
                    assert(project_problem(ps@, i as int) == Some(e@));
                    lemma_first_project_stable(ps@, i + 1, ps@.len() as int);
                }
                return Err(e);
            }
            proof {
                assert(project_problem(ps@, i as int) is None);
            }
        }
        Ok(())
    }

    fn validate_tasks(&self) -> (r: Result<(), ConfigError>)
        ensures
            r is Ok <==> first_task_problem(self.projects@, self.projects@.len() as int) is None,
            r matches Err(e) ==> first_task_problem(self.projects@, self.projects@.len() as int) == Some(e@),
    {
        let ps = &self.projects;
        for i in 0..ps.len()
            invariant
                ps@ == self.projects@,
                first_task_problem(ps@, i as int) is None,
        {
            let p = &ps[i];
            for j in 0..p.tasks.len()
                invariant
                    i < ps@.len(),
                    *p == ps@[i as int],
                    ps@ == self.projects@,
                    first_task_problem(ps@, i as int) is None,
                    first_task_problem_in(*p, j as int) is None,
            {
                let name = &p.tasks[j].0;
                let t = &p.tasks[j].1;
                if t.cmd.unicode_len() == 0 {
                    let e = ConfigError::EmptyCommand { project: p.name.clone(), task: name.clone() };
                    proof {
                        assert(task_problem(*p, j as int) == Some(e@));
                        lemma_first_task_in_stable(*p, j + 1, p.tasks@.len() as int);
                        lemma_first_task_stable(ps@, i + 1, ps@.len() as int);
                    }
                    return Err(e);
                }
                if t.cache && t.outputs.len() == 0 {
                    let e = ConfigError::CacheWithoutOutputs { project: p.name.clone(), task: name.clone() };
                    proof {
                        assert(task_problem(*p, j as int) == Some(e@));
                        lemma_first_task_in_stable(*p, j + 1, p.tasks@.len() as int);
                        lemma_first_task_stable(ps@, i + 1, ps@.len() as int);
                    }
                    return Err(e);
                }
                if t.cache && t.inputs.len() == 0 {
                    let e = ConfigError::CacheWithoutInputs { project: p.name.clone(), task: name.clone() };
                    proof {
                        assert(task_problem(*p, j as int) == Some(e@));
                        lemma_first_task_in_stable(*p, j + 1, p.tasks@.len() as int);
                        lemma_first_task_stable(ps@, i + 1, ps@.len() as int);
                    }
                    return Err(e);
                }
                if t.restart.strategy == RestartStrategy::FileChange && t.inputs.len() == 0 {
                    let e = ConfigError::FileChangeWithoutInputs { project: p.name.clone(), task: name.clone() };
                    proof {
                        assert(task_problem(*p, j as int) == Some(e@));
                        lemma_first_task_in_stable(*p, j + 1, p.tasks@.len() as int);
                        lemma_first_task_stable(ps@, i + 1, ps@.len() as int);
                    }
                    return Err(e);
                }
                proof {
                    assert(task_problem(*p, j as int) is None);
                }
            }
        }
        Ok(())
    }
}

// ---------------------------------------------------------------------------
// Laws of validation and of the built tasks.

proof fn lemma_task_problem_found_in(p: ProjectConfig, j: int, k: int)
    requires
        0 <= j < k,
        task_problem(p, j) is Some,
    ensures
        first_task_problem_in(p, k) is Some,
    decreases k,
{
    if j < k - 1 {
        lemma_task_problem_found_in(p, j, k - 1);
    }
}

proof fn lemma_task_problem_found(ps: Seq<ProjectConfig>, i: int, k: int)
    requires
        0 <= i < k,
        first_task_problem_in(ps[i], ps[i].tasks@.len() as int) is Some,
    ensures
        first_task_problem(ps, k) is Some,
    decreases k,
{
    if i < k - 1 {
        lemma_task_problem_found(ps, i, k - 1);
    }
}

/// Law: a configuration with a task whose command is empty is never
/// accepted: checking it reports a problem (the empty command, or one found
/// before it).
pub proof fn law_empty_command_is_refused(c: FyrerConfig, i: int, j: int)
    requires
        0 <= i < c.projects@.len(),
        0 <= j < c.projects@[i].tasks@.len(),
        c.projects@[i].tasks@[j].1.cmd@.len() == 0,
    ensures
        config_problem(c) is Some,
{
    let ps = c.projects@;
    assert(task_problem(ps[i], j) is Some);
    lemma_task_problem_found_in(ps[i], j, ps[i].tasks@.len() as int);
    lemma_task_problem_found(ps, i, ps.len() as int);
}

/// Every task of the map built from the first `k` projects was built from
/// some task `j` of some project `i` among them, under its id.
pub open spec fn built_from(c: FyrerConfig, files: Seq<Option<String>>, k: int, key: (Seq<char>, Seq<char>), v: TaskView) -> bool {
    exists|i: int, j: int|
        0 <= i < k && 0 <= j < c.projects@[i].tasks@.len() && key == (c.projects@[i].name@, c.projects@[i].tasks@[j].0@)
            && v == #[trigger] built_task(c.env@, c.projects@[i], files[i], j)
}

proof fn lemma_add_project_tasks_from(
    c: FyrerConfig,
    files: Seq<Option<String>>,
    m: Map<(Seq<char>, Seq<char>), TaskView>,
    i: int,
    k: int,
)
    requires
        0 <= i < c.projects@.len(),
        0 <= k <= c.projects@[i].tasks@.len(),
        forall|key: (Seq<char>, Seq<char>)| #[trigger] m.contains_key(key) ==> built_from(c, files, i + 1, key, m[key]),
    ensures
        forall|key: (Seq<char>, Seq<char>)|
            #[trigger] add_project_tasks(m, c.env@, c.projects@[i], files[i], k).contains_key(key) ==> built_from(
                c,
                files,
                i + 1,
                key,
                add_project_tasks(m, c.env@, c.projects@[i], files[i], k)[key],
            ),
    decreases k,
{
    if k > 0 {
        lemma_add_project_tasks_from(c, files, m, i, k - 1);
        let p = c.projects@[i];
        let prev = add_project_tasks(m, c.env@, p, files[i], k - 1);
        let cur = add_project_tasks(m, c.env@, p, files[i], k);
        assert forall|key: (Seq<char>, Seq<char>)| #[trigger] cur.contains_key(key) implies built_from(c, files, i + 1, key, cur[key]) by {
            if key == (p.name@, p.tasks@[k - 1].0@) {
                let v = built_task(c.env@, p, files[i], k - 1);
                assert(cur[key] == v);
                assert(0 <= k - 1 < c.projects@[i].tasks@.len());
            } else {
                assert(prev.contains_key(key));
                assert(cur[key] == prev[key]);
            }
        }
    }
}

proof fn lemma_config_tasks_from(c: FyrerConfig, files: Seq<Option<String>>, k: int)
    requires
        0 <= k <= c.projects@.len(),
    ensures
        forall|key: (Seq<char>, Seq<char>)|
            #[trigger] config_tasks(c, files, k).contains_key(key) ==> built_from(c, files, k, key, config_tasks(c, files, k)[key]),
    decreases k,
{
    if k > 0 {
        lemma_config_tasks_from(c, files, k - 1);
        let m = config_tasks(c, files, k - 1);
        assert forall|key: (Seq<char>, Seq<char>)| #[trigger] m.contains_key(key) implies built_from(c, files, k, key, m[key]) by {
            assert(built_from(c, files, k - 1, key, m[key]));
            let (i, j) = choose|i: int, j: int|
                0 <= i < k - 1 && 0 <= j < c.projects@[i].tasks@.len() && key == (
                    c.projects@[i].name@,
                    c.projects@[i].tasks@[j].0@,
                ) && m[key] == #[trigger] built_task(c.env@, c.projects@[i], files[i], j);
            assert(built_task(c.env@, c.projects@[i], files[i], j) == m[key]);
        }
        lemma_add_project_tasks_from(c, files, m, k - 1, c.projects@[k - 1].tasks@.len() as int);
    }
}

/// Law: every task of the built map keeps its task's own settings over the
/// layers below them: it is some task `j` of some project `i` of the
/// configuration, under its id and with its command; a variable set in the
/// task's own `env` has that value, whatever the project `env`, the
/// project's `.env` file or the root `env` set; a variable the task does not
/// set but the project `env` does has the project's value; and the task has
/// exactly the variables that some layer sets.
pub proof fn law_built_tasks_keep_their_own_env(c: FyrerConfig, files: Seq<Option<String>>, key: (Seq<char>, Seq<char>))
    requires
        files.len() == c.projects@.len(),
        config_tasks(c, files, c.projects@.len() as int).contains_key(key),
    ensures
        exists|i: int, j: int|
            0 <= i < c.projects@.len() && 0 <= j < c.projects@[i].tasks@.len() && key == (
                c.projects@[i].name@,
                c.projects@[i].tasks@[j].0@,
            ) && ({
                let p = c.projects@[i];
                let t = p.tasks@[j].1;
                let v = config_tasks(c, files, c.projects@.len() as int)[key];
                &&& v.cmd == t.cmd@
                &&& forall|x: Seq<char>| #[trigger] t.env@.contains_key(x) ==> v.env.contains_key(x) && v.env[x] == t.env@[x]
                &&& forall|x: Seq<char>|
                    !t.env@.contains_key(x) && #[trigger] p.env@.contains_key(x) ==> v.env.contains_key(x) && v.env[x]
                        == p.env@[x]
                &&& forall|x: Seq<char>|
                    #[trigger] v.env.contains_key(x) <==> (c.env@.contains_key(x) || text_env(files[i]).contains_key(x)
                        || p.env@.contains_key(x) || t.env@.contains_key(x))
            }),
{
    let n = c.projects@.len() as int;
    lemma_config_tasks_from(c, files, n);
    let m = config_tasks(c, files, n);
    assert(built_from(c, files, n, key, m[key]));
    let (i, j) = choose|i: int, j: int|
        0 <= i < n && 0 <= j < c.projects@[i].tasks@.len() && key == (c.projects@[i].name@, c.projects@[i].tasks@[j].0@)
            && m[key] == #[trigger] built_task(c.env@, c.projects@[i], files[i], j);
    assert(built_task(c.env@, c.projects@[i], files[i], j) == m[key]);
}

} // verus!
