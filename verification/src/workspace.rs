//! The package workspace configuration and its validation rules.
//!
//! Whether a path exists on disk is not something the library can observe:
//! the caller probes the paths that `FyrerConfig::paths_to_probe` lists and
//! hands the answers over as `PathFacts`.
use vstd::prelude::*;

use crate::env_map::EnvMap;
use crate::paths::{is_absolute, join, join_path, leaves_base, path_is_absolute, path_leaves_base};
use crate::kill_process::{is_digit, parse_u32, parse_u32_at};
use crate::strings::{chars_of, views};

verus! {

/// Where cached task outputs are kept.
#[derive(Debug, Clone, Copy, PartialEq, Eq, Structural)]
pub enum CacheProviderKind {
    /// A directory on the local disk.
    Local,
}

/// The cache settings of a workspace.
#[derive(Debug, Clone, Copy, PartialEq, Eq, Structural)]
pub struct CacheConfig {
    pub provider: CacheProviderKind,
}

impl Default for CacheConfig {
    fn default() -> (r: CacheConfig)
        ensures
            r.provider == CacheProviderKind::Local,
    {
        CacheConfig { provider: CacheProviderKind::Local }
    }
}

/// A task of a package.
#[derive(Debug, Clone)]
pub struct TaskConfig {
    /// The shell command to run.
    pub cmd: String,
    /// Tasks that must run first.
    pub depends_on: Vec<String>,
    /// Glob patterns of the input files, relative to the package root.
    pub inputs: Vec<String>,
    /// Glob patterns of the files produced.
    pub outputs: Vec<String>,
    /// Glob patterns excluded from inputs and outputs.
    pub ignore: Vec<String>,
    /// Whether a successful run may be reused.
    pub cache: bool,
    /// Whether the task keeps running (a server, a watcher).
    pub persistent: bool,
    /// Whether the task is restarted when its inputs change.
    pub watch: bool,
    /// The time limit, in nanoseconds (`Duration::as_nanos`).
    pub timeout_nanos: Option<u128>,
    /// The working directory, relative to the package root.
    pub cwd: Option<String>,
    /// Environment variables of the task.
    pub env: EnvMap,
    /// An `.env` file of the task, relative to the package root.
    pub env_file: Option<String>,
}

/// A package of the workspace.
#[derive(Debug, Clone)]
pub struct PackageConfig {
    pub name: String,
    /// The package root, relative to the workspace.
    pub root: String,
    pub env: EnvMap,
    /// An `.env` file of the package, relative to its root.
    pub env_file: Option<String>,
    /// The tasks, each with its name, in the order of the file.
    pub tasks: Vec<(String, TaskConfig)>,
}

/// A workspace: its format version, cache settings, shared variables and
/// packages.
#[derive(Debug, Clone)]
pub struct FyrerConfig {
    pub version: u32,
    pub cache: CacheConfig,
    pub env: EnvMap,
    pub packages: Vec<PackageConfig>,
}

/// What the disk said about the paths a validation asks about: those that
/// exist, and those that are directories.
#[derive(Debug, Clone)]
pub struct PathFacts {
    pub existing: Vec<String>,
    pub dirs: Vec<String>,
}

/// A broken validation rule.
#[derive(Debug, Clone)]
pub enum ValidationError {
    UnsupportedVersion(u32),
    DuplicatePackageName(String),
    EmptyProjectRoot { project: String },
    ProjectRootDoesNotExist { project: String },
    AbsoluteProjectRoot { project: String },
    EnvFileNotFound { project: String, task: String, file: String },
    DuplicateTaskName { project: String, task: String },
    EmptyCommand { project: String, task: String },
    InvalidTimeout { project: String, task: String },
    AbsolutePath { project: String, task: String, actor: String },
    InvalidGlobPattern { project: String, task: String, actor: String, pattern: String },
    InvalidCwd { project: String, task: String },
    CacheWithPersistentTask { project: String, task: String },
    CacheWithWatchTask { project: String, task: String },
}

/// A `ValidationError` with its texts as character sequences.
pub ghost enum ValidationErrorView {
    UnsupportedVersion(u32),
    DuplicatePackageName(Seq<char>),
    EmptyProjectRoot { project: Seq<char> },
    ProjectRootDoesNotExist { project: Seq<char> },
    AbsoluteProjectRoot { project: Seq<char> },
    EnvFileNotFound { project: Seq<char>, task: Seq<char>, file: Seq<char> },
    DuplicateTaskName { project: Seq<char>, task: Seq<char> },
    EmptyCommand { project: Seq<char>, task: Seq<char> },
    InvalidTimeout { project: Seq<char>, task: Seq<char> },
    AbsolutePath { project: Seq<char>, task: Seq<char>, actor: Seq<char> },
    InvalidGlobPattern { project: Seq<char>, task: Seq<char>, actor: Seq<char>, pattern: Seq<char> },
    InvalidCwd { project: Seq<char>, task: Seq<char> },
    CacheWithPersistentTask { project: Seq<char>, task: Seq<char> },
    CacheWithWatchTask { project: Seq<char>, task: Seq<char> },
}

impl View for ValidationError {
    type V = ValidationErrorView;

    open spec fn view(&self) -> ValidationErrorView {
        match self {
            ValidationError::UnsupportedVersion(v) => ValidationErrorView::UnsupportedVersion(*v),
            ValidationError::DuplicatePackageName(n) => ValidationErrorView::DuplicatePackageName(n@),
            ValidationError::EmptyProjectRoot { project } => ValidationErrorView::EmptyProjectRoot { project: project@ },
            ValidationError::ProjectRootDoesNotExist { project } =>
                ValidationErrorView::ProjectRootDoesNotExist { project: project@ },
            ValidationError::AbsoluteProjectRoot { project } =>
                ValidationErrorView::AbsoluteProjectRoot { project: project@ },
            ValidationError::EnvFileNotFound { project, task, file } =>
                ValidationErrorView::EnvFileNotFound { project: project@, task: task@, file: file@ },
            ValidationError::DuplicateTaskName { project, task } =>
                ValidationErrorView::DuplicateTaskName { project: project@, task: task@ },
            ValidationError::EmptyCommand { project, task } =>
                ValidationErrorView::EmptyCommand { project: project@, task: task@ },
            ValidationError::InvalidTimeout { project, task } =>
                ValidationErrorView::InvalidTimeout { project: project@, task: task@ },
            ValidationError::AbsolutePath { project, task, actor } =>
                ValidationErrorView::AbsolutePath { project: project@, task: task@, actor: actor@ },
            ValidationError::InvalidGlobPattern { project, task, actor, pattern } =>
                ValidationErrorView::InvalidGlobPattern {
                    project: project@,
                    task: task@,
                    actor: actor@,
                    pattern: pattern@,
                },
            ValidationError::InvalidCwd { project, task } =>
                ValidationErrorView::InvalidCwd { project: project@, task: task@ },
            ValidationError::CacheWithPersistentTask { project, task } =>
                ValidationErrorView::CacheWithPersistentTask { project: project@, task: task@ },
            ValidationError::CacheWithWatchTask { project, task } =>
                ValidationErrorView::CacheWithWatchTask { project: project@, task: task@ },
        }
    }
}

/// The view of an optional error.
pub open spec fn opt_view(o: Option<ValidationError>) -> Option<ValidationErrorView> {
    match o {
        Some(e) => Some(e@),
        None => None,
    }
}

/// Whether `pattern` is a glob pattern that `glob::Pattern::new` accepts.
pub uninterp spec fn glob_pattern_valid(pattern: Seq<char>) -> bool;

/// Whether `glob::Pattern::new` accepts `pattern`. The call depends on the
/// pattern's text alone.
#[verifier::external_body]
fn glob_pattern_is_valid(pattern: &str) -> (r: bool)
    ensures
        r == glob_pattern_valid(pattern@),
{
    glob::Pattern::new(pattern).is_ok()
}

/// Whether the disk said that `p` exists.
pub open spec fn path_exists(f: PathFacts, p: Seq<char>) -> bool {
    views(f.existing@).contains(p)
}

/// Whether the disk said that `p` is a directory.
pub open spec fn path_is_dir(f: PathFacts, p: Seq<char>) -> bool {
    views(f.dirs@).contains(p)
}

/// The text that stands for "no task" in errors about a package.
pub open spec fn no_task() -> Seq<char> {
    "N/A"@
}

/// What is wrong with the `.env` file `file` of `task` in `project`, whose
/// root is `root`: an absolute path, or a file that does not exist.
pub open spec fn env_file_problem(
    f: PathFacts,
    project: Seq<char>,
    root: Seq<char>,
    task: Seq<char>,
    file: Option<String>,
) -> Option<ValidationErrorView> {
    match file {
        None => None,
        Some(file) => if is_absolute(join(root, file@)) {
            Some(ValidationErrorView::AbsolutePath { project, task, actor: "env_file"@ })
        } else if !path_exists(f, join(root, file@)) {
            Some(ValidationErrorView::EnvFileNotFound { project, task, file: file@ })
        } else {
            None
        },
    }
}

/// What is wrong with package `i`, if anything: a name used by an earlier
/// package, an empty root, a root that is not a directory, an absolute root,
/// or a bad `.env` file.
pub open spec fn package_problem(f: PathFacts, ps: Seq<PackageConfig>, i: int) -> Option<ValidationErrorView> {
    let p = ps[i];
    if exists|j: int| 0 <= j < i && #[trigger] ps[j].name@ == p.name@ {
        Some(ValidationErrorView::DuplicatePackageName(p.name@))
    } else if p.root@.len() == 0 {
        Some(ValidationErrorView::EmptyProjectRoot { project: p.name@ })
    } else if !path_is_dir(f, p.root@) {
        Some(ValidationErrorView::ProjectRootDoesNotExist { project: p.name@ })
    } else if is_absolute(p.root@) {
        Some(ValidationErrorView::AbsoluteProjectRoot { project: p.name@ })
    } else {
        env_file_problem(f, p.name@, p.root@, no_task(), p.env_file)
    }
}

/// The first problem among the first `k` packages.
pub open spec fn first_package_problem(f: PathFacts, ps: Seq<PackageConfig>, k: int) -> Option<ValidationErrorView>
    decreases k,
{
    if k <= 0 {
        None
    } else {
        match first_package_problem(f, ps, k - 1) {
            Some(e) => Some(e),
            None => package_problem(f, ps, k - 1),
        }
    }
}

/// What is wrong with one glob pattern under `actor` (`ignore`, `inputs`
/// or `outputs`), given whether the glob crate accepts it.
pub open spec fn pattern_problem_with(
    project: Seq<char>,
    root: Seq<char>,
    task: Seq<char>,
    actor: Seq<char>,
    pattern: Seq<char>,
    glob_ok: bool,
) -> Option<ValidationErrorView> {
    if is_absolute(join(root, pattern)) {
        Some(ValidationErrorView::AbsolutePath { project, task, actor })
    } else if !glob_ok {
        Some(ValidationErrorView::InvalidGlobPattern { project, task, actor, pattern })
    } else {
        None
    }
}

/// The first problem among the first `k` patterns of a list.
pub open spec fn first_pattern_problem(
    project: Seq<char>,
    root: Seq<char>,
    task: Seq<char>,
    actor: Seq<char>,
    patterns: Seq<Seq<char>>,
    k: int,
) -> Option<ValidationErrorView>
    decreases k,
{
    if k <= 0 {
        None
    } else {
        match first_pattern_problem(project, root, task, actor, patterns, k - 1) {
            Some(e) => Some(e),
            None => pattern_problem_with(project, root, task, actor, patterns[k - 1], glob_pattern_valid(patterns[k - 1])),
        }
    }
}

/// The first problem of a whole pattern list.
pub open spec fn patterns_problem(
    project: Seq<char>,
    root: Seq<char>,
    task: Seq<char>,
    actor: Seq<char>,
    patterns: Seq<Seq<char>>,
) -> Option<ValidationErrorView> {
    first_pattern_problem(project, root, task, actor, patterns, patterns.len() as int)
}

/// What is wrong with the working directory of a task, if it has one: an
/// absolute path, a path that leaves the package root, or one that does not
/// exist.
pub open spec fn cwd_problem(
    f: PathFacts,
    project: Seq<char>,
    root: Seq<char>,
    task: Seq<char>,
    cwd: Option<String>,
) -> Option<ValidationErrorView> {
    match cwd {
        None => None,
        Some(cwd) => if is_absolute(join(root, cwd@)) {
            Some(ValidationErrorView::AbsolutePath { project, task, actor: "cwd"@ })
        } else if leaves_base(cwd@) || !path_exists(f, join(root, cwd@)) {
            Some(ValidationErrorView::InvalidCwd { project, task })
        } else {
            None
        },
    }
}

/// What is wrong with task `j` of package `p`, checked in this order: a name
/// used by an earlier task, its `.env` file, an empty command, a zero
/// timeout, its working directory, its `ignore`, `inputs` and `outputs`
/// patterns, caching a persistent task, caching a watched task.
pub open spec fn task_problem(f: PathFacts, p: PackageConfig, j: int) -> Option<ValidationErrorView> {
    let name = p.tasks@[j].0@;
    let t = p.tasks@[j].1;
    if exists|k: int| 0 <= k < j && #[trigger] p.tasks@[k].0@ == name {
        Some(ValidationErrorView::DuplicateTaskName { project: p.name@, task: name })
    } else if env_file_problem(f, p.name@, p.root@, name, t.env_file) is Some {
        env_file_problem(f, p.name@, p.root@, name, t.env_file)
    } else if t.cmd@.len() == 0 {
        Some(ValidationErrorView::EmptyCommand { project: p.name@, task: name })
    } else if t.timeout_nanos == Some(0u128) {
        Some(ValidationErrorView::InvalidTimeout { project: p.name@, task: name })
    } else if cwd_problem(f, p.name@, p.root@, name, t.cwd) is Some {
        cwd_problem(f, p.name@, p.root@, name, t.cwd)
    } else if patterns_problem(p.name@, p.root@, name, "ignore"@, views(t.ignore@)) is Some {
        patterns_problem(p.name@, p.root@, name, "ignore"@, views(t.ignore@))
    } else if patterns_problem(p.name@, p.root@, name, "inputs"@, views(t.inputs@)) is Some {
        patterns_problem(p.name@, p.root@, name, "inputs"@, views(t.inputs@))
    } else if patterns_problem(p.name@, p.root@, name, "outputs"@, views(t.outputs@)) is Some {
        patterns_problem(p.name@, p.root@, name, "outputs"@, views(t.outputs@))
    } else if t.cache && t.persistent {
        Some(ValidationErrorView::CacheWithPersistentTask { project: p.name@, task: name })
    } else if t.cache && t.watch {
        Some(ValidationErrorView::CacheWithWatchTask { project: p.name@, task: name })
    } else {
        None
    }
}

/// The first problem among the first `k` tasks of package `p`.
pub open spec fn first_task_problem_in(f: PathFacts, p: PackageConfig, k: int) -> Option<ValidationErrorView>
    decreases k,
{
    if k <= 0 {
        None
    } else {
        match first_task_problem_in(f, p, k - 1) {
            Some(e) => Some(e),
            None => task_problem(f, p, k - 1),
        }
    }
}

/// The first task problem in the first `k` packages.
pub open spec fn first_task_problem(f: PathFacts, ps: Seq<PackageConfig>, k: int) -> Option<ValidationErrorView>
    decreases k,
{
    if k <= 0 {
        None
    } else {
        match first_task_problem(f, ps, k - 1) {
            Some(e) => Some(e),
            None => first_task_problem_in(f, ps[k - 1], ps[k - 1].tasks@.len() as int),
        }
    }
}

/// The first problem of a workspace: an unsupported version, then the
/// packages in order, then their tasks in order.
pub open spec fn workspace_problem(c: FyrerConfig, f: PathFacts) -> Option<ValidationErrorView> {
    if c.version != 1 {
        Some(ValidationErrorView::UnsupportedVersion(c.version))
    } else {
        match first_package_problem(f, c.packages@, c.packages@.len() as int) {
            Some(e) => Some(e),
            None => first_task_problem(f, c.packages@, c.packages@.len() as int),
        }
    }
}

proof fn lemma_first_package_stable(f: PathFacts, ps: Seq<PackageConfig>, k: int, m: int)
    requires
        0 <= k <= m,
        first_package_problem(f, ps, k) is Some,
    ensures
        first_package_problem(f, ps, m) == first_package_problem(f, ps, k),
    decreases m - k,
{
    if k < m {
        lemma_first_package_stable(f, ps, k, m - 1);
    }
}

proof fn lemma_first_task_in_stable(f: PathFacts, p: PackageConfig, k: int, m: int)
    requires
        0 <= k <= m,
        first_task_problem_in(f, p, k) is Some,
    ensures
        first_task_problem_in(f, p, m) == first_task_problem_in(f, p, k),
    decreases m - k,
{
    if k < m {
        lemma_first_task_in_stable(f, p, k, m - 1);
    }
}

proof fn lemma_first_task_stable(f: PathFacts, ps: Seq<PackageConfig>, k: int, m: int)
    requires
        0 <= k <= m,
        first_task_problem(f, ps, k) is Some,
    ensures
        first_task_problem(f, ps, m) == first_task_problem(f, ps, k),
    decreases m - k,
{
    if k < m {
        lemma_first_task_stable(f, ps, k, m - 1);
    }
}

proof fn lemma_first_pattern_stable(
    project: Seq<char>,
    root: Seq<char>,
    task: Seq<char>,
    actor: Seq<char>,
    patterns: Seq<Seq<char>>,
    k: int,
    m: int,
)
    requires
        0 <= k <= m,
        first_pattern_problem(project, root, task, actor, patterns, k) is Some,
    ensures
        first_pattern_problem(project, root, task, actor, patterns, m) == first_pattern_problem(
            project,
            root,
            task,
            actor,
            patterns,
            k,
        ),
    decreases m - k,
{
    if k < m {
        lemma_first_pattern_stable(project, root, task, actor, patterns, k, m - 1);
    }
}

proof fn lemma_first_task_in_none(f: PathFacts, p: PackageConfig, k: int)
    requires
        0 <= k,
    ensures
        first_task_problem_in(f, p, k) is None <==> forall|j: int| 0 <= j < k ==> #[trigger] task_problem(f, p, j) is None,
    decreases k,
{
    if k > 0 {
        lemma_first_task_in_none(f, p, k - 1);
        if first_task_problem_in(f, p, k - 1) is None && task_problem(f, p, k - 1) is None {
            assert forall|j: int| 0 <= j < k implies #[trigger] task_problem(f, p, j) is None by {
                if j < k - 1 {
                    assert(task_problem(f, p, j) is None);
                }
            }
        }
    }
}

proof fn lemma_first_task_none(f: PathFacts, ps: Seq<PackageConfig>, k: int)
    requires
        0 <= k,
    ensures
        first_task_problem(f, ps, k) is None <==> forall|i: int, j: int|
            0 <= i < k && 0 <= j < ps[i].tasks@.len() ==> #[trigger] task_problem(f, ps[i], j) is None,
    decreases k,
{
    if k > 0 {
        lemma_first_task_none(f, ps, k - 1);
        lemma_first_task_in_none(f, ps[k - 1], ps[k - 1].tasks@.len() as int);
        if first_task_problem(f, ps, k) is None {
            assert forall|i: int, j: int| 0 <= i < k && 0 <= j < ps[i].tasks@.len() implies #[trigger] task_problem(
                f,
                ps[i],
                j,
            ) is None by {
                if i < k - 1 {
                    assert(task_problem(f, ps[i], j) is None);
                } else {
                    assert(task_problem(f, ps[k - 1], j) is None);
                }
            }
        }
        if forall|i: int, j: int| 0 <= i < k && 0 <= j < ps[i].tasks@.len() ==> #[trigger] task_problem(f, ps[i], j) is None {
            assert forall|i: int, j: int| 0 <= i < k - 1 && 0 <= j < ps[i].tasks@.len() implies #[trigger] task_problem(
                f,
                ps[i],
                j,
            ) is None by {
                assert(task_problem(f, ps[i], j) is None);
            }
            assert forall|j: int| 0 <= j < ps[k - 1].tasks@.len() implies #[trigger] task_problem(f, ps[k - 1], j) is None by {
                assert(task_problem(f, ps[k - 1], j) is None);
            }
        }
    }
}

/// Law: the tasks of a workspace pass validation exactly when no task of any
/// package breaks a task rule (`task_problem`). In particular, for a task
/// whose name is the first of its kind in its package, with a command, and
/// with no `.env` file, timeout, working directory or patterns, the only
/// rules left are the cache ones: caching a persistent task is refused
/// first, then caching a watched one, and anything else passes.
pub proof fn law_tasks_valid_iff_each_task_valid(f: PathFacts, ps: Seq<PackageConfig>, i: int, j: int)
    requires
        0 <= i < ps.len(),
        0 <= j < ps[i].tasks@.len(),
    ensures
        first_task_problem(f, ps, ps.len() as int) is None <==> forall|a: int, b: int|
            0 <= a < ps.len() && 0 <= b < ps[a].tasks@.len() ==> #[trigger] task_problem(f, ps[a], b) is None,
        ({
            let p = ps[i];
            let t = p.tasks@[j].1;
            (forall|k: int| 0 <= k < j ==> #[trigger] p.tasks@[k].0@ != p.tasks@[j].0@) && t.cmd@.len() > 0
                && t.env_file is None && t.timeout_nanos is None && t.cwd is None && t.ignore@.len() == 0
                && t.inputs@.len() == 0 && t.outputs@.len() == 0 ==> task_problem(f, p, j) == if t.cache
                && t.persistent {
                Some(ValidationErrorView::CacheWithPersistentTask { project: p.name@, task: p.tasks@[j].0@ })
            } else if t.cache && t.watch {
                Some(ValidationErrorView::CacheWithWatchTask { project: p.name@, task: p.tasks@[j].0@ })
            } else {
                None
            }
        }),
{
    lemma_first_task_none(f, ps, ps.len() as int);
}

// ---------------------------------------------------------------------------
// Task timeouts as written in the configuration.

/// The nanoseconds in one of a timeout's units: `ns`, `us`, `ms`, `s`, `m`
/// (minutes) or `h`.
pub open spec fn unit_nanos(u: Seq<char>) -> Option<u128> {
    if u.len() == 1 && u[0] == 's' {
        Some(1_000_000_000u128)
    } else if u.len() == 1 && u[0] == 'm' {
        Some(60_000_000_000u128)
    } else if u.len() == 1 && u[0] == 'h' {
        Some(3_600_000_000_000u128)
    } else if u.len() == 2 && u[0] == 'm' && u[1] == 's' {
        Some(1_000_000u128)
    } else if u.len() == 2 && u[0] == 'u' && u[1] == 's' {
        Some(1_000u128)
    } else if u.len() == 2 && u[0] == 'n' && u[1] == 's' {
        Some(1u128)
    } else {
        None
    }
}

/// The length of the run of ASCII digits that starts `s`.
pub open spec fn digit_run(s: Seq<char>) -> int
    decreases s.len(),
{
    if s.len() > 0 && is_digit(s[0]) {
        1 + digit_run(s.drop_first())
    } else {
        0
    }
}

/// A timeout as the configuration writes it, in nanoseconds: a count (one
/// or more ASCII digits whose value fits in a `u32`) followed by its unit,
/// as `30s` or `500ms`.
pub open spec fn timeout_nanos(s: Seq<char>) -> Option<u128> {
    let p = digit_run(s);
    match (parse_u32(s.take(p)), unit_nanos(s.skip(p))) {
        (Some(n), Some(f)) => Some((n * f) as u128),
        _ => None,
    }
}

proof fn lemma_digit_run(s: Seq<char>, p: int)
    requires
        0 <= p <= s.len(),
        forall|i: int| 0 <= i < p ==> is_digit(#[trigger] s[i]),
        p == s.len() || !is_digit(s[p]),
    ensures
        digit_run(s) == p,
    decreases p,
{
    if p > 0 {
        lemma_digit_run(s.drop_first(), p - 1);
    }
}

/// Reads a timeout such as `30s` or `500ms` as nanoseconds; `None` when the
/// text is not a count followed by a unit.
pub fn parse_timeout(text: &str) -> (r: Option<u128>)
    ensures
        r == timeout_nanos(text@),
{
    let v = chars_of(text);
    let n = v.len();
    let mut p: usize = 0;
    while p < n && '0' <= v[p] && v[p] <= '9'
        invariant
            p <= n,
            n == v@.len(),
            forall|i: int| 0 <= i < p ==> is_digit(#[trigger] v@[i]),
        decreases n - p,
    {
        p = p + 1;
    }
    proof {
        lemma_digit_run(v@, p as int);
        assert(v@.subrange(0, p as int) =~= v@.take(p as int));
        assert(v@.subrange(p as int, n as int) =~= v@.skip(p as int));
    }
    let count = parse_u32_at(&v, 0, p);
    let k = n - p;
    let factor: Option<u128> = if k == 1 && v[p] == 's' {
        Some(1_000_000_000u128)
    } else if k == 1 && v[p] == 'm' {
        Some(60_000_000_000u128)
    } else if k == 1 && v[p] == 'h' {
        Some(3_600_000_000_000u128)
    } else if k == 2 && v[p] == 'm' && v[p + 1] == 's' {
        Some(1_000_000u128)
    } else if k == 2 && v[p] == 'u' && v[p + 1] == 's' {
        Some(1_000u128)
    } else if k == 2 && v[p] == 'n' && v[p + 1] == 's' {
        Some(1u128)
    } else {
        None
    };
    proof {
        assert(factor == unit_nanos(v@.skip(p as int)));
    }
    match (count, factor) {
        (Some(c), Some(f)) => {
            assert(c as u128 * f <= 4_294_967_295u128 * 3_600_000_000_000u128) by (nonlinear_arith)
                requires
                    c <= 4_294_967_295u32,
                    f <= 3_600_000_000_000u128,
            ;
            Some(c as u128 * f)
        },
        _ => None,
    }
}

proof fn lemma_first_package_none(f: PathFacts, ps: Seq<PackageConfig>, k: int)
    requires
        0 <= k,
    ensures
        first_package_problem(f, ps, k) is None <==> forall|i: int| 0 <= i < k ==> #[trigger] package_problem(f, ps, i) is None,
    decreases k,
{
    if k > 0 {
        lemma_first_package_none(f, ps, k - 1);
        if first_package_problem(f, ps, k - 1) is None && package_problem(f, ps, k - 1) is None {
            assert forall|i: int| 0 <= i < k implies #[trigger] package_problem(f, ps, i) is None by {
                if i < k - 1 {
                    assert(package_problem(f, ps, i) is None);
                }
            }
        }
    }
}

/// Law: the packages of a workspace pass validation exactly when their
/// names are pairwise distinct and every package has a root that is not
/// empty, is a directory and is relative, and, where it names a `.env`
/// file, one that is relative and exists under the root.
pub proof fn law_packages_valid_iff(f: PathFacts, ps: Seq<PackageConfig>)
    ensures
        first_package_problem(f, ps, ps.len() as int) is None <==> {
            &&& forall|i: int, j: int| 0 <= i < j < ps.len() ==> (#[trigger] ps[i]).name@ != (#[trigger] ps[j]).name@
            &&& forall|i: int|
                0 <= i < ps.len() ==> {
                    let p = #[trigger] ps[i];
                    &&& p.root@.len() > 0
                    &&& path_is_dir(f, p.root@)
                    &&& !is_absolute(p.root@)
                    &&& (p.env_file matches Some(e) ==> !is_absolute(join(p.root@, e@)) && path_exists(
                        f,
                        join(p.root@, e@),
                    ))
                }
        },
{
    lemma_first_package_none(f, ps, ps.len() as int);
    if first_package_problem(f, ps, ps.len() as int) is None {
        assert forall|i: int, j: int| 0 <= i < j < ps.len() implies (#[trigger] ps[i]).name@ != (#[trigger] ps[j]).name@ by {
            assert(package_problem(f, ps, j) is None);
        }
        assert forall|i: int| 0 <= i < ps.len() implies {
            let p = #[trigger] ps[i];
            &&& p.root@.len() > 0
            &&& path_is_dir(f, p.root@)
            &&& !is_absolute(p.root@)
            &&& (p.env_file matches Some(e) ==> !is_absolute(join(p.root@, e@)) && path_exists(f, join(p.root@, e@)))
        } by {
            assert(package_problem(f, ps, i) is None);
        }
    }
}

impl PathFacts {
    /// Whether `p` exists.
    pub fn path_exists(&self, p: &String) -> (r: bool)
        ensures
            r == path_exists(*self, p@),
    {
        let mut i: usize = 0;
        while i < self.existing.len()
            invariant
                i <= self.existing@.len(),
                forall|k: int| 0 <= k < i ==> self.existing@[k]@ != p@,
            decreases self.existing@.len() - i,
        {
            if self.existing[i] == *p {
                proof {
                    assert(views(self.existing@)[i as int] == p@);
                }
                return true;
            }
            i = i + 1;
        }
        proof {
            if views(self.existing@).contains(p@) {
                let k = choose|k: int| 0 <= k < views(self.existing@).len() && views(self.existing@)[k] == p@;
                assert(self.existing@[k]@ == p@);
            }
        }
        false
    }

    /// Whether `p` is a directory.
    pub fn is_dir(&self, p: &String) -> (r: bool)
        ensures
            r == path_is_dir(*self, p@),
    {
        let mut i: usize = 0;
        while i < self.dirs.len()
            invariant
                i <= self.dirs@.len(),
                forall|k: int| 0 <= k < i ==> self.dirs@[k]@ != p@,
            decreases self.dirs@.len() - i,
        {
            if self.dirs[i] == *p {
                proof {
                    assert(views(self.dirs@)[i as int] == p@);
                }
                return true;
            }
            i = i + 1;
        }
        proof {
            if views(self.dirs@).contains(p@) {
                let k = choose|k: int| 0 <= k < views(self.dirs@).len() && views(self.dirs@)[k] == p@;
                assert(self.dirs@[k]@ == p@);
            }
        }
        false
    }
}

/// Checks an optional `.env` file of `task` in `project`.
fn check_env_file(
    f: &PathFacts,
    project: &String,
    root: &String,
    task: &String,
    file: &Option<String>,
) -> (r: Option<ValidationError>)
    ensures
        opt_view(r) == env_file_problem(*f, project@, root@, task@, *file),
{
    match file {
        None => None,
        Some(file) => {
            let full = join_path(root.as_str(), file.as_str());
            if path_is_absolute(full.as_str()) {
                Some(ValidationError::AbsolutePath {
                    project: project.clone(),
                    task: task.clone(),
                    actor: String::from_str("env_file"),
                })
            } else if !f.path_exists(&full) {
                Some(ValidationError::EnvFileNotFound {
                    project: project.clone(),
                    task: task.clone(),
                    file: file.clone(),
                })
            } else {
                None
            }
        },
    }
}

/// Checks the optional working directory of `task` in `project`.
fn check_cwd(
    f: &PathFacts,
    project: &String,
    root: &String,
    task: &String,
    cwd: &Option<String>,
) -> (r: Option<ValidationError>)
    ensures
        opt_view(r) == cwd_problem(*f, project@, root@, task@, *cwd),
{
    match cwd {
        None => None,
        Some(cwd) => {
            let full = join_path(root.as_str(), cwd.as_str());
            if path_is_absolute(full.as_str()) {
                Some(ValidationError::AbsolutePath {
                    project: project.clone(),
                    task: task.clone(),
                    actor: String::from_str("cwd"),
                })
            } else if path_leaves_base(cwd.as_str()) || !f.path_exists(&full) {
                Some(ValidationError::InvalidCwd { project: project.clone(), task: task.clone() })
            } else {
                None
            }
        },
    }
}

/// Checks one glob pattern under `actor`, given whether the glob crate
/// accepts it: an absolute pattern is refused first, then one the crate
/// rejects.
pub fn check_pattern(
    project: &String,
    root: &String,
    task: &String,
    actor: &str,
    pattern: &String,
    glob_ok: bool,
) -> (r: Option<ValidationError>)
    ensures
        opt_view(r) == pattern_problem_with(project@, root@, task@, actor@, pattern@, glob_ok),
{
    let full = join_path(root.as_str(), pattern.as_str());
    if path_is_absolute(full.as_str()) {
        Some(ValidationError::AbsolutePath {
            project: project.clone(),
            task: task.clone(),
            actor: String::from_str(actor),
        })
    } else if !glob_ok {
        Some(ValidationError::InvalidGlobPattern {
            project: project.clone(),
            task: task.clone(),
            actor: String::from_str(actor),
            pattern: pattern.clone(),
        })
    } else {
        None
    }
}

/// Checks a list of glob patterns in order and reports the first problem.
fn check_patterns(
    project: &String,
    root: &String,
    task: &String,
    actor: &str,
    patterns: &Vec<String>,
) -> (r: Option<ValidationError>)
    ensures
        opt_view(r) == patterns_problem(project@, root@, task@, actor@, views(patterns@)),
{
    let ghost pats = views(patterns@);
    for k in 0..patterns.len()
        invariant
            pats == views(patterns@),
            first_pattern_problem(project@, root@, task@, actor@, pats, k as int) is None,
    {
        let ok = glob_pattern_is_valid(patterns[k].as_str());
        let r = check_pattern(project, root, task, actor, &patterns[k], ok);
        if r.is_some() {
            proof {
                assert(pats[k as int] == patterns@[k as int]@);
                lemma_first_pattern_stable(project@, root@, task@, actor@, pats, k + 1, pats.len() as int);
            }
            return r;
        }
        proof {
            assert(pats[k as int] == patterns@[k as int]@);
        }
    }
    None
}

impl FyrerConfig {
    /// Checks the workspace against its rules and reports the first broken
    /// one: the version must be 1, then each package's rules in order, then
    /// each task's rules in order. `facts` tells which paths exist and which
    /// are directories.
    pub fn validate(&self, facts: &PathFacts) -> (r: Result<(), ValidationError>)
        ensures
            r is Ok <==> workspace_problem(*self, *facts) is None,
            r matches Err(e) ==> workspace_problem(*self, *facts) == Some(e@),
    {
        if self.version != 1 {
            return Err(ValidationError::UnsupportedVersion(self.version));
        }
        self.validate_packages(facts)?;
        self.validate_tasks(facts)?;
        Ok(())
    }

    /// Checks each package in order: a unique name, a non-empty root that is
    /// a directory and is relative, and a relative `.env` file that exists.
    pub fn validate_packages(&self, facts: &PathFacts) -> (r: Result<(), ValidationError>)
        ensures
            r is Ok <==> first_package_problem(*facts, self.packages@, self.packages@.len() as int) is None,
            r matches Err(e) ==> first_package_problem(*facts, self.packages@, self.packages@.len() as int)
                == Some(e@),
    {
        let ps = &self.packages;
        let ghost f = *facts;
        for i in 0..ps.len()
            invariant
                ps@ == self.packages@,
                f == *facts,
                first_package_problem(f, ps@, i as int) is None,
        {
            let p = &ps[i];
            let mut j: usize = 0;
            while j < i
                invariant
                    j <= i < ps@.len(),
                    *p == ps@[i as int],
                    ps@ == self.packages@,
                    f == *facts,
                    first_package_problem(f, ps@, i as int) is None,
                    forall|k: int| 0 <= k < j ==> ps@[k].name@ != p.name@,
                decreases i - j,
            {
                if ps[j].name == p.name {
                    let e = ValidationError::DuplicatePackageName(p.name.clone());
                    proof {
                        assert(ps@[j as int].name@ == p.name@);
                        assert(package_problem(f, ps@, i as int) == Some(e@));
                        lemma_first_package_stable(f, ps@, i + 1, ps@.len() as int);
                    }
                    return Err(e);
                }
                j = j + 1;
            }
            proof {
                assert(!exists|k: int| 0 <= k < i && #[trigger] ps@[k].name@ == p.name@);
            }
            let e = if p.root.unicode_len() == 0 {
                Some(ValidationError::EmptyProjectRoot { project: p.name.clone() })
            } else if !facts.is_dir(&p.root) {
                Some(ValidationError::ProjectRootDoesNotExist { project: p.name.clone() })
            } else if path_is_absolute(p.root.as_str()) {
                Some(ValidationError::AbsoluteProjectRoot { project: p.name.clone() })
            } else {
                let na = String::from_str("N/A");
                check_env_file(facts, &p.name, &p.root, &na, &p.env_file)
            };
            proof {
                assert(opt_view(e) == package_problem(f, ps@, i as int));
            }
            match e {
                Some(e) => {
                    proof {
                        lemma_first_package_stable(f, ps@, i + 1, ps@.len() as int);
                    }
                    return Err(e);
                },
                None => {},
            }
        }
        Ok(())
    }

    /// Checks task `j` of package `p`.
    fn check_task(facts: &PathFacts, p: &PackageConfig, j: usize) -> (r: Option<ValidationError>)
        requires
            j < p.tasks@.len(),
        ensures
            opt_view(r) == task_problem(*facts, *p, j as int),
    {
        let name = &p.tasks[j].0;
        let t = &p.tasks[j].1;
        let mut k: usize = 0;
        while k < j
            invariant
                k <= j < p.tasks@.len(),
                *name == p.tasks@[j as int].0,
                forall|q: int| 0 <= q < k ==> p.tasks@[q].0@ != name@,
            decreases j - k,
        {
            if p.tasks[k].0 == *name {
                proof {
                    assert(p.tasks@[k as int].0@ == name@);
                }
                return Some(ValidationError::DuplicateTaskName { project: p.name.clone(), task: name.clone() });
            }
            k = k + 1;
        }
        proof {
            assert(!exists|q: int| 0 <= q < j && #[trigger] p.tasks@[q].0@ == name@);
        }
        let e = check_env_file(facts, &p.name, &p.root, name, &t.env_file);
        if e.is_some() {
            return e;
        }
        if t.cmd.unicode_len() == 0 {
            return Some(ValidationError::EmptyCommand { project: p.name.clone(), task: name.clone() });
        }
        if t.timeout_nanos == Some(0u128) {
            return Some(ValidationError::InvalidTimeout { project: p.name.clone(), task: name.clone() });
        }
        let e = check_cwd(facts, &p.name, &p.root, name, &t.cwd);
        if e.is_some() {
            return e;
        }
        let e = check_patterns(&p.name, &p.root, name, "ignore", &t.ignore);
        if e.is_some() {
            return e;
        }
        let e = check_patterns(&p.name, &p.root, name, "inputs", &t.inputs);
        if e.is_some() {
            return e;
        }
        let e = check_patterns(&p.name, &p.root, name, "outputs", &t.outputs);
        if e.is_some() {
            return e;
        }
        if t.cache && t.persistent {
            return Some(ValidationError::CacheWithPersistentTask { project: p.name.clone(), task: name.clone() });
        }
        if t.cache && t.watch {
            return Some(ValidationError::CacheWithWatchTask { project: p.name.clone(), task: name.clone() });
        }
        None
    }

    /// Checks every task of every package in order: a name unique in its
    /// package, a relative `.env` file that exists, a command, a non-zero
    /// timeout, a relative working directory that exists, relative and valid
    /// `ignore`, `inputs` and `outputs` patterns, and no caching of
    /// persistent or watched tasks.
    pub fn validate_tasks(&self, facts: &PathFacts) -> (r: Result<(), ValidationError>)
        ensures
            r is Ok <==> first_task_problem(*facts, self.packages@, self.packages@.len() as int) is None,
            r matches Err(e) ==> first_task_problem(*facts, self.packages@, self.packages@.len() as int)
                == Some(e@),
    {
        let ps = &self.packages;
        let ghost f = *facts;
        for i in 0..ps.len()
            invariant
                ps@ == self.packages@,
                f == *facts,
                first_task_problem(f, ps@, i as int) is None,
        {
            let p = &ps[i];
            for j in 0..p.tasks.len()
                invariant
                    i < ps@.len(),
                    *p == ps@[i as int],
                    ps@ == self.packages@,
                    f == *facts,
                    first_task_problem(f, ps@, i as int) is None,
                    first_task_problem_in(f, *p, j as int) is None,
            {
                match Self::check_task(facts, p, j) {
                    Some(e) => {
                        proof {
                            lemma_first_task_in_stable(f, *p, j + 1, p.tasks@.len() as int);
                            lemma_first_task_stable(f, ps@, i + 1, ps@.len() as int);
                        }
                        return Err(e);
                    },
                    None => {},
                }
            }
        }
        Ok(())
    }
}

/// Every path whose existence the checks of package `p` ask about is in `v`:
/// its root, and the joined paths of its `.env` files and working
/// directories.
pub open spec fn probes_package(v: Seq<Seq<char>>, p: PackageConfig) -> bool {
    &&& v.contains(p.root@)
    &&& (p.env_file matches Some(e) ==> v.contains(join(p.root@, e@)))
    &&& forall|j: int| 0 <= j < p.tasks@.len() ==> {
        &&& ((#[trigger] p.tasks@[j]).1.env_file matches Some(e) ==> v.contains(join(p.root@, e@)))
        &&& (p.tasks@[j].1.cwd matches Some(c) ==> v.contains(join(p.root@, c@)))
    }
}

impl FyrerConfig {
    /// The paths that `validate` asks about: each package root, and each
    /// `.env` file and working directory joined to its package root. The
    /// caller probes them and passes the answers to `validate`.
    pub fn paths_to_probe(&self) -> (r: Vec<String>)
        ensures
            forall|i: int| 0 <= i < self.packages@.len() ==> probes_package(views(r@), #[trigger] self.packages@[i]),
    {
        let mut r: Vec<String> = Vec::new();
        for i in 0..self.packages.len()
            invariant
                forall|a: int| 0 <= a < i ==> probes_package(views(r@), #[trigger] self.packages@[a]),
        {
            let p = &self.packages[i];
            let ghost before = views(r@);
            r.push(p.root.clone());
            match &p.env_file {
                Some(e) => {
                    r.push(join_path(p.root.as_str(), e.as_str()));
                },
                None => {},
            }
            proof {
                assert(views(r@)[before.len() as int] == p.root@);
                if p.env_file is Some {
                    assert(views(r@)[before.len() as int + 1] == join(p.root@, p.env_file->0@));
                }
            }
            for j in 0..p.tasks.len()
                invariant
                    *p == self.packages@[i as int],
                    i < self.packages@.len(),
                    views(r@).len() >= before.len(),
                    forall|x: int| 0 <= x < before.len() ==> views(r@)[x] == before[x],
                    views(r@).contains(p.root@),
                    p.env_file matches Some(e) ==> views(r@).contains(join(p.root@, e@)),
                    forall|q: int| 0 <= q < j ==> {
                        &&& ((#[trigger] p.tasks@[q]).1.env_file matches Some(e) ==> views(r@).contains(join(p.root@, e@)))
                        &&& (p.tasks@[q].1.cwd matches Some(c) ==> views(r@).contains(join(p.root@, c@)))
                    },
            {
                let t = &p.tasks[j].1;
                let ghost mid = views(r@);
                match &t.env_file {
                    Some(e) => {
                        r.push(join_path(p.root.as_str(), e.as_str()));
                    },
                    None => {},
                }
                match &t.cwd {
                    Some(c) => {
                        r.push(join_path(p.root.as_str(), c.as_str()));
                    },
                    None => {},
                }
                proof {
                    assert forall|x: int| 0 <= x < mid.len() implies views(r@)[x] == mid[x] by {}
                    assert forall|y: Seq<char>| mid.contains(y) implies views(r@).contains(y) by {
                        let x = choose|x: int| 0 <= x < mid.len() && mid[x] == y;
                        assert(views(r@)[x] == y);
                    }
                    if t.env_file is Some {
                        assert(views(r@)[mid.len() as int] == join(p.root@, t.env_file->0@));
                    }
                    if t.cwd is Some {
                        assert(views(r@)[views(r@).len() - 1] == join(p.root@, t.cwd->0@));
                    }
                }
            }
            proof {
                assert forall|a: int| 0 <= a < i + 1 implies probes_package(views(r@), #[trigger] self.packages@[a]) by {
                    if a < i {
                        let pa = self.packages@[a];
                        assert forall|y: Seq<char>| before.contains(y) implies views(r@).contains(y) by {
                            let x = choose|x: int| 0 <= x < before.len() && before[x] == y;
                            assert(views(r@)[x] == y);
                        }
                        assert(probes_package(before, pa));
                    }
                }
            }
        }
        r
    }
}

} // verus!
