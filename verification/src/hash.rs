//! Content hashes of tasks: a BLAKE3 digest over a task's id, command,
//! root, the hashes of its dependencies, its file patterns, its environment
//! and the contents of its input files.
//!
//! Every field goes into the hashed stream framed as its key's length (eight
//! bytes, little endian), the key, the value's length and the value, so that
//! no two different sequences of fields give the same stream
//! (`law_framing_is_unambiguous`).
//!
//! The files an input pattern matches are found on disk by the caller, which
//! hands them over as `InputGlob`s: for each task and input pattern, either
//! the files found, in the order the glob walk yields them (sorted by path),
//! with their paths relative to the task's root, or the message of the
//! failed walk.
use vstd::prelude::*;
use vstd::relations::sorted_by;
use vstd::utf8::encode_utf8;

use crate::env_map::{entries_map, entry_keys, EnvMap};
use crate::error::{push_quoted, quoted};
use crate::graph::{count_true, lemma_count_true_le, lemma_count_true_set, lemma_count_true_all_false};
use crate::sort::{lemma_is_sorted_texts, lemma_text_le_total, sort_strings, sorted_texts, text_le};
use crate::strings::views;
use crate::task_id::{id_text, parse_id, TaskId};
use crate::tasks::{has_key, task_key, task_keys, tasks_map, tasks_wf, Task, TaskMap, TaskView};

verus! {

/// A file an input pattern matched.
#[derive(Debug)]
pub struct InputFile {
    /// The path, relative to the task's root.
    pub path: String,
    /// The contents, or the message of the error that reading it gave.
    pub content: Result<Vec<u8>, String>,
}

/// A copy of what reading a file gave.
pub(crate) fn copy_content(c: &Result<Vec<u8>, String>) -> (r: Result<Vec<u8>, String>)
    ensures
        match (c, r) {
            (Ok(a), Ok(b)) => a@ == b@,
            (Err(a), Err(b)) => a@ == b@,
            _ => false,
        },
{
    match c {
        Ok(v) => {
            let mut w: Vec<u8> = Vec::new();
            for i in 0..v.len()
                invariant
                    w@ == v@.take(i as int),
            {
                w.push(v[i]);
                proof {
                    assert(v@.take(i + 1) =~= v@.take(i as int).push(v@[i as int]));
                }
            }
            proof {
                assert(v@.take(v@.len() as int) =~= v@);
            }
            Ok(w)
        },
        Err(m) => Err(m.clone()),
    }
}

/// What the glob walk of one input pattern of one task found.
#[derive(Debug)]
pub struct InputGlob {
    pub task: TaskId,
    pub input: String,
    /// The regular files found, in any order; or why the walk failed.
    pub walk: Result<Vec<InputFile>, String>,
}

/// Why a task's hash could not be computed.
#[derive(Debug, Clone)]
pub enum HashError {
    /// The task depends, directly or not, on itself.
    CircularDependency { task: String },
    /// No task has this id.
    TaskNotFound { task: String },
    /// A dependency is not of the form `project:task`.
    InvalidDependency { dependency: String, task: String },
    /// A dependency names a task that does not exist.
    MissingDependency { dependency: String, task: String },
    /// The glob walk of an input pattern failed; the message says why.
    InputWalk { input: String, task: String, message: String },
    /// An input pattern matched no file.
    NoInputFiles { input: String, task: String },
    /// A matched file could not be read; the message is the read error's.
    UnreadableInput { path: String, task: String, message: String },
    /// The glob walk of an output pattern failed; the message says why.
    OutputWalk { output: String, task: String, message: String },
}

/// A `HashError` with its texts as character sequences.
pub ghost enum HashErrorView {
    CircularDependency { task: Seq<char> },
    TaskNotFound { task: Seq<char> },
    InvalidDependency { dependency: Seq<char>, task: Seq<char> },
    MissingDependency { dependency: Seq<char>, task: Seq<char> },
    InputWalk { input: Seq<char>, task: Seq<char>, message: Seq<char> },
    NoInputFiles { input: Seq<char>, task: Seq<char> },
    UnreadableInput { path: Seq<char>, task: Seq<char>, message: Seq<char> },
    OutputWalk { output: Seq<char>, task: Seq<char>, message: Seq<char> },
}

impl View for HashError {
    type V = HashErrorView;

    open spec fn view(&self) -> HashErrorView {
        match self {
            HashError::CircularDependency { task } => HashErrorView::CircularDependency { task: task@ },
            HashError::TaskNotFound { task } => HashErrorView::TaskNotFound { task: task@ },
            HashError::InvalidDependency { dependency, task } =>
                HashErrorView::InvalidDependency { dependency: dependency@, task: task@ },
            HashError::MissingDependency { dependency, task } =>
                HashErrorView::MissingDependency { dependency: dependency@, task: task@ },
            HashError::InputWalk { input, task, message } =>
                HashErrorView::InputWalk { input: input@, task: task@, message: message@ },
            HashError::NoInputFiles { input, task } => HashErrorView::NoInputFiles { input: input@, task: task@ },
            HashError::UnreadableInput { path, task, message } =>
                HashErrorView::UnreadableInput { path: path@, task: task@, message: message@ },
            HashError::OutputWalk { output, task, message } =>
                HashErrorView::OutputWalk { output: output@, task: task@, message: message@ },
        }
    }
}

/// The text a `HashError` is shown as; a failed walk, or a file that could
/// not be read, is shown as the error's own message.
pub open spec fn hash_error_text(e: HashErrorView) -> Seq<char> {
    match e {
        HashErrorView::CircularDependency { task } => "Circular dependency detected involving task "@ + quoted(task),
        HashErrorView::TaskNotFound { task } => "Task "@ + quoted(task) + " not found in task map"@,
        HashErrorView::InvalidDependency { dependency, task } => "Invalid dependency "@ + quoted(dependency)
            + " of task "@ + quoted(task),
        HashErrorView::MissingDependency { dependency, task } => "Dependency "@ + quoted(dependency) + " of task "@
            + quoted(task) + " not found"@,
        HashErrorView::InputWalk { message, .. } => message,
        HashErrorView::NoInputFiles { input, task } => "No files matched input "@ + quoted(input) + " of task "@
            + quoted(task),
        HashErrorView::UnreadableInput { message, .. } => message,
        HashErrorView::OutputWalk { message, .. } => message,
    }
}

impl HashError {
    /// The text the error is shown as.
    pub fn message(&self) -> (r: String)
        ensures
            r@ == hash_error_text(self@),
    {
        let r = match self {
            HashError::CircularDependency { task } => push_quoted(
                String::from_str("Circular dependency detected involving task "),
                task.as_str(),
            ),
            HashError::TaskNotFound { task } => push_quoted(String::from_str("Task "), task.as_str()).concat(
                " not found in task map",
            ),
            HashError::InvalidDependency { dependency, task } => push_quoted(
                push_quoted(String::from_str("Invalid dependency "), dependency.as_str()).concat(" of task "),
                task.as_str(),
            ),
            HashError::MissingDependency { dependency, task } => push_quoted(
                push_quoted(String::from_str("Dependency "), dependency.as_str()).concat(" of task "),
                task.as_str(),
            ).concat(" not found"),
            HashError::InputWalk { message, .. } => message.clone(),
            HashError::NoInputFiles { input, task } => push_quoted(
                push_quoted(String::from_str("No files matched input "), input.as_str()).concat(" of task "),
                task.as_str(),
            ),
            HashError::UnreadableInput { message, .. } => message.clone(),
            HashError::OutputWalk { message, .. } => message.clone(),
        };
        proof {
            assert(r@ =~= hash_error_text(self@));
        }
        r
    }
}

// ---------------------------------------------------------------------------
// The outside functions.

/// The lowercase hexadecimal text of the BLAKE3 hash of `data`.
pub uninterp spec fn blake3_hex_digest(data: Seq<u8>) -> Seq<char>;

/// `blake3::hash(data).to_hex()`: the BLAKE3 hash of `data` as 64 lowercase
/// hexadecimal digits. Feeding a `blake3::Hasher` the same bytes in several
/// `update` calls gives the same hash, which is why the stream is built
/// whole and hashed once.
#[verifier::external_body]
fn blake3_hex(data: &[u8]) -> (r: String)
    ensures
        r@ == blake3_hex_digest(data@),
        is_hex_hash(r@),
{
    blake3::hash(data).to_hex().to_string()
}

/// Whether `glob::Pattern::new(pattern)` succeeds and the pattern matches
/// the path `path` (`Pattern::matches_path`).
pub uninterp spec fn glob_matches_path(pattern: Seq<char>, path: Seq<char>) -> bool;

/// `glob::Pattern::new(pattern)` followed by `matches_path(Path::new(path))`;
/// false when the pattern does not parse (`is_ok_and`).
#[verifier::external_body]
fn glob_matches(pattern: &str, path: &str) -> (r: bool)
    ensures
        r == glob_matches_path(pattern@, path@),
        r ==> crate::workspace::glob_pattern_valid(pattern@),
{
    glob::Pattern::new(pattern).is_ok_and(|p| p.matches_path(std::path::Path::new(path)))
}

// ---------------------------------------------------------------------------
// The hashed stream.

/// `n` as `k` bytes, least significant first.
pub open spec fn le_bytes(n: nat, k: nat) -> Seq<u8>
    decreases k,
{
    if k == 0 {
        Seq::empty()
    } else {
        seq![(n % 256) as u8] + le_bytes(n / 256, (k - 1) as nat)
    }
}

/// A field of the stream: the key's length, the key, the value's length and
/// the value, each length as eight bytes little endian.
pub open spec fn kv(key: Seq<u8>, value: Seq<u8>) -> Seq<u8> {
    le_bytes(key.len(), 8) + key + le_bytes(value.len(), 8) + value
}

/// A field whose key and value are texts, taken as UTF-8.
pub open spec fn text_kv(key: Seq<char>, value: Seq<char>) -> Seq<u8> {
    kv(encode_utf8(key), encode_utf8(value))
}

/// The fields `key = v` for each text `v` of a list, in order.
pub open spec fn list_fields(key: Seq<char>, vs: Seq<Seq<char>>) -> Seq<u8>
    decreases vs.len(),
{
    if vs.len() == 0 {
        Seq::empty()
    } else {
        list_fields(key, vs.drop_last()) + text_kv(key, vs.last())
    }
}

/// The texts of a set, each once, sorted.
pub open spec fn sorted_names(names: Set<Seq<char>>) -> Seq<Seq<char>> {
    choose|s: Seq<Seq<char>>| sorted_by(s, text_le()) && s.no_duplicates() && s.to_set() == names
}

/// The names of an environment, sorted.
pub open spec fn env_names(m: Map<Seq<char>, Seq<char>>) -> Seq<Seq<char>> {
    sorted_names(m.dom())
}

/// The fields of the first `k` variables of `names`: its name, then its value.
pub open spec fn env_fields(m: Map<Seq<char>, Seq<char>>, names: Seq<Seq<char>>, k: int) -> Seq<u8>
    decreases k,
{
    if k <= 0 {
        Seq::empty()
    } else {
        env_fields(m, names, k - 1) + text_kv("env_key"@, names[k - 1]) + text_kv("env_val"@, m[names[k - 1]])
    }
}

/// Whether a path is excluded by one of the `ignore` patterns.
pub open spec fn ignored(path: Seq<char>, patterns: Seq<Seq<char>>) -> bool {
    exists|k: int| 0 <= k < patterns.len() && glob_matches_path(#[trigger] patterns[k], path)
}

/// The files of a list that no `ignore` pattern excludes, in order.
pub open spec fn kept_files(fs: Seq<InputFile>, patterns: Seq<Seq<char>>) -> Seq<InputFile> {
    fs.filter(|f: InputFile| !ignored(f.path@, patterns))
}

/// The walk the caller reported for `input` of task `key`: the first entry
/// for them; no entry counts as a walk that found nothing.
pub open spec fn walk_of(globs: Seq<InputGlob>, key: (Seq<char>, Seq<char>), input: Seq<char>) -> Result<Seq<InputFile>, Seq<char>>
    decreases globs.len(),
{
    if globs.len() == 0 {
        Ok(Seq::empty())
    } else if globs[0].task@ == key && globs[0].input@ == input {
        match globs[0].walk {
            Ok(v) => Ok(v@),
            Err(m) => Err(m@),
        }
    } else {
        walk_of(globs.drop_first(), key, input)
    }
}

/// The fields of the first `k` kept files: each path, then its contents;
/// or the first file that could not be read.
pub open spec fn file_fields(fs: Seq<InputFile>, task: Seq<char>, k: int) -> Result<Seq<u8>, HashErrorView>
    decreases k,
{
    if k <= 0 {
        Ok(Seq::empty())
    } else {
        match file_fields(fs, task, k - 1) {
            Err(e) => Err(e),
            Ok(b) => match fs[k - 1].content {
                Err(m) => Err(HashErrorView::UnreadableInput { path: fs[k - 1].path@, task, message: m@ }),
                Ok(c) => Ok(b + text_kv("path"@, fs[k - 1].path@) + kv(encode_utf8("content"@), c@)),
            },
        }
    }
}

/// The fields of one input pattern: the number of kept files, then each
/// file in path order; an error if the walk failed, kept nothing, or a file
/// is unreadable.
pub open spec fn input_fields(t: TaskView, globs: Seq<InputGlob>, input: Seq<char>) -> Result<Seq<u8>, HashErrorView> {
    let key = (t.project_name, t.task_name);
    let task = id_text(key);
    match walk_of(globs, key, input) {
        Err(m) => Err(HashErrorView::InputWalk { input, task, message: m }),
        Ok(found) => {
            let kept = sort_by_path(kept_files(found, t.ignore));
            if kept.len() == 0 {
                Err(HashErrorView::NoInputFiles { input, task })
            } else {
                match file_fields(kept, task, kept.len() as int) {
                    Err(e) => Err(e),
                    Ok(b) => Ok(kv(encode_utf8("file_count"@), le_bytes(kept.len(), 8)) + b),
                }
            }
        },
    }
}

/// The fields of the first `k` input patterns of `inputs`.
pub open spec fn inputs_fields(t: TaskView, globs: Seq<InputGlob>, inputs: Seq<Seq<char>>, k: int) -> Result<Seq<u8>, HashErrorView>
    decreases k,
{
    if k <= 0 {
        Ok(Seq::empty())
    } else {
        match inputs_fields(t, globs, inputs, k - 1) {
            Err(e) => Err(e),
            Ok(b) => match input_fields(t, globs, inputs[k - 1]) {
                Err(e) => Err(e),
                Ok(c) => Ok(b + c),
            },
        }
    }
}

/// The dependencies among the first `k` of a list, each kept at its first
/// occurrence.
pub open spec fn dedup(s: Seq<Seq<char>>, k: int) -> Seq<Seq<char>>
    decreases k,
{
    if k <= 0 {
        Seq::empty()
    } else {
        let d = dedup(s, k - 1);
        if d.contains(s[k - 1]) {
            d
        } else {
            d.push(s[k - 1])
        }
    }
}

/// Whether some task has id `key`.
pub open spec fn has_id(ts: Seq<TaskView>, key: (Seq<char>, Seq<char>)) -> bool {
    exists|i: int| 0 <= i < ts.len() && (ts[i].project_name, ts[i].task_name) == key
}

/// The index of the task with id `key`.
pub open spec fn index_of_id(ts: Seq<TaskView>, key: (Seq<char>, Seq<char>)) -> int {
    choose|i: int| 0 <= i < ts.len() && (ts[i].project_name, ts[i].task_name) == key
}

/// The first bad dependency among the first `k` of task `t`: one that is
/// not `project:task`, or names no task.
pub open spec fn first_bad_dep(ts: Seq<TaskView>, t: TaskView, k: int) -> Option<HashErrorView>
    decreases k,
{
    if k <= 0 {
        None
    } else {
        match first_bad_dep(ts, t, k - 1) {
            Some(e) => Some(e),
            None => {
                let d = t.depends_on[k - 1];
                let task = id_text((t.project_name, t.task_name));
                match parse_id(d) {
                    None => Some(HashErrorView::InvalidDependency { dependency: d, task }),
                    Some(id) => if has_id(ts, id) {
                        None
                    } else {
                        Some(HashErrorView::MissingDependency { dependency: d, task })
                    },
                }
            },
        }
    }
}

/// The dependencies of `t` in the order they are hashed: each once, sorted
/// by their text.
pub open spec fn hashed_deps(t: TaskView) -> Seq<Seq<char>> {
    sorted_texts(dedup(t.depends_on, t.depends_on.len() as int))
}

/// Everything of a task but its dependencies and input files: the id,
/// command and root come first; the patterns and environment come after
/// the dependencies.
pub open spec fn head_fields(t: TaskView) -> Seq<u8> {
    text_kv("id"@, id_text((t.project_name, t.task_name))) + text_kv("cmd"@, t.cmd) + text_kv("root"@, t.project_root)
}

/// The pattern and environment fields of a task.
pub open spec fn tail_fields(t: TaskView) -> Seq<u8> {
    list_fields("input"@, sorted_texts(t.inputs)) + list_fields("output"@, sorted_texts(t.outputs)) + list_fields(
        "ignore"@,
        sorted_texts(t.ignore),
    ) + env_fields(t.env, env_names(t.env), env_names(t.env).len() as int)
}

/// The hash of the task with id `key`, among tasks `ts`, with the input
/// files of `globs`; `visiting` marks the tasks whose hash is being
/// computed further up, reaching one of them again is a cycle.
pub open spec fn task_digest(ts: Seq<TaskView>, globs: Seq<InputGlob>, key: (Seq<char>, Seq<char>), visiting: Seq<bool>) -> Result<Seq<char>, HashErrorView>
    decreases ts.len() - count_true(visiting), 0int,
    when visiting.len() == ts.len()
{
    if !has_id(ts, key) {
        Err(HashErrorView::TaskNotFound { task: id_text(key) })
    } else {
        let i = index_of_id(ts, key);
        if visiting[i] {
            Err(HashErrorView::CircularDependency { task: id_text(key) })
        } else {
            let t = ts[i];
            match first_bad_dep(ts, t, t.depends_on.len() as int) {
                Some(e) => Err(e),
                None => {
                    let deps = hashed_deps(t);
                    let vis = visiting.update(i, true);
                    proof {
                        lemma_count_true_set(visiting, i);
                        lemma_count_true_le(vis);
                    }
                    match deps_fields(ts, globs, deps, deps.len() as int, vis) {
                        Err(e) => Err(e),
                        Ok(db) => match inputs_fields(t, globs, sorted_texts(t.inputs), t.inputs.len() as int) {
                            Err(e) => Err(e),
                            Ok(fb) => Ok(blake3_hex_digest(head_fields(t) + db + tail_fields(t) + fb)),
                        },
                    }
                },
            }
        }
    }
}

/// The fields `dep = hash` of the first `k` dependencies in `deps`.
pub open spec fn deps_fields(ts: Seq<TaskView>, globs: Seq<InputGlob>, deps: Seq<Seq<char>>, k: int, visiting: Seq<bool>) -> Result<Seq<u8>, HashErrorView>
    decreases ts.len() - count_true(visiting), k + 1,
    when visiting.len() == ts.len() && count_true(visiting) <= ts.len()
{
    if k <= 0 {
        Ok(Seq::empty())
    } else {
        match deps_fields(ts, globs, deps, k - 1, visiting) {
            Err(e) => Err(e),
            Ok(b) => match parse_id(deps[k - 1]) {
                None => Err(HashErrorView::InvalidDependency { dependency: deps[k - 1], task: deps[k - 1] }),
                Some(id) => match task_digest(ts, globs, id, visiting) {
                    Err(e) => Err(e),
                    Ok(h) => Ok(b + text_kv("dep"@, h)),
                },
            },
        }
    }
}

/// The views of a list of tasks.
pub open spec fn task_views(ts: Seq<Task>) -> Seq<TaskView> {
    ts.map_values(|t: Task| t@)
}

/// The hash of the task with id `key` of a task map.
pub open spec fn hash_of(ts: Seq<Task>, globs: Seq<InputGlob>, key: (Seq<char>, Seq<char>)) -> Result<Seq<char>, HashErrorView> {
    task_digest(task_views(ts), globs, key, Seq::new(ts.len(), |i: int| false))
}

/// Whether an exec result and a spec result agree.
/// A hash as it is shown: 64 lowercase hexadecimal digits.
pub open spec fn is_hex_hash(h: Seq<char>) -> bool {
    &&& h.len() == 64
    &&& forall|i: int| 0 <= i < 64 ==> ('0' <= #[trigger] h[i] <= '9' || 'a' <= h[i] <= 'f')
}

/// The result of a hash is what the specification gives, as text.
pub open spec fn matches_result(r: Result<String, HashError>, s: Result<Seq<char>, HashErrorView>) -> bool {
    match r {
        Ok(h) => s == Ok::<Seq<char>, HashErrorView>(h@),
        Err(e) => s == Err::<Seq<char>, HashErrorView>(e@),
    }
}

// ---------------------------------------------------------------------------
// Building the stream.

/// Appends `n` as eight bytes, least significant first.
fn push_le64(out: &mut Vec<u8>, n: u64)
    ensures
        final(out)@ == old(out)@ + le_bytes(n as nat, 8),
{
    let ghost start = out@;
    let mut x: u64 = n;
    let mut i: u64 = 0;
    while i < 8
        invariant
            i <= 8,
            start + le_bytes(n as nat, 8) == out@ + le_bytes(x as nat, (8 - i) as nat),
        decreases 8 - i,
    {
        let ghost before = out@;
        let b: u8 = (x % 256) as u8;
        proof {
            assert(le_bytes(x as nat, (8 - i) as nat) == seq![b] + le_bytes((x / 256) as nat, (8 - i - 1) as nat));
        }
        out.push(b);
        proof {
            assert(out@ == before + seq![b]);
            assert(before + (seq![b] + le_bytes((x / 256) as nat, (8 - i - 1) as nat)) =~= out@ + le_bytes(
                (x / 256) as nat,
                (8 - i - 1) as nat,
            ));
        }
        x = x / 256;
        i = i + 1;
    }
    proof {
        assert(le_bytes(x as nat, 0) =~= Seq::<u8>::empty());
        assert(out@ + Seq::<u8>::empty() =~= out@);
    }
}

/// Appends the bytes of a slice.
fn push_bytes(out: &mut Vec<u8>, b: &[u8])
    ensures
        final(out)@ == old(out)@ + b@,
{
    let ghost start = out@;
    for i in 0..b.len()
        invariant
            out@ == start + b@.take(i as int),
    {
        out.push(b[i]);
        proof {
            assert(b@.take(i + 1) =~= b@.take(i as int).push(b@[i as int]));
        }
    }
    proof {
        assert(b@.take(b@.len() as int) =~= b@);
    }
}

/// Appends a field.
fn push_kv(out: &mut Vec<u8>, key: &[u8], value: &[u8])
    ensures
        final(out)@ == old(out)@ + kv(key@, value@),
{
    let ghost start = out@;
    push_le64(out, key.len() as u64);
    push_bytes(out, key);
    push_le64(out, value.len() as u64);
    push_bytes(out, value);
    proof {
        assert(out@ =~= start + kv(key@, value@));
    }
}

/// Appends a field whose key and value are texts.
fn push_text_kv(out: &mut Vec<u8>, key: &str, value: &str)
    ensures
        final(out)@ == old(out)@ + text_kv(key@, value@),
{
    push_kv(out, key.as_bytes(), value.as_bytes());
}

/// Appends the fields `key = v` for each text of a list.
fn push_list(out: &mut Vec<u8>, key: &str, vs: &Vec<String>)
    ensures
        final(out)@ == old(out)@ + list_fields(key@, views(vs@)),
{
    let ghost start = out@;
    for i in 0..vs.len()
        invariant
            out@ == start + list_fields(key@, views(vs@).take(i as int)),
    {
        let ghost before = out@;
        push_text_kv(out, key, vs[i].as_str());
        proof {
            let w = views(vs@).take(i + 1);
            assert(w.drop_last() =~= views(vs@).take(i as int));
            assert(w.last() == vs@[i as int]@);
            assert(out@ =~= start + list_fields(key@, w));
        }
    }
    proof {
        assert(views(vs@).take(vs@.len() as int) =~= views(vs@));
    }
}

/// Two sorted lists without repeats that hold the same texts are equal.
proof fn lemma_sorted_sets_equal(a: Seq<Seq<char>>, b: Seq<Seq<char>>)
    requires
        sorted_by(a, text_le()),
        sorted_by(b, text_le()),
        a.no_duplicates(),
        b.no_duplicates(),
        a.to_set() == b.to_set(),
    ensures
        a == b,
{
    broadcast use vstd::seq_lib::group_to_multiset_ensures;

    a.lemma_multiset_has_no_duplicates();
    b.lemma_multiset_has_no_duplicates();
    assert forall|x: Seq<char>| a.to_multiset().count(x) == b.to_multiset().count(x) by {
        assert(a.contains(x) == a.to_set().contains(x));
        assert(b.contains(x) == b.to_set().contains(x));
        if a.contains(x) {
            assert(a.to_multiset().contains(x));
            assert(b.to_multiset().contains(x));
        }
    }
    assert(a.to_multiset() =~= b.to_multiset());
    lemma_is_sorted_texts(b, a);
    lemma_is_sorted_texts(b, b);
}

/// The names of an environment's variables, sorted.
pub(crate) fn sorted_env_names(env: &EnvMap) -> (r: Vec<String>)
    requires
        env.wf(),
    ensures
        views(r@) == env_names(env@),
        views(r@).to_set() == env@.dom(),
{
    proof {
        env.lemma_view();
    }
    let entries = env.entries();
    let mut names: Vec<String> = Vec::new();
    for i in 0..entries.len()
        invariant
            views(names@) == entry_keys(entries@.take(i as int)),
    {
        names.push(entries[i].0.clone());
        proof {
            assert(entry_keys(entries@.take(i + 1)) =~= entry_keys(entries@.take(i as int)).push(entries@[i as int].0@));
        }
    }
    proof {
        assert(entries@.take(entries@.len() as int) =~= entries@);
    }
    let ghost unsorted = views(names@);
    let names = sort_strings(names);
    let ghost m = env@;
    proof {
        lemma_text_le_total();
        // The names of the entries are distinct and are the map's domain.
        assert(unsorted.no_duplicates()) by {
            assert forall|a: int, b: int| 0 <= a < b < unsorted.len() implies unsorted[a] != unsorted[b] by {
                assert(unsorted[a] == entries@[a].0@);
                assert(unsorted[b] == entries@[b].0@);
            }
        }
        crate::sort::lemma_same_multiset(unsorted, views(names@));
        assert(views(names@).to_set() =~= m.dom()) by {
            crate::env_map::lemma_entries_map_len(entries@);
            assert forall|x: Seq<char>| views(names@).to_set().contains(x) <==> unsorted.to_set().contains(x) by {
                assert(views(names@).contains(x) <==> unsorted.contains(x));
            }
        }
        let c = env_names(m);
        assert(sorted_by(views(names@), text_le()) && views(names@).no_duplicates() && views(names@).to_set() == m.dom());
        assert(sorted_by(c, text_le()) && c.no_duplicates() && c.to_set() == m.dom());
        lemma_sorted_sets_equal(views(names@), c);
    }
    names
}

/// Appends the fields of an environment, by sorted name.
fn push_env(out: &mut Vec<u8>, env: &EnvMap)
    requires
        env.wf(),
    ensures
        final(out)@ == old(out)@ + env_fields(env@, env_names(env@), env_names(env@).len() as int),
{
    let names = sorted_env_names(env);
    let ghost m = env@;
    let ghost start = out@;
    let ghost ns = views(names@);
    for k in 0..names.len()
        invariant
            env.wf(),
            m == env@,
            ns == views(names@),
            ns == env_names(m),
            ns.to_set() == m.dom(),
            out@ == start + env_fields(m, ns, k as int),
    {
        proof {
            assert(ns.to_set().contains(ns[k as int]));
        }
        let v = env.get(names[k].as_str());
        match v {
            Some(v) => {
                push_text_kv(out, "env_key", names[k].as_str());
                push_text_kv(out, "env_val", v.as_str());
                proof {
                    assert(out@ =~= start + env_fields(m, ns, k + 1));
                }
            },
            None => {
                proof {
                    assert(false);
                }
            },
        }
    }
}

/// Whether `path` is excluded by one of `patterns`.
pub fn is_ignored(path: &str, patterns: &Vec<String>) -> (r: bool)
    ensures
        r == ignored(path@, views(patterns@)),
{
    for k in 0..patterns.len()
        invariant
            forall|q: int| 0 <= q < k ==> !glob_matches_path(patterns@[q]@, path@),
    {
        if glob_matches(patterns[k].as_str(), path) {
            proof {
                assert(views(patterns@)[k as int] == patterns@[k as int]@);
            }
            return true;
        }
    }
    proof {
        if ignored(path@, views(patterns@)) {
            let q = choose|q: int| 0 <= q < views(patterns@).len() && glob_matches_path(#[trigger] views(patterns@)[q], path@);
            assert(views(patterns@)[q] == patterns@[q]@);
        }
    }
    false
}

/// The index of the first walk reported for `input` of task `id`, if any.
pub(crate) fn find_walk(globs: &Vec<InputGlob>, id: &TaskId, input: &String) -> (r: Option<usize>)
    ensures
        match r {
            Some(k) => k < globs@.len() && walk_of(globs@, id@, input@) == match globs@[k as int].walk {
                Ok(v) => Ok::<Seq<InputFile>, Seq<char>>(v@),
                Err(m) => Err::<Seq<InputFile>, Seq<char>>(m@),
            },
            None => walk_of(globs@, id@, input@) == Ok::<Seq<InputFile>, Seq<char>>(Seq::empty()),
        },
{
    proof {
        assert(globs@.skip(0) =~= globs@);
    }
    for k in 0..globs.len()
        invariant
            walk_of(globs@, id@, input@) == walk_of(globs@.skip(k as int), id@, input@),
    {
        let g = &globs[k];
        proof {
            assert(globs@.skip(k as int)[0] == *g);
            assert(globs@.skip(k as int).drop_first() =~= globs@.skip(k + 1));
        }
        if g.task.same(id) && g.input == *input {
            return Some(k);
        }
    }
    proof {
        assert(globs@.skip(globs@.len() as int) =~= Seq::<InputGlob>::empty());
    }
    None
}

/// The files at positions `idx` of `files`.
pub open spec fn files_at_indices(files: Seq<InputFile>, idx: Seq<usize>) -> Seq<InputFile> {
    idx.map_values(|q: usize| files[q as int])
}

/// The positions `keep` of `files`, reordered so that their files come in
/// path order (`sort_by_path`).
fn sort_indices_by_path(files: &Vec<InputFile>, keep: &Vec<usize>) -> (r: Vec<usize>)
    requires
        forall|q: int| 0 <= q < keep@.len() ==> (#[trigger] keep@[q]) < files@.len(),
    ensures
        forall|q: int| 0 <= q < r@.len() ==> (#[trigger] r@[q]) < files@.len(),
        files_at_indices(files@, r@) == sort_by_path(files_at_indices(files@, keep@)),
{
    let ghost all = files_at_indices(files@, keep@);
    let mut sorted: Vec<usize> = Vec::new();
    proof {
        assert(files_at_indices(files@, sorted@) =~= Seq::<InputFile>::empty());
        assert(all.take(0) =~= Seq::<InputFile>::empty());
    }
    for i in 0..keep.len()
        invariant
            all == files_at_indices(files@, keep@),
            forall|q: int| 0 <= q < keep@.len() ==> (#[trigger] keep@[q]) < files@.len(),
            forall|q: int| 0 <= q < sorted@.len() ==> (#[trigger] sorted@[q]) < files@.len(),
            files_at_indices(files@, sorted@) == sort_by_path(all.take(i as int)),
    {
        let x = keep[i];
        let ghost s = files_at_indices(files@, sorted@);
        let ghost xf = files@[x as int];
        let mut p: usize = 0;
        let mut done = false;
        proof {
            assert(s.skip(0) =~= s);
        }
        while !done && p < sorted.len()
            invariant
                p <= sorted@.len(),
                x < files@.len(),
                xf == files@[x as int],
                s == files_at_indices(files@, sorted@),
                forall|q: int| 0 <= q < sorted@.len() ==> (#[trigger] sorted@[q]) < files@.len(),
                insert_at(s, xf) == p + insert_at(s.skip(p as int), xf),
                done ==> p < sorted@.len() && !path_le(s[p as int].path@, xf.path@),
            decreases sorted@.len() - p, if done { 0int } else { 1int },
        {
            let y = sorted[p];
            proof {
                assert(s[p as int] == files@[y as int]);
                assert(s.skip(p as int)[0] == s[p as int]);
                assert(s.skip(p as int).drop_first() =~= s.skip(p + 1));
            }
            if !path_text_le(files[y].path.as_str(), files[x].path.as_str()) {
                done = true;
            } else {
                p = p + 1;
            }
        }
        proof {
            if !done {
                assert(s.skip(p as int) =~= Seq::<InputFile>::empty());
            } else {
                assert(s.skip(p as int)[0] == s[p as int]);
            }
            assert(insert_at(s, xf) == p);
        }
        sorted.insert(p, x);
        proof {
            assert(files_at_indices(files@, sorted@) =~= s.insert(p as int, xf));
            assert(all.take(i + 1).drop_last() =~= all.take(i as int));
            assert(all.take(i + 1).last() == xf);
        }
    }
    proof {
        assert(all.take(keep@.len() as int) =~= all);
    }
    sorted
}

/// Appends the fields of one input pattern of task `t`, whose id reads
/// `task`.
fn push_input(out: &mut Vec<u8>, t: &Task, task: &String, globs: &Vec<InputGlob>, input: &String) -> (r: Result<(), HashError>)
    requires
        task@ == id_text(task_key(*t)),
    ensures
        match r {
            Ok(()) => input_fields(t@, globs@, input@) matches Ok(b) && final(out)@ == old(out)@ + b,
            Err(e) => input_fields(t@, globs@, input@) == Err::<Seq<u8>, HashErrorView>(e@),
        },
{
    let ghost before0 = out@;
    let id = t.id();
    let found = find_walk(globs, &id, input);
    let files: &Vec<InputFile> = match found {
        None => {
            proof {
                assert(kept_files(Seq::<InputFile>::empty(), views(t.ignore@)) =~= Seq::<InputFile>::empty());
            }
            return Err(HashError::NoInputFiles { input: input.clone(), task: task.clone() });
        },
        Some(k) => match &globs[k].walk {
            Err(m) => {
                return Err(HashError::InputWalk { input: input.clone(), task: task.clone(), message: m.clone() });
            },
            Ok(v) => v,
        },
    };
    let ghost pats = views(t.ignore@);
    let ghost pred = |f: InputFile| !ignored(f.path@, pats);
    let mut keep: Vec<usize> = Vec::new();
    let ghost mut kept: Seq<InputFile> = Seq::empty();
    for i in 0..files.len()
        invariant
            pats == views(t.ignore@),
            pred == (|f: InputFile| !ignored(f.path@, pats)),
            kept == files@.take(i as int).filter(pred),
            keep@.len() == kept.len(),
            forall|a: int| 0 <= a < keep@.len() ==> (#[trigger] keep@[a]) < files@.len() && files@[keep@[a] as int] == kept[a],
    {
        proof {
            assert(files@.take(i + 1).drop_last() =~= files@.take(i as int));
            assert(files@.take(i + 1).last() == files@[i as int]);
        }
        let ign = is_ignored(files[i].path.as_str(), &t.ignore);
        proof {
            reveal(Seq::filter);
            assert(pred(files@[i as int]) == !ign);
            assert(files@.take(i + 1).filter(pred) == if pred(files@[i as int]) {
                files@.take(i as int).filter(pred).push(files@[i as int])
            } else {
                files@.take(i as int).filter(pred)
            });
        }
        if !ign {
            keep.push(i);
            proof {
                kept = kept.push(files@[i as int]);
            }
        }
    }
    proof {
        assert(files@.take(files@.len() as int) =~= files@);
        assert(kept == kept_files(files@, pats));
        assert(files_at_indices(files@, keep@) =~= kept);
    }
    let keep = sort_indices_by_path(files, &keep);
    proof {
        lemma_sort_by_path(kept);
        kept.to_multiset_ensures();
        sort_by_path(kept).to_multiset_ensures();
        kept = sort_by_path(kept);
        assert forall|a: int| 0 <= a < keep@.len() implies (#[trigger] keep@[a]) < files@.len() && files@[keep@[a] as int] == kept[a] by {
            assert(files_at_indices(files@, keep@)[a] == files@[keep@[a] as int]);
        }
    }
    if keep.len() == 0 {
        return Err(HashError::NoInputFiles { input: input.clone(), task: task.clone() });
    }
    push_kv(out, "file_count".as_bytes(), push_count_bytes(keep.len() as u64).as_slice());
    let ghost start = out@;
    let ghost head = kv(encode_utf8("file_count"@), le_bytes(kept.len(), 8));
    for a in 0..keep.len()
        invariant
            keep@.len() == kept.len(),
            kept.len() > 0,
            kept == sort_by_path(kept_files(files@, views(t.ignore@))),
            walk_of(globs@, task_key(*t), input@) == Ok::<Seq<InputFile>, Seq<char>>(files@),
            start == before0 + head,
            head == kv(encode_utf8("file_count"@), le_bytes(kept.len(), 8)),
            forall|q: int| 0 <= q < keep@.len() ==> (#[trigger] keep@[q]) < files@.len() && files@[keep@[q] as int] == kept[q],
            task@ == id_text(task_key(*t)),
            file_fields(kept, task@, a as int) matches Ok(b) && out@ == start + b,
    {
        let f = &files[keep[a]];
        match &f.content {
            Err(m) => {
                let e = HashError::UnreadableInput { path: f.path.clone(), task: task.clone(), message: m.clone() };
                proof {
                    assert(kept[a as int] == *f);
                    assert(file_fields(kept, task@, a + 1) == Err::<Seq<u8>, HashErrorView>(e@));
                    lemma_file_fields_err_stable(kept, task@, a + 1, kept.len() as int);
                }
                return Err(e);
            },
            Ok(c) => {
                push_text_kv(out, "path", f.path.as_str());
                push_kv(out, "content".as_bytes(), c.as_slice());
                proof {
                    assert(kept[a as int] == *f);
                    let b = file_fields(kept, task@, a as int)->Ok_0;
                    assert(out@ =~= start + (b + text_kv("path"@, f.path@) + kv(encode_utf8("content"@), c@)));
                }
            },
        }
    }
    proof {
        let b = file_fields(kept, task@, kept.len() as int)->Ok_0;
        assert(out@ =~= before0 + (head + b));
    }
    Ok(())
}

proof fn lemma_file_fields_err_stable(fs: Seq<InputFile>, task: Seq<char>, k: int, m: int)
    requires
        0 <= k <= m,
        file_fields(fs, task, k) is Err,
    ensures
        file_fields(fs, task, m) == file_fields(fs, task, k),
    decreases m - k,
{
    if k < m {
        lemma_file_fields_err_stable(fs, task, k, m - 1);
    }
}

/// `n` as eight bytes, least significant first.
fn push_count_bytes(n: u64) -> (r: Vec<u8>)
    ensures
        r@ == le_bytes(n as nat, 8),
{
    let mut v: Vec<u8> = Vec::new();
    push_le64(&mut v, n);
    proof {
        assert(Seq::<u8>::empty() + le_bytes(n as nat, 8) =~= le_bytes(n as nat, 8));
    }
    v
}

/// Appends the fields of input patterns `inputs` of task `t`, in order.
fn push_inputs(out: &mut Vec<u8>, t: &Task, task: &String, globs: &Vec<InputGlob>, inputs: &Vec<String>) -> (r: Result<(), HashError>)
    requires
        task@ == id_text(task_key(*t)),
    ensures
        match r {
            Ok(()) => inputs_fields(t@, globs@, views(inputs@), inputs@.len() as int) matches Ok(b) && final(out)@ == old(out)@ + b,
            Err(e) => inputs_fields(t@, globs@, views(inputs@), inputs@.len() as int) == Err::<Seq<u8>, HashErrorView>(e@),
        },
{
    let ghost start = out@;
    let ghost ins = views(inputs@);
    for k in 0..inputs.len()
        invariant
            task@ == id_text(task_key(*t)),
            ins == views(inputs@),
            inputs_fields(t@, globs@, ins, k as int) matches Ok(b) && out@ == start + b,
    {
        let ghost before = out@;
        match push_input(out, t, task, globs, &inputs[k]) {
            Err(e) => {
                proof {
                    assert(ins[k as int] == inputs@[k as int]@);
                    lemma_inputs_fields_err_stable(t@, globs@, ins, k + 1, ins.len() as int);
                }
                return Err(e);
            },
            Ok(()) => {
                proof {
                    assert(ins[k as int] == inputs@[k as int]@);
                    let b = inputs_fields(t@, globs@, ins, k as int)->Ok_0;
                    let c = input_fields(t@, globs@, ins[k as int])->Ok_0;
                    assert(out@ =~= start + (b + c));
                }
            },
        }
    }
    Ok(())
}

proof fn lemma_inputs_fields_err_stable(t: TaskView, globs: Seq<InputGlob>, inputs: Seq<Seq<char>>, k: int, m: int)
    requires
        0 <= k <= m,
        inputs_fields(t, globs, inputs, k) is Err,
    ensures
        inputs_fields(t, globs, inputs, m) == inputs_fields(t, globs, inputs, k),
    decreases m - k,
{
    if k < m {
        lemma_inputs_fields_err_stable(t, globs, inputs, k, m - 1);
    }
}

proof fn lemma_first_bad_dep_stable(ts: Seq<TaskView>, t: TaskView, k: int, m: int)
    requires
        0 <= k <= m,
        first_bad_dep(ts, t, k) is Some,
    ensures
        first_bad_dep(ts, t, m) == first_bad_dep(ts, t, k),
    decreases m - k,
{
    if k < m {
        lemma_first_bad_dep_stable(ts, t, k, m - 1);
    }
}

proof fn lemma_deps_fields_err_stable(ts: Seq<TaskView>, globs: Seq<InputGlob>, deps: Seq<Seq<char>>, k: int, m: int, vis: Seq<bool>)
    requires
        0 <= k <= m,
        vis.len() == ts.len(),
        count_true(vis) <= ts.len(),
        deps_fields(ts, globs, deps, k, vis) is Err,
    ensures
        deps_fields(ts, globs, deps, m, vis) == deps_fields(ts, globs, deps, k, vis),
    decreases m - k,
{
    if k < m {
        lemma_deps_fields_err_stable(ts, globs, deps, k, m - 1, vis);
    }
}

/// Task ids with unique ids: a task is found by its id, at its index.
proof fn lemma_views_index(ts: Seq<Task>, key: (Seq<char>, Seq<char>))
    requires
        forall|a: int, b: int| 0 <= a < b < ts.len() ==> task_key(ts[a]) != task_key(ts[b]),
    ensures
        has_id(task_views(ts), key) == crate::tasks::has_key(ts, key),
        forall|i: int| 0 <= i < ts.len() && task_key(ts[i]) == key ==> index_of_id(task_views(ts), key) == i,
{
    let vs = task_views(ts);
    if has_id(vs, key) {
        let i = choose|i: int| 0 <= i < vs.len() && (vs[i].project_name, vs[i].task_name) == key;
        assert(task_key(ts[i]) == key);
    }
    if crate::tasks::has_key(ts, key) {
        let i = choose|i: int| 0 <= i < ts.len() && task_key(ts[i]) == key;
        assert((vs[i].project_name, vs[i].task_name) == key);
    }
    assert forall|i: int| 0 <= i < ts.len() && task_key(ts[i]) == key implies index_of_id(vs, key) == i by {
        assert((vs[i].project_name, vs[i].task_name) == key);
        let j = index_of_id(vs, key);
        assert(task_key(ts[j]) == key);
        if i < j {
            assert(task_key(ts[i]) != task_key(ts[j]));
        } else if j < i {
            assert(task_key(ts[j]) != task_key(ts[i]));
        }
    }
}

/// Checks the dependencies of task `t` (whose id reads `task`) and returns
/// them as they are hashed: each once, sorted by text.
fn resolve_deps(tm: &TaskMap, t: &Task, task: &String) -> (r: Result<Vec<String>, HashError>)
    requires
        tm.wf(),
        task@ == id_text(task_key(*t)),
    ensures
        match r {
            Ok(v) => first_bad_dep(task_views(tm@), t@, t@.depends_on.len() as int) is None && views(v@) == hashed_deps(t@),
            Err(e) => first_bad_dep(task_views(tm@), t@, t@.depends_on.len() as int) == Some(e@),
        },
{
    let ghost ts = task_views(tm@);
    let ghost ds = t@.depends_on;
    let mut uniq: Vec<String> = Vec::new();
    for k in 0..t.depends_on.len()
        invariant
            tm.wf(),
            task@ == id_text(task_key(*t)),
            ts == task_views(tm@),
            ds == t@.depends_on,
            ds.len() == t.depends_on@.len(),
            first_bad_dep(ts, t@, k as int) is None,
            views(uniq@) == dedup(ds, k as int),
    {
        let d = &t.depends_on[k];
        proof {
            assert(ds[k as int] == d@);
        }
        match TaskId::parse(d.as_str()) {
            None => {
                let e = HashError::InvalidDependency { dependency: d.clone(), task: task.clone() };
                proof {
                    lemma_first_bad_dep_stable(ts, t@, k + 1, ds.len() as int);
                }
                return Err(e);
            },
            Some(id) => {
                proof {
                    lemma_views_index(tm@, id@);
                }
                if !tm.contains_key(&id) {
                    let e = HashError::MissingDependency { dependency: d.clone(), task: task.clone() };
                    proof {
                        lemma_first_bad_dep_stable(ts, t@, k + 1, ds.len() as int);
                    }
                    return Err(e);
                }
            },
        }
        let mut seen = false;
        let mut q: usize = 0;
        while q < uniq.len()
            invariant
                q <= uniq@.len(),
                seen == exists|a: int| 0 <= a < q && (#[trigger] uniq@[a])@ == d@,
            decreases uniq@.len() - q,
        {
            if uniq[q] == *d {
                seen = true;
            }
            q = q + 1;
        }
        let ghost before = views(uniq@);
        proof {
            assert(before.contains(d@) == seen) by {
                if seen {
                    let a = choose|a: int| 0 <= a < uniq@.len() && (#[trigger] uniq@[a])@ == d@;
                    assert(before[a] == d@);
                }
                if before.contains(d@) {
                    let a = choose|a: int| 0 <= a < before.len() && before[a] == d@;
                    assert(uniq@[a]@ == d@);
                }
            }
        }
        if !seen {
            uniq.push(d.clone());
            proof {
                assert(views(uniq@) =~= before.push(d@));
            }
        }
    }
    let sorted = sort_strings(uniq);
    proof {
        assert(ds.len() == t@.depends_on.len());
    }
    Ok(sorted)
}

/// Every task being visited, with task `i` now among them, takes in the
/// dependency `dep` that the `k`-th hashed dependency of task `i` names.
proof fn lemma_dep_stack(
    ts: Seq<TaskView>,
    vis0: Seq<bool>,
    vis: Seq<bool>,
    i: int,
    id: (Seq<char>, Seq<char>),
    k: int,
    dep: (Seq<char>, Seq<char>),
)
    requires
        vis0.len() == ts.len(),
        vis == vis0.update(i, true),
        0 <= i < ts.len(),
        has_id(ts, id),
        index_of_id(ts, id) == i,
        stack_ok(ts, vis0, id),
        0 <= k < hashed_deps(ts[i]).len(),
        parse_id(hashed_deps(ts[i])[k]) == Some(dep),
    ensures
        stack_ok(ts, vis, dep),
{
    if has_id(ts, dep) {
        let t_dep = index_of_id(ts, dep);
        assert(dep_edge(ts, i, t_dep));
        lemma_reaches_self(ts, t_dep);
        lemma_reaches_prepend(ts, i, t_dep, t_dep);
        assert forall|v: int| 0 <= v < vis.len() && #[trigger] vis[v] implies hash_reaches(ts, v, t_dep) by {
            if v != i {
                assert(vis0[v]);
                lemma_reaches_trans(ts, v, i, t_dep);
            }
        }
    }
}

/// After a dependency's hash is computed, every kept hash is still for a
/// task not being visited, and was kept before or is for a task that was
/// not being visited when task `i` began.
proof fn lemma_memo_after_dep(
    before: Seq<Option<String>>,
    after: Seq<Option<String>>,
    memo0: Seq<Option<String>>,
    vis0: Seq<bool>,
    vis: Seq<bool>,
    i: int,
)
    requires
        after.len() == before.len(),
        vis0.len() == before.len(),
        memo0.len() == before.len(),
        0 <= i < vis0.len(),
        vis == vis0.update(i, true),
        forall|j: int| 0 <= j < before.len() && (#[trigger] before[j]) is Some ==> !vis[j] && (memo0[j] is Some || !vis0[j]),
        forall|j: int| 0 <= j < after.len() && (#[trigger] after[j]) is Some ==> (before[j] is Some || !vis[j]),
    ensures
        forall|j: int| 0 <= j < after.len() && (#[trigger] after[j]) is Some ==> !vis[j] && (memo0[j] is Some || !vis0[j]),
{
    assert forall|j: int| 0 <= j < after.len() && (#[trigger] after[j]) is Some implies !vis[j] && (memo0[j] is Some
        || !vis0[j]) by {
        if before[j] is None {
            assert(!vis[j]);
            if j != i {
                assert(vis[j] == vis0[j]);
            }
        }
    }
}

/// The hash of the task `id`, computed depth first; `visiting` marks the
/// tasks whose hash is being computed further up.
#[verifier::spinoff_prover]
fn task_hash(
    tm: &TaskMap,
    globs: &Vec<InputGlob>,
    id: &TaskId,
    visiting: &mut Vec<bool>,
    memo: &mut Vec<Option<String>>,
) -> (r: Result<String, HashError>)
    requires
        tm.wf(),
        old(visiting)@.len() == tm@.len(),
        memo_ok(task_views(tm@), globs@, old(memo)@),
        forall|j: int| 0 <= j < old(memo)@.len() && (#[trigger] old(memo)@[j]) is Some ==> !old(visiting)@[j],
        stack_ok(task_views(tm@), old(visiting)@, id@),
    ensures
        final(visiting)@.len() == old(visiting)@.len(),
        r is Ok ==> final(visiting)@ == old(visiting)@,
        r matches Ok(h) ==> is_hex_hash(h@),
        matches_result(r, task_digest(task_views(tm@), globs@, id@, old(visiting)@)),
        r is Ok ==> memo_ok(task_views(tm@), globs@, final(memo)@),
        r is Ok ==> forall|j: int|
            0 <= j < final(memo)@.len() && (#[trigger] final(memo)@[j]) is Some ==> (old(memo)@[j] is Some
                || !old(visiting)@[j]),
    decreases tm@.len() - count_true(old(visiting)@),
{
    let ghost ts = task_views(tm@);
    let ghost vis0 = visiting@;
    let ghost memo0 = memo@;
    proof {
        lemma_views_index(tm@, id@);
        lemma_count_true_le(vis0);
    }
    let i = match tm.index_of(id) {
        None => {
            return Err(HashError::TaskNotFound { task: id.to_string() });
        },
        Some(i) => i,
    };
    proof {
        assert(key_at(ts, i as int) == id@);
        assert(index_of_id(ts, id@) == i);
    }
    // A hash computed before is the task's hash now.
    match &memo[i] {
        Some(h) => {
            proof {
                assert(memo0[i as int] is Some);
                lemma_memo_hit(ts, globs@, i as int, vis0);
            }
            return Ok(h.clone());
        },
        None => {},
    }
    if visiting[i] {
        return Err(HashError::CircularDependency { task: id.to_string() });
    }
    let t = &tm.tasks()[i];
    let task = id.to_string();
    proof {
        assert(ts[i as int] == t@);
        assert(task_key(*t) == id@);
    }
    let deps = match resolve_deps(tm, t, &task) {
        Err(e) => {
            return Err(e);
        },
        Ok(deps) => deps,
    };
    visiting.set(i, true);
    let ghost vis = visiting@;
    proof {
        assert(vis == vis0.update(i as int, true));
        lemma_count_true_set(vis0, i as int);
        lemma_count_true_le(vis);
    }
    let mut out: Vec<u8> = Vec::new();
    push_text_kv(&mut out, "id", task.as_str());
    push_text_kv(&mut out, "cmd", t.cmd.as_str());
    push_text_kv(&mut out, "root", t.project_root.as_str());
    let ghost head = out@;
    proof {
        assert(head =~= head_fields(t@));
    }
    let ghost dv = views(deps@);
    for k in 0..deps.len()
        invariant
            tm.wf(),
            ts == task_views(tm@),
            dv == views(deps@),
            visiting@ == vis,
            vis.len() == ts.len(),
            count_true(vis) <= ts.len(),
            count_true(vis) == count_true(vis0) + 1,
            deps_fields(ts, globs@, dv, k as int, vis) matches Ok(b) && out@ == head + b,
            vis0.len() == ts.len(),
            vis0 == old(visiting)@,
            ts.len() == tm@.len(),
            vis == vis0.update(i as int, true),
            i < ts.len(),
            has_id(ts, id@),
            index_of_id(ts, id@) == i,
            !vis0[i as int],
            first_bad_dep(ts, ts[i as int], ts[i as int].depends_on.len() as int) is None,
            dv == hashed_deps(ts[i as int]),
            head == head_fields(ts[i as int]),
            memo_ok(ts, globs@, memo@),
            memo0.len() == ts.len(),
            memo0[i as int] is None,
            memo@[i as int] is None,
            forall|j: int| 0 <= j < memo@.len() && (#[trigger] memo@[j]) is Some ==> !vis[j],
            forall|j: int| 0 <= j < memo@.len() && (#[trigger] memo@[j]) is Some ==> (memo0[j] is Some || !vis0[j]),
            stack_ok(ts, vis0, id@),
    {
        proof {
            assert(dv[k as int] == deps@[k as int]@);
        }
        let dep = match TaskId::parse(deps[k].as_str()) {
            None => {
                let e = HashError::InvalidDependency { dependency: deps[k].clone(), task: deps[k].clone() };
                proof {
                    lemma_deps_fields_err_stable(ts, globs@, dv, k + 1, dv.len() as int, vis);
                }
                return Err(e);
            },
            Some(dep) => dep,
        };
        proof {
            lemma_dep_stack(ts, vis0, vis, i as int, id@, k as int, dep@);
        }
        let ghost memo_before = memo@;
        match task_hash(tm, globs, &dep, visiting, memo) {
            Err(e) => {
                proof {
                    lemma_deps_fields_err_stable(ts, globs@, dv, k + 1, dv.len() as int, vis);
                }
                return Err(e);
            },
            Ok(h) => {
                push_text_kv(&mut out, "dep", h.as_str());
                proof {
                    let b = deps_fields(ts, globs@, dv, k as int, vis)->Ok_0;
                    assert(out@ =~= head + (b + text_kv("dep"@, h@)));
                    lemma_memo_after_dep(memo_before, memo@, memo0, vis0, vis, i as int);
                }
            },
        }
    }
    let ghost db = deps_fields(ts, globs@, dv, dv.len() as int, vis)->Ok_0;
    let ghost mid = out@;
    let inputs = sort_strings(crate::strings::copy_strings(&t.inputs));
    let outputs = sort_strings(crate::strings::copy_strings(&t.outputs));
    let ignore = sort_strings(crate::strings::copy_strings(&t.ignore));
    push_list(&mut out, "input", &inputs);
    push_list(&mut out, "output", &outputs);
    push_list(&mut out, "ignore", &ignore);
    proof {
        assert(tm@[i as int].env.wf());
    }
    push_env(&mut out, &t.env);
    let ghost tail = out@.skip(mid.len() as int);
    proof {
        assert(out@ =~= mid + tail_fields(t@));
        assert(tail =~= tail_fields(t@));
    }
    match push_inputs(&mut out, t, &task, globs, &inputs) {
        Err(e) => {
            proof {
                input_count_lemma(t@.inputs, views(inputs@));
            }
            return Err(e);
        },
        Ok(()) => {},
    }
    visiting.set(i, false);
    proof {
        input_count_lemma(t@.inputs, views(inputs@));
        assert(visiting@ =~= vis0);
        let fb = inputs_fields(t@, globs@, sorted_texts(t@.inputs), t@.inputs.len() as int)->Ok_0;
        assert(out@ =~= head_fields(t@) + db + tail_fields(t@) + fb);
    }
    let h = blake3_hex(out.as_slice());
    proof {
        assert(task_digest(ts, globs@, id@, vis0) == Ok::<Seq<char>, HashErrorView>(h@));
        lemma_memo_store(ts, globs@, id@, vis0);
    }
    let ghost memo_before = memo@;
    memo.set(i, Some(h.clone()));
    proof {
        assert forall|j: int| 0 <= j < memo@.len() && (#[trigger] memo@[j]) is Some implies (memo0[j] is Some || !vis0[j]) by {
            if j != i {
                assert(memo@[j] == memo_before[j]);
            }
        }
    }
    Ok(h)
}

// ---------------------------------------------------------------------------
// Which tasks a hash takes in, and why a hash already computed can be reused.

/// Task `b` is one of the dependencies task `a` hashes.
pub open spec fn dep_edge(ts: Seq<TaskView>, a: int, b: int) -> bool {
    &&& 0 <= a < ts.len()
    &&& exists|j: int|
        0 <= j < hashed_deps(ts[a]).len() && (#[trigger] parse_id(hashed_deps(ts[a])[j])) is Some && has_id(
            ts,
            parse_id(hashed_deps(ts[a])[j])->Some_0,
        ) && index_of_id(ts, parse_id(hashed_deps(ts[a])[j])->Some_0) == b
}

/// Task `p[m]` hashes task `p[m + 1]`.
pub open spec fn chain_link(ts: Seq<TaskView>, p: Seq<int>, m: int) -> bool {
    dep_edge(ts, p[m], p[m + 1])
}

/// `p` is a chain of tasks, each hashing the next.
pub open spec fn dep_chain(ts: Seq<TaskView>, p: Seq<int>) -> bool {
    &&& p.len() >= 1
    &&& forall|m: int| 0 <= m < p.len() - 1 ==> #[trigger] chain_link(ts, p, m)
}

/// Task `b` is task `a` or one whose hash goes, directly or not, into `a`'s.
pub open spec fn hash_reaches(ts: Seq<TaskView>, a: int, b: int) -> bool {
    exists|p: Seq<int>| #[trigger] dep_chain(ts, p) && p[0] == a && p.last() == b
}

proof fn lemma_reaches_self(ts: Seq<TaskView>, a: int)
    ensures
        hash_reaches(ts, a, a),
{
    assert(dep_chain(ts, seq![a]));
}

proof fn lemma_reaches_prepend(ts: Seq<TaskView>, a: int, b: int, c: int)
    requires
        dep_edge(ts, a, b),
        hash_reaches(ts, b, c),
    ensures
        hash_reaches(ts, a, c),
{
    let p = choose|p: Seq<int>| #[trigger] dep_chain(ts, p) && p[0] == b && p.last() == c;
    let q = seq![a] + p;
    assert forall|m: int| 0 <= m < q.len() - 1 implies #[trigger] chain_link(ts, q, m) by {
        if m > 0 {
            assert(chain_link(ts, p, m - 1));
            assert(q[m] == p[m - 1]);
            assert(q[m + 1] == p[m]);
        }
    }
    assert(dep_chain(ts, q));
    assert(q.last() == c);
}

proof fn lemma_reaches_trans(ts: Seq<TaskView>, a: int, b: int, c: int)
    requires
        hash_reaches(ts, a, b),
        hash_reaches(ts, b, c),
    ensures
        hash_reaches(ts, a, c),
{
    let p = choose|p: Seq<int>| #[trigger] dep_chain(ts, p) && p[0] == a && p.last() == b;
    let q = choose|q: Seq<int>| #[trigger] dep_chain(ts, q) && q[0] == b && q.last() == c;
    let r = p + q.drop_first();
    assert forall|m: int| 0 <= m < r.len() - 1 implies #[trigger] chain_link(ts, r, m) by {
        if m < p.len() - 1 {
            assert(chain_link(ts, p, m));
            assert(r[m] == p[m] && r[m + 1] == p[m + 1]);
        } else if m == p.len() - 1 {
            assert(chain_link(ts, q, 0));
            assert(r[m] == p.last());
            assert(r[m + 1] == q[1]);
            assert(q[0] == b);
        } else {
            assert(chain_link(ts, q, m - p.len() + 1));
            assert(r[m] == q[m - p.len() + 1]);
            assert(r[m + 1] == q[m - p.len() + 2]);
        }
    }
    assert(dep_chain(ts, r));
    if q.len() == 1 {
        assert(r =~= p);
    } else {
        assert(r.last() == q.last());
    }
}

/// The hash of task `key` with `vis` being visited can be computed.
#[verifier::opaque]
pub open spec fn digest_ok(ts: Seq<TaskView>, globs: Seq<InputGlob>, key: (Seq<char>, Seq<char>), vis: Seq<bool>) -> bool {
    task_digest(ts, globs, key, vis) is Ok
}

proof fn lemma_edge_in_range(ts: Seq<TaskView>, a: int, b: int)
    requires
        dep_edge(ts, a, b),
    ensures
        0 <= b < ts.len(),
{
    let j = choose|j: int|
        0 <= j < hashed_deps(ts[a]).len() && (#[trigger] parse_id(hashed_deps(ts[a])[j])) is Some && has_id(
            ts,
            parse_id(hashed_deps(ts[a])[j])->Some_0,
        ) && index_of_id(ts, parse_id(hashed_deps(ts[a])[j])->Some_0) == b;
}

proof fn lemma_reaches_in_range(ts: Seq<TaskView>, a: int, u: int)
    requires
        0 <= a < ts.len(),
        hash_reaches(ts, a, u),
    ensures
        0 <= u < ts.len(),
{
    let p = choose|p: Seq<int>| #[trigger] dep_chain(ts, p) && p[0] == a && p.last() == u;
    if p.len() > 1 {
        assert(chain_link(ts, p, p.len() - 2));
        let b = p[p.len() - 2];
        let j = choose|j: int|
            0 <= j < hashed_deps(ts[b]).len() && (#[trigger] parse_id(hashed_deps(ts[b])[j])) is Some && has_id(
                ts,
                parse_id(hashed_deps(ts[b])[j])->Some_0,
            ) && index_of_id(ts, parse_id(hashed_deps(ts[b])[j])->Some_0) == p[p.len() - 1];
    }
}

/// Every dependency of a list whose fields were computed has its own hash.
proof fn lemma_deps_fields_ok(ts: Seq<TaskView>, globs: Seq<InputGlob>, deps: Seq<Seq<char>>, k: int, vis: Seq<bool>, j: int)
    requires
        vis.len() == ts.len(),
        count_true(vis) <= ts.len(),
        deps_fields(ts, globs, deps, k, vis) is Ok,
        0 <= j < k,
    ensures
        parse_id(deps[j]) is Some,
        digest_ok(ts, globs, parse_id(deps[j])->Some_0, vis),
    decreases k,
{
    reveal(digest_ok);
    if j < k - 1 {
        lemma_deps_fields_ok(ts, globs, deps, k - 1, vis, j);
    }
}

/// What a computed hash says of its task: it exists, was not being
/// visited, has no bad dependency, and its dependencies' fields were
/// computed with it marked.
proof fn lemma_digest_ok_step(ts: Seq<TaskView>, globs: Seq<InputGlob>, key: (Seq<char>, Seq<char>), vis: Seq<bool>)
    requires
        vis.len() == ts.len(),
        digest_ok(ts, globs, key, vis),
    ensures
        has_id(ts, key),
        !vis[index_of_id(ts, key)],
        first_bad_dep(ts, ts[index_of_id(ts, key)], ts[index_of_id(ts, key)].depends_on.len() as int) is None,
        count_true(vis.update(index_of_id(ts, key), true)) <= ts.len(),
        deps_fields(
            ts,
            globs,
            hashed_deps(ts[index_of_id(ts, key)]),
            hashed_deps(ts[index_of_id(ts, key)]).len() as int,
            vis.update(index_of_id(ts, key), true),
        ) is Ok,
{
    reveal(digest_ok);
    let i = index_of_id(ts, key);
    lemma_count_true_le(vis);
    assert(has_id(ts, key));
    lemma_count_true_set(vis, i);
    lemma_count_true_le(vis.update(i, true));
}

/// Along a chain from a task whose hash was computed, no task was being
/// visited, and the chain never comes back to where it started.
#[verifier::spinoff_prover]
#[verifier::rlimit(60)]
proof fn lemma_digest_chain(ts: Seq<TaskView>, globs: Seq<InputGlob>, key: (Seq<char>, Seq<char>), vis: Seq<bool>, p: Seq<int>)
    requires
        vis.len() == ts.len(),
        digest_ok(ts, globs, key, vis),
        dep_chain(ts, p),
        p[0] == index_of_id(ts, key),
    ensures
        forall|m: int| 0 <= m < p.len() ==> !vis[#[trigger] p[m]],
        forall|m: int| 0 < m < p.len() ==> #[trigger] p[m] != p[0],
    decreases p.len(),
{
    let a = p[0];
    lemma_digest_ok_step(ts, globs, key, vis);
    if p.len() > 1 {
        assert(chain_link(ts, p, 0));
        let deps = hashed_deps(ts[a]);
        let j = choose|j: int|
            0 <= j < hashed_deps(ts[a]).len() && (#[trigger] parse_id(hashed_deps(ts[a])[j])) is Some && has_id(
                ts,
                parse_id(hashed_deps(ts[a])[j])->Some_0,
            ) && index_of_id(ts, parse_id(hashed_deps(ts[a])[j])->Some_0) == p[1];
        let id = parse_id(deps[j])->Some_0;
        let vis2 = vis.update(a, true);
        lemma_deps_fields_ok(ts, globs, deps, deps.len() as int, vis2, j);
        let q = p.drop_first();
        assert forall|m: int| 0 <= m < q.len() - 1 implies #[trigger] chain_link(ts, q, m) by {
            assert(chain_link(ts, p, m + 1));
            assert(q[m] == p[m + 1] && q[m + 1] == p[m + 2]);
        }
        lemma_digest_chain(ts, globs, id, vis2, q);
        assert forall|m: int| 0 <= m < p.len() implies !vis[#[trigger] p[m]] by {
            if m > 0 {
                assert(chain_link(ts, p, m - 1));
                lemma_edge_in_range(ts, p[m - 1], p[m]);
                assert(p[m] == q[m - 1]);
                assert(!vis2[q[m - 1]]);
            }
        }
        assert forall|m: int| 0 < m < p.len() implies #[trigger] p[m] != p[0] by {
            assert(chain_link(ts, p, m - 1));
            lemma_edge_in_range(ts, p[m - 1], p[m]);
            assert(p[m] == q[m - 1]);
            assert(!vis2[q[m - 1]]);
        }
    }
}

/// A hash depends only on whether the tasks it takes in are being visited.
#[verifier::spinoff_prover]
#[verifier::rlimit(60)]
proof fn lemma_digest_frame(ts: Seq<TaskView>, globs: Seq<InputGlob>, key: (Seq<char>, Seq<char>), v: Seq<bool>, w: Seq<bool>)
    requires
        v.len() == ts.len(),
        w.len() == ts.len(),
        has_id(ts, key) ==> forall|u: int| hash_reaches(ts, index_of_id(ts, key), u) ==> v[u] == w[u],
    ensures
        task_digest(ts, globs, key, v) == task_digest(ts, globs, key, w),
    decreases ts.len() - count_true(v), 0int,
{
    lemma_count_true_le(v);
    lemma_count_true_le(w);
    if has_id(ts, key) {
        let i = index_of_id(ts, key);
        lemma_reaches_self(ts, i);
        if !v[i] {
            let t = ts[i];
            if first_bad_dep(ts, t, t.depends_on.len() as int) is None {
                let deps = hashed_deps(t);
                let v2 = v.update(i, true);
                let w2 = w.update(i, true);
                lemma_count_true_set(v, i);
                lemma_count_true_le(v2);
                lemma_count_true_set(w, i);
                lemma_count_true_le(w2);
                assert forall|j: int| 0 <= j < deps.len() && (#[trigger] parse_id(deps[j])) is Some && has_id(ts, parse_id(deps[j])->Some_0)
                    implies forall|u: int| hash_reaches(ts, index_of_id(ts, parse_id(deps[j])->Some_0), u) ==> v2[u] == w2[u] by {
                    let id = parse_id(deps[j])->Some_0;
                    assert(dep_edge(ts, i, index_of_id(ts, id)));
                    assert forall|u: int| hash_reaches(ts, index_of_id(ts, id), u) implies v2[u] == w2[u] by {
                        lemma_reaches_prepend(ts, i, index_of_id(ts, id), u);
                        assert(hash_reaches(ts, i, u));
                        lemma_reaches_in_range(ts, i, u);
                        assert(v[u] == w[u]);
                        if u != i {
                            assert(v2[u] == v[u]);
                            assert(w2[u] == w[u]);
                        }
                    }
                }
                lemma_deps_frame(ts, globs, deps, deps.len() as int, v2, w2);
            }
        }
    }
}

proof fn lemma_deps_frame(ts: Seq<TaskView>, globs: Seq<InputGlob>, deps: Seq<Seq<char>>, k: int, v: Seq<bool>, w: Seq<bool>)
    requires
        v.len() == ts.len(),
        w.len() == ts.len(),
        count_true(v) <= ts.len(),
        count_true(w) <= ts.len(),
        forall|j: int| 0 <= j < k && (#[trigger] parse_id(deps[j])) is Some && has_id(ts, parse_id(deps[j])->Some_0)
            ==> forall|u: int| hash_reaches(ts, index_of_id(ts, parse_id(deps[j])->Some_0), u) ==> v[u] == w[u],
    ensures
        deps_fields(ts, globs, deps, k, v) == deps_fields(ts, globs, deps, k, w),
    decreases ts.len() - count_true(v), k + 1,
{
    if k > 0 {
        lemma_deps_frame(ts, globs, deps, k - 1, v, w);
        match parse_id(deps[k - 1]) {
            None => {},
            Some(id) => {
                lemma_digest_frame(ts, globs, id, v, w);
            },
        }
    }
}

/// The id of task `j`.
pub open spec fn key_at(ts: Seq<TaskView>, j: int) -> (Seq<char>, Seq<char>) {
    (ts[j].project_name, ts[j].task_name)
}

/// Nothing is being visited.
pub open spec fn none_visited(n: nat) -> Seq<bool> {
    Seq::new(n, |x: int| false)
}

/// Each hash kept in `memo` is the hash of its task.
pub open spec fn memo_ok(ts: Seq<TaskView>, globs: Seq<InputGlob>, memo: Seq<Option<String>>) -> bool {
    &&& memo.len() == ts.len()
    &&& forall|j: int|
        0 <= j < memo.len() && (#[trigger] memo[j]) is Some ==> task_digest(ts, globs, key_at(ts, j), none_visited(ts.len()))
            == Ok::<Seq<char>, HashErrorView>(memo[j]->Some_0@) && is_hex_hash(memo[j]->Some_0@)
}

/// Every task being visited takes in, directly or not, task `key`'s hash.
pub open spec fn stack_ok(ts: Seq<TaskView>, vis: Seq<bool>, key: (Seq<char>, Seq<char>)) -> bool {
    has_id(ts, key) ==> forall|v: int| 0 <= v < vis.len() && #[trigger] vis[v] ==> hash_reaches(ts, v, index_of_id(ts, key))
}

/// A hash kept for a task that is not being visited is its hash now: no
/// task it takes in is being visited, since each of those would take in the
/// task again, a cycle, and the task's hash could not have been computed.
proof fn lemma_memo_hit(ts: Seq<TaskView>, globs: Seq<InputGlob>, j: int, vis: Seq<bool>)
    requires
        0 <= j < ts.len(),
        vis.len() == ts.len(),
        !vis[j],
        index_of_id(ts, key_at(ts, j)) == j,
        task_digest(ts, globs, key_at(ts, j), none_visited(ts.len())) is Ok,
        stack_ok(ts, vis, key_at(ts, j)),
    ensures
        task_digest(ts, globs, key_at(ts, j), vis) == task_digest(ts, globs, key_at(ts, j), none_visited(ts.len())),
{
    let key = key_at(ts, j);
    let none = none_visited(ts.len());
    assert(has_id(ts, key));
    assert forall|u: int| hash_reaches(ts, index_of_id(ts, key), u) implies vis[u] == none[u] by {
        lemma_reaches_in_range(ts, j, u);
        if vis[u] {
            // `u` takes in `j` and `j` takes in `u`: a cycle through `j`.
            assert(hash_reaches(ts, u, j));
            let p = choose|p: Seq<int>| #[trigger] dep_chain(ts, p) && p[0] == j && p.last() == u;
            assert(p.len() >= 2);
            assert(chain_link(ts, p, 0));
            let b = p[1];
            let tail = p.drop_first();
            assert forall|m: int| 0 <= m < tail.len() - 1 implies #[trigger] chain_link(ts, tail, m) by {
                assert(chain_link(ts, p, m + 1));
                assert(tail[m] == p[m + 1] && tail[m + 1] == p[m + 2]);
            }
            assert(dep_chain(ts, tail));
            assert(hash_reaches(ts, b, u));
            lemma_reaches_trans(ts, b, u, j);
            let q = choose|q: Seq<int>| #[trigger] dep_chain(ts, q) && q[0] == b && q.last() == j;
            let c = seq![j] + q;
            assert forall|m: int| 0 <= m < c.len() - 1 implies #[trigger] chain_link(ts, c, m) by {
                if m > 0 {
                    assert(chain_link(ts, q, m - 1));
                    assert(c[m] == q[m - 1] && c[m + 1] == q[m]);
                } else {
                    assert(c[0] == j && c[1] == b);
                }
            }
            assert(dep_chain(ts, c));
            reveal(digest_ok);
            lemma_digest_chain(ts, globs, key, none, c);
            assert(c[c.len() - 1] == j);
            assert(false);
        }
    }
    lemma_digest_frame(ts, globs, key, vis, none);
}

/// A hash computed while `vis` was being visited is the task's hash with
/// nothing being visited.
proof fn lemma_memo_store(ts: Seq<TaskView>, globs: Seq<InputGlob>, key: (Seq<char>, Seq<char>), vis: Seq<bool>)
    requires
        vis.len() == ts.len(),
        task_digest(ts, globs, key, vis) is Ok,
    ensures
        task_digest(ts, globs, key, none_visited(ts.len())) == task_digest(ts, globs, key, vis),
{
    let none = none_visited(ts.len());
    reveal(digest_ok);
    lemma_digest_ok_step(ts, globs, key, vis);
    let i = index_of_id(ts, key);
    assert forall|u: int| hash_reaches(ts, i, u) implies vis[u] == none[u] by {
        lemma_reaches_in_range(ts, i, u);
        let p = choose|p: Seq<int>| #[trigger] dep_chain(ts, p) && p[0] == i && p.last() == u;
        lemma_digest_chain(ts, globs, key, vis, p);
        assert(!vis[p[p.len() - 1]]);
    }
    lemma_digest_frame(ts, globs, key, vis, none);
}

/// A sorted copy of a list is as long as the list.
proof fn input_count_lemma(s: Seq<Seq<char>>, r: Seq<Seq<char>>)
    requires
        r == sorted_texts(s),
    ensures
        r.len() == s.len(),
{
    lemma_text_le_total();
    s.lemma_sort_by_ensures(text_le());
    s.to_multiset_ensures();
    r.to_multiset_ensures();
}

/// The hash of `task`, among the tasks of `task_map`, with the input files
/// `globs` found on disk.
pub fn get_hash(task: &Task, task_map: &TaskMap, globs: &Vec<InputGlob>) -> (r: Result<String, HashError>)
    requires
        task_map.wf(),
    ensures
        matches_result(r, hash_of(task_map@, globs@, task_key(*task))),
        r matches Ok(h) ==> is_hex_hash(h@),
{
    let mut visiting: Vec<bool> = Vec::new();
    let n = task_map.len();
    for k in 0..n
        invariant
            visiting@.len() == k,
            forall|j: int| 0 <= j < k ==> !visiting@[j],
    {
        visiting.push(false);
    }
    proof {
        assert(visiting@ =~= Seq::new(task_map@.len(), |i: int| false));
    }
    let mut memo: Vec<Option<String>> = Vec::new();
    for k in 0..n
        invariant
            memo@.len() == k,
            forall|j: int| 0 <= j < k ==> memo@[j] is None,
    {
        memo.push(None);
    }
    let id = task.id();
    task_hash(task_map, globs, &id, &mut visiting, &mut memo)
}

// ---------------------------------------------------------------------------
// The digest of a task's outputs.

/// Whether the character `x` comes before a different character `y` in path
/// order: the separator `/` before every other character, the rest by code
/// point, so that paths compare component by component.
pub open spec fn path_char_before(x: char, y: char) -> bool {
    if x == '/' {
        true
    } else if y == '/' {
        false
    } else {
        x < y
    }
}

/// Path order: character by character by `path_char_before`, a prefix first.
pub open spec fn path_le(a: Seq<char>, b: Seq<char>) -> bool
    decreases a.len(),
{
    if a.len() == 0 {
        true
    } else if b.len() == 0 {
        false
    } else if a[0] != b[0] {
        path_char_before(a[0], b[0])
    } else {
        path_le(a.drop_first(), b.drop_first())
    }
}

/// `a` comes strictly before `b` in path order.
pub open spec fn path_lt(a: Seq<char>, b: Seq<char>) -> bool {
    path_le(a, b) && a != b
}

/// Any two paths are ordered one way or the other.
pub proof fn lemma_path_le_total(a: Seq<char>, b: Seq<char>)
    ensures
        path_le(a, b) || path_le(b, a),
    decreases a.len(),
{
    if a.len() > 0 && b.len() > 0 && a[0] == b[0] {
        lemma_path_le_total(a.drop_first(), b.drop_first());
    }
}

/// Paths ordered both ways are equal.
pub proof fn lemma_path_le_antisymmetric(a: Seq<char>, b: Seq<char>)
    requires
        path_le(a, b),
        path_le(b, a),
    ensures
        a == b,
    decreases a.len(),
{
    if a.len() == 0 {
        assert(b.len() == 0);
        assert(a =~= b);
    } else {
        assert(b.len() > 0);
        assert(a[0] == b[0]);
        lemma_path_le_antisymmetric(a.drop_first(), b.drop_first());
        assert(a =~= seq![a[0]] + a.drop_first());
        assert(b =~= seq![b[0]] + b.drop_first());
    }
}

/// Path order is transitive.
pub proof fn lemma_path_le_transitive(a: Seq<char>, b: Seq<char>, c: Seq<char>)
    requires
        path_le(a, b),
        path_le(b, c),
    ensures
        path_le(a, c),
    decreases a.len(),
{
    if a.len() > 0 {
        assert(b.len() > 0);
        assert(c.len() > 0);
        if a[0] == b[0] && b[0] == c[0] {
            lemma_path_le_transitive(a.drop_first(), b.drop_first(), c.drop_first());
        }
    }
}

/// Where `x` goes into `s`: after the leading files whose path comes at or
/// before its own.
pub open spec fn insert_at(s: Seq<InputFile>, x: InputFile) -> int
    decreases s.len(),
{
    if s.len() == 0 {
        0
    } else if path_le(s[0].path@, x.path@) {
        1 + insert_at(s.drop_first(), x)
    } else {
        0
    }
}

/// Files sorted by path, those with equal paths in their first order.
pub open spec fn sort_by_path(s: Seq<InputFile>) -> Seq<InputFile>
    decreases s.len(),
{
    if s.len() == 0 {
        s
    } else {
        let r = sort_by_path(s.drop_last());
        r.insert(insert_at(r, s.last()), s.last())
    }
}

/// The kept files of the first `k` output patterns, in order.
pub open spec fn output_files(t: TaskView, globs: Seq<InputGlob>, k: int) -> Result<Seq<InputFile>, HashErrorView>
    decreases k,
{
    if k <= 0 {
        Ok(Seq::empty())
    } else {
        match output_files(t, globs, k - 1) {
            Err(e) => Err(e),
            Ok(before) => match walk_of(globs, (t.project_name, t.task_name), t.outputs[k - 1]) {
                Err(m) => Err(HashErrorView::OutputWalk {
                    output: t.outputs[k - 1],
                    task: id_text((t.project_name, t.task_name)),
                    message: m,
                }),
                Ok(found) => Ok(before + kept_files(found, t.ignore)),
            },
        }
    }
}

/// The digest of the files a task produced: the number of files its
/// output patterns keep, then each file's path and contents, in path order.
pub open spec fn output_digest(t: TaskView, globs: Seq<InputGlob>) -> Result<Seq<char>, HashErrorView> {
    match output_files(t, globs, t.outputs.len() as int) {
        Err(e) => Err(e),
        Ok(found) => {
            let sorted = sort_by_path(found);
            match file_fields(sorted, id_text((t.project_name, t.task_name)), sorted.len() as int) {
                Err(e) => Err(e),
                Ok(b) => Ok(blake3_hex_digest(kv(encode_utf8("file_count"@), le_bytes(sorted.len(), 8)) + b)),
            }
        },
    }
}

proof fn lemma_path_skip(a: Seq<char>, b: Seq<char>, i: int)
    requires
        0 <= i <= a.len(),
        i <= b.len(),
        a.take(i) == b.take(i),
    ensures
        path_le(a, b) == path_le(a.skip(i), b.skip(i)),
    decreases i,
{
    if i > 0 {
        assert(a[0] == a.take(i)[0]);
        assert(b[0] == b.take(i)[0]);
        assert(a.drop_first().take(i - 1) =~= a.take(i).drop_first());
        assert(b.drop_first().take(i - 1) =~= b.take(i).drop_first());
        lemma_path_skip(a.drop_first(), b.drop_first(), i - 1);
        assert(a.drop_first().skip(i - 1) =~= a.skip(i));
        assert(b.drop_first().skip(i - 1) =~= b.skip(i));
    } else {
        assert(a.skip(0) =~= a);
        assert(b.skip(0) =~= b);
    }
}

/// Compares two paths in path order.
pub fn path_text_le(a: &str, b: &str) -> (r: bool)
    ensures
        r == path_le(a@, b@),
{
    let va = crate::strings::chars_of(a);
    let vb = crate::strings::chars_of(b);
    let mut i: usize = 0;
    while i < va.len() && i < vb.len()
        invariant
            va@ == a@,
            vb@ == b@,
            i <= va.len(),
            i <= vb.len(),
            va@.take(i as int) == vb@.take(i as int),
        decreases va.len() - i,
    {
        if va[i] != vb[i] {
            proof {
                lemma_path_skip(va@, vb@, i as int);
                let sa = va@.skip(i as int);
                let sb = vb@.skip(i as int);
                assert(sa[0] == va@[i as int]);
                assert(sb[0] == vb@[i as int]);
                assert(path_le(sa, sb) == path_char_before(sa[0], sb[0]));
            }
            if va[i] == '/' {
                return true;
            }
            if vb[i] == '/' {
                return false;
            }
            return va[i] < vb[i];
        }
        assert(va@.take(i + 1) =~= va@.take(i as int).push(va@[i as int]));
        assert(vb@.take(i + 1) =~= vb@.take(i as int).push(vb@[i as int]));
        i = i + 1;
    }
    proof {
        lemma_path_skip(va@, vb@, i as int);
    }
    i == va.len()
}

/// The file a reference `(walk, file)` names.
pub open spec fn file_at(globs: Seq<InputGlob>, r: (usize, usize)) -> InputFile {
    globs[r.0 as int].walk->Ok_0@[r.1 as int]
}

/// The files a list of references names.
pub open spec fn files_at(globs: Seq<InputGlob>, rs: Seq<(usize, usize)>) -> Seq<InputFile> {
    rs.map_values(|r: (usize, usize)| file_at(globs, r))
}

/// A reference names a file of a successful walk.
pub open spec fn valid_ref(globs: Seq<InputGlob>, r: (usize, usize)) -> bool {
    &&& (r.0 as int) < globs.len()
    &&& globs[r.0 as int].walk is Ok
    &&& (r.1 as int) < globs[r.0 as int].walk->Ok_0@.len()
}

/// The digest of the files a task's output patterns keep, with the files
/// `globs` found on disk.
pub fn hash_output_files(task: &Task, globs: &Vec<InputGlob>) -> (r: Result<String, HashError>)
    ensures
        matches_result(r, output_digest(task@, globs@)),
        r matches Ok(h) ==> is_hex_hash(h@),
{
    let id = task.id();
    let task_text = id.to_string();
    let ghost t = task@;
    let ghost key = (t.project_name, t.task_name);
    // The kept files of each output pattern, in order, by reference.
    let mut refs: Vec<(usize, usize)> = Vec::new();
    proof {
        assert(files_at(globs@, refs@) =~= Seq::<InputFile>::empty());
    }
    for k in 0..task.outputs.len()
        invariant
            t == task@,
            key == task_key(*task),
            id@ == key,
            task_text@ == id_text(key),
            forall|q: int| 0 <= q < refs@.len() ==> valid_ref(globs@, #[trigger] refs@[q]),
            output_files(t, globs@, k as int) == Ok::<Seq<InputFile>, HashErrorView>(files_at(globs@, refs@)),
    {
        proof {
            assert(t.outputs[k as int] == task.outputs@[k as int]@);
        }
        match find_walk(globs, &id, &task.outputs[k]) {
            None => {
                proof {
                    assert(kept_files(Seq::<InputFile>::empty(), t.ignore) =~= Seq::<InputFile>::empty());
                    assert(files_at(globs@, refs@) + Seq::<InputFile>::empty() =~= files_at(globs@, refs@));
                }
            },
            Some(w) => {
                match &globs[w].walk {
                    Err(m) => {
                        let e = HashError::OutputWalk {
                            output: task.outputs[k].clone(),
                            task: task_text.clone(),
                            message: m.clone(),
                        };
                        proof {
                            lemma_output_files_err_stable(t, globs@, k + 1, t.outputs.len() as int);
                        }
                        return Err(e);
                    },
                    Ok(files) => {
                        let ghost before = files_at(globs@, refs@);
                        let ghost pats = t.ignore;
                        let ghost pred = |f: InputFile| !ignored(f.path@, pats);
                        for f in 0..files.len()
                            invariant
                                pats == t.ignore,
                                t == task@,
                                pred == (|f: InputFile| !ignored(f.path@, pats)),
                                w < globs@.len(),
                                globs@[w as int].walk == Ok::<Vec<InputFile>, String>(*files),
                                forall|q: int| 0 <= q < refs@.len() ==> valid_ref(globs@, #[trigger] refs@[q]),
                                files_at(globs@, refs@) == before + files@.take(f as int).filter(pred),
                        {
                            let ign = is_ignored(files[f].path.as_str(), &task.ignore);
                            let ghost prev = refs@;
                            proof {
                                reveal(Seq::filter);
                                assert(files@.take(f + 1).drop_last() =~= files@.take(f as int));
                                assert(files@.take(f + 1).last() == files@[f as int]);
                                assert(pred(files@[f as int]) == !ign);
                            }
                            if !ign {
                                refs.push((w, f));
                                proof {
                                    assert(file_at(globs@, (w, f)) == files@[f as int]);
                                    assert(files_at(globs@, refs@) =~= files_at(globs@, prev).push(files@[f as int]));
                                }
                            }
                        }
                        proof {
                            assert(files@.take(files@.len() as int) =~= files@);
                        }
                    },
                }
            },
        }
    }
    proof {
        assert(t.outputs.len() == task.outputs@.len());
    }
    // Sorted by path, equal paths in their first order.
    let mut sorted: Vec<(usize, usize)> = Vec::new();
    let ghost all = files_at(globs@, refs@);
    for i in 0..refs.len()
        invariant
            forall|q: int| 0 <= q < refs@.len() ==> valid_ref(globs@, #[trigger] refs@[q]),
            forall|q: int| 0 <= q < sorted@.len() ==> valid_ref(globs@, #[trigger] sorted@[q]),
            all == files_at(globs@, refs@),
            t == task@,
            key == task_key(*task),
            task_text@ == id_text(key),
            output_files(t, globs@, t.outputs.len() as int) == Ok::<Seq<InputFile>, HashErrorView>(all),
            files_at(globs@, sorted@) == sort_by_path(all.take(i as int)),
    {
        let x = refs[i];
        let xp = &globs[x.0].walk;
        let mut p: usize = 0;
        let ghost s = files_at(globs@, sorted@);
        let ghost xf = file_at(globs@, x);
        proof {
            assert(valid_ref(globs@, x));
        }
        let xpath: &String = match xp {
            Ok(v) => &v[x.1].path,
            Err(_) => {
                proof {
                    assert(false);
                }
                &task_text
            },
        };
        let mut done = false;
        proof {
            assert(s.skip(0) =~= s);
        }
        while !done && p < sorted.len()
            invariant
                p <= sorted@.len(),
                s == files_at(globs@, sorted@),
                forall|q: int| 0 <= q < sorted@.len() ==> valid_ref(globs@, #[trigger] sorted@[q]),
                xpath@ == xf.path@,
                insert_at(s, xf) == p + insert_at(s.skip(p as int), xf),
                done ==> p < sorted@.len() && !path_le(s[p as int].path@, xf.path@),
            decreases sorted@.len() - p, if done { 0int } else { 1int },
        {
            let y = sorted[p];
            proof {
                assert(valid_ref(globs@, y));
            }
            let ypath: &String = match &globs[y.0].walk {
                Ok(v) => &v[y.1].path,
                Err(_) => {
                    proof {
                        assert(false);
                    }
                    &task_text
                },
            };
            proof {
                assert(s.skip(p as int)[0] == file_at(globs@, y));
                assert(s.skip(p as int).drop_first() =~= s.skip(p + 1));
            }
            if !path_text_le(ypath.as_str(), xpath.as_str()) {
                done = true;
            } else {
                p = p + 1;
            }
        }
        proof {
            if !done {
                assert(s.skip(p as int) =~= Seq::<InputFile>::empty());
            } else {
                assert(s.skip(p as int)[0] == s[p as int]);
            }
            assert(insert_at(s, xf) == p);
        }
        sorted.insert(p, x);
        proof {
            assert(files_at(globs@, sorted@) =~= s.insert(p as int, xf));
            assert(all.take(i + 1).drop_last() =~= all.take(i as int));
            assert(all.take(i + 1).last() == xf);
        }
    }
    proof {
        assert(all.take(refs@.len() as int) =~= all);
    }
    // The fields: the number of files, then each path and contents.
    let ghost fs = files_at(globs@, sorted@);
    let mut out: Vec<u8> = Vec::new();
    push_kv(&mut out, "file_count".as_bytes(), push_count_bytes(sorted.len() as u64).as_slice());
    let ghost head = out@;
    proof {
        assert(head =~= kv(encode_utf8("file_count"@), le_bytes(fs.len(), 8)));
    }
    for a in 0..sorted.len()
        invariant
            fs == files_at(globs@, sorted@),
            fs == sort_by_path(all),
            t == task@,
            output_files(t, globs@, t.outputs.len() as int) == Ok::<Seq<InputFile>, HashErrorView>(all),
            head == kv(encode_utf8("file_count"@), le_bytes(fs.len(), 8)),
            forall|q: int| 0 <= q < sorted@.len() ==> valid_ref(globs@, #[trigger] sorted@[q]),
            key == (t.project_name, t.task_name),
            task_text@ == id_text(key),
            file_fields(fs, task_text@, a as int) matches Ok(b) && out@ == head + b,
    {
        let x = sorted[a];
        proof {
            assert(valid_ref(globs@, x));
            assert(fs[a as int] == file_at(globs@, x));
        }
        match &globs[x.0].walk {
            Err(_) => {
                proof {
                    assert(false);
                }
            },
            Ok(v) => {
                let f = &v[x.1];
                match &f.content {
                    Err(m) => {
                        let e = HashError::UnreadableInput {
                            path: f.path.clone(),
                            task: task_text.clone(),
                            message: m.clone(),
                        };
                        proof {
                            assert(file_fields(fs, task_text@, a + 1) == Err::<Seq<u8>, HashErrorView>(e@));
                            lemma_file_fields_err_stable(fs, task_text@, a + 1, fs.len() as int);
                        }
                        return Err(e);
                    },
                    Ok(c) => {
                        push_text_kv(&mut out, "path", f.path.as_str());
                        push_kv(&mut out, "content".as_bytes(), c.as_slice());
                        proof {
                            let b = file_fields(fs, task_text@, a as int)->Ok_0;
                            assert(out@ =~= head + (b + text_kv("path"@, f.path@) + kv(encode_utf8("content"@), c@)));
                        }
                    },
                }
            },
        }
    }
    Ok(blake3_hex(out.as_slice()))
}

/// The files before `insert_at(s, x)` come at or before `x`; the one there,
/// if any, does not.
proof fn lemma_insert_at(s: Seq<InputFile>, x: InputFile)
    ensures
        0 <= insert_at(s, x) <= s.len(),
        forall|q: int| 0 <= q < insert_at(s, x) ==> path_le((#[trigger] s[q]).path@, x.path@),
        insert_at(s, x) < s.len() ==> !path_le(s[insert_at(s, x)].path@, x.path@),
    decreases s.len(),
{
    if s.len() > 0 && path_le(s[0].path@, x.path@) {
        lemma_insert_at(s.drop_first(), x);
        assert forall|q: int| 0 <= q < insert_at(s, x) implies path_le((#[trigger] s[q]).path@, x.path@) by {
            if q > 0 {
                assert(s[q] == s.drop_first()[q - 1]);
            }
        }
        if insert_at(s, x) < s.len() {
            assert(s[insert_at(s, x)] == s.drop_first()[insert_at(s.drop_first(), x)]);
        }
    }
}

/// Files sorted by path, each path at or before the next.
pub open spec fn sorted_by_path(s: Seq<InputFile>) -> bool {
    forall|i: int, j: int| 0 <= i < j < s.len() ==> path_le((#[trigger] s[i]).path@, (#[trigger] s[j]).path@)
}

/// `sort_by_path` sorts, keeping the same files.
proof fn lemma_sort_by_path(s: Seq<InputFile>)
    ensures
        sorted_by_path(sort_by_path(s)),
        sort_by_path(s).to_multiset() == s.to_multiset(),
    decreases s.len(),
{
    broadcast use vstd::seq_lib::lemma_multiset_commutative;

    if s.len() > 0 {
        let r = sort_by_path(s.drop_last());
        let x = s.last();
        lemma_sort_by_path(s.drop_last());
        lemma_insert_at(r, x);
        let p = insert_at(r, x);
        r.insert_ensures(p, x);
        let t = r.insert(p, x);
        // x comes at or before every file from `p` on.
        assert forall|q: int| p <= q < r.len() implies path_le(x.path@, (#[trigger] r[q]).path@) by {
            lemma_path_le_total(r[p].path@, x.path@);
            if q > p {
                lemma_path_le_transitive(x.path@, r[p].path@, r[q].path@);
            }
        }
        assert forall|i: int, j: int| 0 <= i < j < t.len() implies path_le((#[trigger] t[i]).path@, (#[trigger] t[j]).path@) by {
            if i < p && j == p {
            } else if i < p && j > p {
                lemma_path_le_transitive(r[i].path@, x.path@, r[j - 1].path@);
            } else if i == p {
            } else if i > p {
                assert(t[i] == r[i - 1] && t[j] == r[j - 1]);
            } else {
                assert(t[i] == r[i] && t[j] == r[j]);
            }
        }
        // The same files.
        assert(r =~= r.subrange(0, p) + r.subrange(p, r.len() as int));
        assert(t =~= r.subrange(0, p).push(x) + r.subrange(p, r.len() as int));
        r.subrange(0, p).to_multiset_ensures();
        s.drop_last().to_multiset_ensures();
        assert(s.drop_last().push(x) =~= s);
    }
}

/// Two lists of files, each strictly sorted by path, that hold the same
/// files are equal.
proof fn lemma_sorted_inputs_equal(a: Seq<InputFile>, b: Seq<InputFile>)
    requires
        forall|i: int, j: int| 0 <= i < j < a.len() ==> path_lt((#[trigger] a[i]).path@, (#[trigger] a[j]).path@),
        forall|i: int, j: int| 0 <= i < j < b.len() ==> path_lt((#[trigger] b[i]).path@, (#[trigger] b[j]).path@),
        forall|x: InputFile| a.contains(x) <==> b.contains(x),
    ensures
        a == b,
    decreases a.len(),
{
    if a.len() == 0 {
        if b.len() > 0 {
            assert(b.contains(b[0]));
        }
        assert(a =~= b);
    } else {
        assert(a.contains(a[0]));
        let j = choose|j: int| 0 <= j < b.len() && b[j] == a[0];
        assert(b.contains(b[0]));
        let i = choose|i: int| 0 <= i < a.len() && a[i] == b[0];
        if j > 0 {
            assert(path_lt(b[0].path@, b[j].path@));
            if i > 0 {
                assert(path_lt(a[0].path@, a[i].path@));
                lemma_path_le_antisymmetric(a[0].path@, b[0].path@);
            }
        }
        assert(a[0] == b[0]);
        let a1 = a.drop_first();
        let b1 = b.drop_first();
        assert forall|x: InputFile| a1.contains(x) <==> b1.contains(x) by {
            if a1.contains(x) {
                let k = choose|k: int| 0 <= k < a1.len() && a1[k] == x;
                assert(a[k + 1] == x);
                assert(path_lt(a[0].path@, a[k + 1].path@));
                assert(b.contains(x));
                let m = choose|m: int| 0 <= m < b.len() && b[m] == x;
                assert(m != 0);
                assert(b1[m - 1] == x);
            }
            if b1.contains(x) {
                let k = choose|k: int| 0 <= k < b1.len() && b1[k] == x;
                assert(b[k + 1] == x);
                assert(path_lt(b[0].path@, b[k + 1].path@));
                assert(a.contains(x));
                let m = choose|m: int| 0 <= m < a.len() && a[m] == x;
                assert(m != 0);
                assert(a1[m - 1] == x);
            }
        }
        assert forall|i: int, j: int| 0 <= i < j < a1.len() implies path_lt((#[trigger] a1[i]).path@, (#[trigger] a1[j]).path@) by {
            assert(a1[i] == a[i + 1] && a1[j] == a[j + 1]);
        }
        assert forall|i: int, j: int| 0 <= i < j < b1.len() implies path_lt((#[trigger] b1[i]).path@, (#[trigger] b1[j]).path@) by {
            assert(b1[i] == b[i + 1] && b1[j] == b[j + 1]);
        }
        lemma_sorted_inputs_equal(a1, b1);
        assert(a =~= seq![a[0]] + a1);
        assert(b =~= seq![b[0]] + b1);
    }
}

/// Two lists that hold the same files, each path once, sort to the same list.
proof fn lemma_sort_by_path_same_files(a: Seq<InputFile>, b: Seq<InputFile>)
    requires
        a.to_multiset() == b.to_multiset(),
        forall|i: int, j: int| 0 <= i < j < a.len() ==> (#[trigger] a[i]).path@ != (#[trigger] a[j]).path@,
    ensures
        sort_by_path(a) == sort_by_path(b),
{
    lemma_sort_by_path(a);
    lemma_sort_by_path(b);
    let sa = sort_by_path(a);
    let sb = sort_by_path(b);
    a.to_multiset_ensures();
    sa.to_multiset_ensures();
    sb.to_multiset_ensures();
    // The paths of the sorted files are distinct, so the order is strict.
    assert forall|i: int, j: int| 0 <= i < j < sa.len() implies path_lt((#[trigger] sa[i]).path@, (#[trigger] sa[j]).path@) by {
        assert(sa.to_multiset().count(sa[i]) > 0);
        assert(a.contains(sa[i]));
        assert(sa.to_multiset().count(sa[j]) > 0);
        assert(a.contains(sa[j]));
        let ia = choose|k: int| 0 <= k < a.len() && a[k] == sa[i];
        let ja = choose|k: int| 0 <= k < a.len() && a[k] == sa[j];
        if sa[i].path@ == sa[j].path@ {
            if ia == ja {
                // The same file twice: it occurs once in `a`, so at most once in `sa`.
                lemma_count_at_most_once(a, ia);
                lemma_two_occurrences(sa, i, j);
            }
        }
    }
    assert forall|i: int, j: int| 0 <= i < j < sb.len() implies path_lt((#[trigger] sb[i]).path@, (#[trigger] sb[j]).path@) by {
        assert(sb.to_multiset().count(sb[i]) > 0);
        assert(a.to_multiset().count(sb[i]) > 0);
        assert(a.contains(sb[i]));
        assert(sb.to_multiset().count(sb[j]) > 0);
        assert(a.to_multiset().count(sb[j]) > 0);
        assert(a.contains(sb[j]));
        let ia = choose|k: int| 0 <= k < a.len() && a[k] == sb[i];
        let ja = choose|k: int| 0 <= k < a.len() && a[k] == sb[j];
        if sb[i].path@ == sb[j].path@ {
            if ia == ja {
                lemma_count_at_most_once(a, ia);
                lemma_two_occurrences(sb, i, j);
            }
        }
    }
    assert forall|x: InputFile| sa.contains(x) <==> sb.contains(x) by {
        assert(sa.to_multiset().count(x) == sb.to_multiset().count(x));
    }
    lemma_sorted_inputs_equal(sa, sb);
}

/// Law: the digest of a task's outputs does not depend on the order in which
/// the walks list the files: two walks that keep the same files, each path
/// once, give the same digest.
pub proof fn law_output_digest_ignores_walk_order(t: TaskView, g1: Seq<InputGlob>, g2: Seq<InputGlob>)
    requires
        output_files(t, g1, t.outputs.len() as int) is Ok,
        output_files(t, g2, t.outputs.len() as int) is Ok,
        output_files(t, g1, t.outputs.len() as int)->Ok_0.to_multiset() == output_files(
            t,
            g2,
            t.outputs.len() as int,
        )->Ok_0.to_multiset(),
        forall|i: int, j: int|
            0 <= i < j < output_files(t, g1, t.outputs.len() as int)->Ok_0.len() ==> (#[trigger] output_files(
                t,
                g1,
                t.outputs.len() as int,
            )->Ok_0[i]).path@ != (#[trigger] output_files(t, g1, t.outputs.len() as int)->Ok_0[j]).path@,
    ensures
        output_digest(t, g1) == output_digest(t, g2),
{
    lemma_sort_by_path_same_files(
        output_files(t, g1, t.outputs.len() as int)->Ok_0,
        output_files(t, g2, t.outputs.len() as int)->Ok_0,
    );
}

/// Law: what an input pattern adds to a task's hash does not depend on the
/// order in which its walk lists the files: two walks that keep the same
/// files, each path once, give the same fields.
pub proof fn law_input_fields_ignore_walk_order(t: TaskView, g1: Seq<InputGlob>, g2: Seq<InputGlob>, input: Seq<char>)
    requires
        walk_of(g1, (t.project_name, t.task_name), input) is Ok,
        walk_of(g2, (t.project_name, t.task_name), input) is Ok,
        kept_files(walk_of(g1, (t.project_name, t.task_name), input)->Ok_0, t.ignore).to_multiset() == kept_files(
            walk_of(g2, (t.project_name, t.task_name), input)->Ok_0,
            t.ignore,
        ).to_multiset(),
        forall|i: int, j: int|
            0 <= i < j < kept_files(walk_of(g1, (t.project_name, t.task_name), input)->Ok_0, t.ignore).len() ==> (
            #[trigger] kept_files(walk_of(g1, (t.project_name, t.task_name), input)->Ok_0, t.ignore)[i]).path@ != (
            #[trigger] kept_files(walk_of(g1, (t.project_name, t.task_name), input)->Ok_0, t.ignore)[j]).path@,
    ensures
        input_fields(t, g1, input) == input_fields(t, g2, input),
{
    let key = (t.project_name, t.task_name);
    lemma_sort_by_path_same_files(
        kept_files(walk_of(g1, key, input)->Ok_0, t.ignore),
        kept_files(walk_of(g2, key, input)->Ok_0, t.ignore),
    );
}

/// A file whose path occurs once in `a` occurs once in it.
proof fn lemma_count_at_most_once(a: Seq<InputFile>, k: int)
    requires
        0 <= k < a.len(),
        forall|i: int, j: int| 0 <= i < j < a.len() ==> (#[trigger] a[i]).path@ != (#[trigger] a[j]).path@,
    ensures
        a.to_multiset().count(a[k]) == 1,
    decreases a.len(),
{
    let x = a[k];
    a.drop_last().to_multiset_ensures();
    assert(a.drop_last().push(a.last()) =~= a);
    if k == a.len() - 1 {
        assert forall|i: int| 0 <= i < a.drop_last().len() implies a.drop_last()[i] != x by {
            assert(a[i].path@ != a[k].path@);
        }
        assert(!a.drop_last().contains(x));
    } else {
        lemma_count_at_most_once(a.drop_last(), k);
        assert(a.last().path@ != x.path@);
    }
}

/// A file at two positions of a list occurs twice in it.
proof fn lemma_two_occurrences(s: Seq<InputFile>, i: int, j: int)
    requires
        0 <= i < j < s.len(),
        s[i] == s[j],
    ensures
        s.to_multiset().count(s[i]) >= 2,
    decreases s.len(),
{
    s.drop_last().to_multiset_ensures();
    assert(s.drop_last().push(s.last()) =~= s);
    if j == s.len() - 1 {
        assert(s.drop_last().contains(s[i]));
    } else {
        lemma_two_occurrences(s.drop_last(), i, j);
    }
}

proof fn lemma_output_files_err_stable(t: TaskView, globs: Seq<InputGlob>, k: int, m: int)
    requires
        0 <= k <= m,
        output_files(t, globs, k) is Err,
    ensures
        output_files(t, globs, m) == output_files(t, globs, k),
    decreases m - k,
{
    if k < m {
        lemma_output_files_err_stable(t, globs, k, m - 1);
    }
}

// ---------------------------------------------------------------------------
// Laws.

/// Law: a task's hash depends on what the tasks are, not on how they are
/// stored: two task maps whose tasks agree one by one (the environment taken
/// as a map, whatever order its variables were set in) give every task the
/// same hash.
pub proof fn law_hash_depends_only_on_task_views(
    ts1: Seq<Task>,
    ts2: Seq<Task>,
    globs: Seq<InputGlob>,
    key: (Seq<char>, Seq<char>),
)
    requires
        ts1.len() == ts2.len(),
        forall|i: int| 0 <= i < ts1.len() ==> (#[trigger] ts1[i])@ == ts2[i]@,
    ensures
        hash_of(ts1, globs, key) == hash_of(ts2, globs, key),
{
    assert(task_views(ts1) =~= task_views(ts2));
    assert(Seq::new(ts1.len(), |i: int| false) =~= Seq::new(ts2.len(), |i: int| false));
}

proof fn lemma_first_bad_dep_some(ts: Seq<TaskView>, t: TaskView, j: int, k: int)
    requires
        0 <= j < k <= t.depends_on.len(),
        match parse_id(t.depends_on[j]) {
            None => true,
            Some(id) => !has_id(ts, id),
        },
    ensures
        first_bad_dep(ts, t, k) is Some,
    decreases k,
{
    if j < k - 1 {
        lemma_first_bad_dep_some(ts, t, j, k - 1);
    }
}

/// Law: a task with a dependency that is not `project:task`, or that names
/// no task, has no hash.
pub proof fn law_bad_dependency_has_no_hash(
    ts: Seq<Task>,
    globs: Seq<InputGlob>,
    key: (Seq<char>, Seq<char>),
    i: int,
    j: int,
)
    requires
        0 <= i < ts.len(),
        task_key(ts[i]) == key,
        forall|a: int, b: int| 0 <= a < b < ts.len() ==> task_key(ts[a]) != task_key(ts[b]),
        0 <= j < ts[i].depends_on@.len(),
        match parse_id(ts[i].depends_on@[j]@) {
            None => true,
            Some(id) => !crate::tasks::has_key(ts, id),
        },
    ensures
        hash_of(ts, globs, key) is Err,
{
    let vs = task_views(ts);
    lemma_views_index(ts, key);
    let d = ts[i].depends_on@[j]@;
    assert(vs[i].depends_on[j] == d);
    match parse_id(d) {
        None => {},
        Some(id) => {
            lemma_views_index(ts, id);
        },
    }
    lemma_first_bad_dep_some(vs, vs[i], j, vs[i].depends_on.len() as int);
}

proof fn lemma_dedup_contains(s: Seq<Seq<char>>, j: int, k: int)
    requires
        0 <= j < k <= s.len(),
    ensures
        dedup(s, k).contains(s[j]),
    decreases k,
{
    if j < k - 1 {
        lemma_dedup_contains(s, j, k - 1);
        let d = dedup(s, k - 1);
        let x = choose|x: int| 0 <= x < d.len() && d[x] == s[j];
        if !d.contains(s[k - 1]) {
            assert(d.push(s[k - 1])[x] == s[j]);
        }
    } else {
        let d = dedup(s, k - 1);
        if !d.contains(s[k - 1]) {
            assert(d.push(s[k - 1])[d.len() as int] == s[j]);
        }
    }
}

proof fn lemma_deps_fields_cycle(
    ts: Seq<TaskView>,
    globs: Seq<InputGlob>,
    deps: Seq<Seq<char>>,
    k: int,
    vis: Seq<bool>,
    j: int,
    key: (Seq<char>, Seq<char>),
)
    requires
        vis.len() == ts.len(),
        count_true(vis) <= ts.len(),
        0 <= j < k <= deps.len(),
        parse_id(deps[j]) == Some(key),
        has_id(ts, key),
        vis[index_of_id(ts, key)],
    ensures
        deps_fields(ts, globs, deps, k, vis) is Err,
    decreases k,
{
    if j < k - 1 {
        lemma_deps_fields_cycle(ts, globs, deps, k - 1, vis, j, key);
    } else {
        assert(task_digest(ts, globs, key, vis) == Err::<Seq<char>, HashErrorView>(
            HashErrorView::CircularDependency { task: id_text(key) },
        ));
    }
}

/// Law: a task that lists itself among its dependencies has no hash.
pub proof fn law_self_dependency_has_no_hash(
    ts: Seq<Task>,
    globs: Seq<InputGlob>,
    key: (Seq<char>, Seq<char>),
    i: int,
    j: int,
)
    requires
        0 <= i < ts.len(),
        task_key(ts[i]) == key,
        forall|a: int, b: int| 0 <= a < b < ts.len() ==> task_key(ts[a]) != task_key(ts[b]),
        0 <= j < ts[i].depends_on@.len(),
        parse_id(ts[i].depends_on@[j]@) == Some(key),
    ensures
        hash_of(ts, globs, key) is Err,
{
    let vs = task_views(ts);
    let vis0 = Seq::new(ts.len(), |x: int| false);
    lemma_views_index(ts, key);
    assert(index_of_id(vs, key) == i);
    let t = vs[i];
    let d = ts[i].depends_on@[j]@;
    assert(t.depends_on[j] == d);
    if first_bad_dep(vs, t, t.depends_on.len() as int) is None {
        let deps = hashed_deps(t);
        let dd = dedup(t.depends_on, t.depends_on.len() as int);
        lemma_dedup_contains(t.depends_on, j, t.depends_on.len() as int);
        lemma_text_le_total();
        dd.lemma_sort_by_ensures(text_le());
        dd.to_multiset_ensures();
        deps.to_multiset_ensures();
        assert(dd.to_multiset().count(d) > 0);
        assert(deps.contains(d));
        let x = choose|x: int| 0 <= x < deps.len() && deps[x] == d;
        let vis = vis0.update(i, true);
        lemma_count_true_all_false(vis0);
        lemma_count_true_set(vis0, i);
        lemma_count_true_le(vis);
        lemma_deps_fields_cycle(vs, globs, deps, deps.len() as int, vis, x, key);
    }
}

/// If one dependency has no hash, neither have the dependencies fields.
proof fn lemma_deps_fields_dep_err(
    ts: Seq<TaskView>,
    globs: Seq<InputGlob>,
    deps: Seq<Seq<char>>,
    k: int,
    vis: Seq<bool>,
    j: int,
    key: (Seq<char>, Seq<char>),
)
    requires
        vis.len() == ts.len(),
        count_true(vis) <= ts.len(),
        0 <= j < k <= deps.len(),
        parse_id(deps[j]) == Some(key),
        task_digest(ts, globs, key, vis) is Err,
    ensures
        deps_fields(ts, globs, deps, k, vis) is Err,
    decreases k,
{
    if j < k - 1 {
        lemma_deps_fields_dep_err(ts, globs, deps, k - 1, vis, j, key);
    }
}

/// A task one of whose dependencies has no hash (with the task itself
/// being visited) has no hash either.
proof fn lemma_digest_err_from_dep(
    ts: Seq<Task>,
    globs: Seq<InputGlob>,
    x: int,
    d: int,
    y: (Seq<char>, Seq<char>),
    vis: Seq<bool>,
)
    requires
        forall|a: int, b: int| 0 <= a < b < ts.len() ==> task_key(ts[a]) != task_key(ts[b]),
        0 <= x < ts.len(),
        vis.len() == ts.len(),
        !vis[x],
        0 <= d < ts[x].depends_on@.len(),
        parse_id(ts[x].depends_on@[d]@) == Some(y),
        task_digest(task_views(ts), globs, y, vis.update(x, true)) is Err,
    ensures
        task_digest(task_views(ts), globs, task_key(ts[x]), vis) is Err,
{
    let vs = task_views(ts);
    let key = task_key(ts[x]);
    lemma_views_index(ts, key);
    assert(index_of_id(vs, key) == x);
    let t = vs[x];
    let dtext = ts[x].depends_on@[d]@;
    assert(t.depends_on[d] == dtext);
    lemma_count_true_set(vis, x);
    lemma_count_true_le(vis.update(x, true));
    if first_bad_dep(vs, t, t.depends_on.len() as int) is None {
        let deps = hashed_deps(t);
        let dd = dedup(t.depends_on, t.depends_on.len() as int);
        lemma_dedup_contains(t.depends_on, d, t.depends_on.len() as int);
        lemma_text_le_total();
        dd.lemma_sort_by_ensures(text_le());
        dd.to_multiset_ensures();
        deps.to_multiset_ensures();
        assert(dd.to_multiset().count(dtext) > 0);
        assert(deps.contains(dtext));
        let q = choose|q: int| 0 <= q < deps.len() && deps[q] == dtext;
        lemma_deps_fields_dep_err(vs, globs, deps, deps.len() as int, vis.update(x, true), q, y);
    }
}

/// The tasks `c[0..k]` are marked as being visited, and no other.
pub open spec fn marked(n: nat, c: Seq<int>, k: int) -> Seq<bool> {
    Seq::new(n, |i: int| exists|m: int| 0 <= m < k && c[m] == i)
}

proof fn lemma_cycle_err(ts: Seq<Task>, globs: Seq<InputGlob>, c: Seq<int>, deps: Seq<int>, k: int)
    requires
        forall|a: int, b: int| 0 <= a < b < ts.len() ==> task_key(ts[a]) != task_key(ts[b]),
        c.len() >= 1,
        forall|m: int| 0 <= m < c.len() ==> 0 <= #[trigger] c[m] < ts.len(),
        forall|m1: int, m2: int| 0 <= m1 < m2 < c.len() ==> c[m1] != c[m2],
        deps.len() == c.len(),
        forall|m: int|
            0 <= m < c.len() ==> 0 <= #[trigger] deps[m] < ts[c[m]].depends_on@.len() && parse_id(
                ts[c[m]].depends_on@[deps[m]]@,
            ) == Some(task_key(ts[c[(m + 1) % (c.len() as int)]])),
        0 <= k <= c.len(),
    ensures
        task_digest(task_views(ts), globs, task_key(ts[c[k % (c.len() as int)]]), marked(ts.len(), c, k)) is Err,
    decreases c.len() - k,
{
    let n = c.len() as int;
    let vs = task_views(ts);
    if k == n {
        let key = task_key(ts[c[0]]);
        lemma_views_index(ts, key);
        assert(k % n == 0) by (nonlinear_arith)
            requires
                k == n,
                n >= 1,
        ;
        assert(marked(ts.len(), c, k)[c[0]]);
    } else {
        lemma_cycle_err(ts, globs, c, deps, k + 1);
        let x = c[k];
        assert(k % n == k) by (nonlinear_arith)
            requires
                0 <= k < n,
        ;
        let vis = marked(ts.len(), c, k);
        assert(!vis[x]) by {
            if vis[x] {
                let m = choose|m: int| 0 <= m < k && c[m] == x;
                assert(c[m] != c[k]);
            }
        }
        assert(vis.update(x, true) =~= marked(ts.len(), c, k + 1));
        let y = task_key(ts[c[(k + 1) % n]]);
        lemma_digest_err_from_dep(ts, globs, x, deps[k], y, vis);
    }
}

/// Law: a task on a cycle of dependencies has no hash. The cycle is given
/// as the tasks `c[0], c[1], ...` in turn, each listing the next (the last
/// listing the first) as its dependency number `deps[m]`.
pub proof fn law_cycle_has_no_hash(ts: Seq<Task>, globs: Seq<InputGlob>, c: Seq<int>, deps: Seq<int>)
    requires
        forall|a: int, b: int| 0 <= a < b < ts.len() ==> task_key(ts[a]) != task_key(ts[b]),
        c.len() >= 1,
        forall|m: int| 0 <= m < c.len() ==> 0 <= #[trigger] c[m] < ts.len(),
        forall|m1: int, m2: int| 0 <= m1 < m2 < c.len() ==> c[m1] != c[m2],
        deps.len() == c.len(),
        forall|m: int|
            0 <= m < c.len() ==> 0 <= #[trigger] deps[m] < ts[c[m]].depends_on@.len() && parse_id(
                ts[c[m]].depends_on@[deps[m]]@,
            ) == Some(task_key(ts[c[(m + 1) % (c.len() as int)]])),
    ensures
        hash_of(ts, globs, task_key(ts[c[0]])) is Err,
{
    lemma_cycle_err(ts, globs, c, deps, 0);
    assert(marked(ts.len(), c, 0) =~= Seq::new(ts.len(), |i: int| false));
    assert(0int % (c.len() as int) == 0);
}

// ---------------------------------------------------------------------------
// The hash does not depend on the order of the task map.

/// No two tasks of `ts` share an id.
pub open spec fn keys_distinct(ts: Seq<TaskView>) -> bool {
    forall|i: int, j: int| 0 <= i < j < ts.len() ==> key_at(ts, i) != key_at(ts, j)
}

/// `t1` and `t2` hold the same tasks under the same ids, each once, and a
/// task is being visited in one exactly when it is in the other.
pub open spec fn same_tasks(t1: Seq<TaskView>, t2: Seq<TaskView>, v1: Seq<bool>, v2: Seq<bool>) -> bool {
    &&& t1.len() == t2.len()
    &&& v1.len() == t1.len()
    &&& v2.len() == t2.len()
    &&& keys_distinct(t1)
    &&& keys_distinct(t2)
    &&& forall|k: (Seq<char>, Seq<char>)| has_id(t1, k) <==> has_id(t2, k)
    &&& forall|k: (Seq<char>, Seq<char>)|
        #[trigger] has_id(t1, k) ==> t1[index_of_id(t1, k)] == t2[index_of_id(t2, k)] && v1[index_of_id(t1, k)]
            == v2[index_of_id(t2, k)]
}

proof fn lemma_index_of(ts: Seq<TaskView>, k: (Seq<char>, Seq<char>))
    requires
        has_id(ts, k),
    ensures
        0 <= index_of_id(ts, k) < ts.len(),
        key_at(ts, index_of_id(ts, k)) == k,
{
}

proof fn lemma_index_unique(ts: Seq<TaskView>, k: (Seq<char>, Seq<char>), j: int)
    requires
        keys_distinct(ts),
        0 <= j < ts.len(),
        key_at(ts, j) == k,
    ensures
        has_id(ts, k),
        index_of_id(ts, k) == j,
{
    assert(has_id(ts, k));
    let i = index_of_id(ts, k);
    if i < j {
        assert(key_at(ts, i) != key_at(ts, j));
    } else if j < i {
        assert(key_at(ts, j) != key_at(ts, i));
    }
}

proof fn lemma_first_bad_same(t1: Seq<TaskView>, t2: Seq<TaskView>, t: TaskView, k: int)
    requires
        forall|kk: (Seq<char>, Seq<char>)| has_id(t1, kk) <==> has_id(t2, kk),
    ensures
        first_bad_dep(t1, t, k) == first_bad_dep(t2, t, k),
    decreases k,
{
    if k > 0 {
        lemma_first_bad_same(t1, t2, t, k - 1);
    }
}

proof fn lemma_digest_same(
    t1: Seq<TaskView>,
    t2: Seq<TaskView>,
    globs: Seq<InputGlob>,
    key: (Seq<char>, Seq<char>),
    v1: Seq<bool>,
    v2: Seq<bool>,
)
    requires
        same_tasks(t1, t2, v1, v2),
    ensures
        task_digest(t1, globs, key, v1) == task_digest(t2, globs, key, v2),
    decreases t1.len() - count_true(v1), 0int,
{
    if has_id(t1, key) {
        assert(has_id(t2, key));
        lemma_index_of(t1, key);
        lemma_index_of(t2, key);
        let i1 = index_of_id(t1, key);
        let i2 = index_of_id(t2, key);
        if !v1[i1] {
            let t = t1[i1];
            lemma_first_bad_same(t1, t2, t, t.depends_on.len() as int);
            if first_bad_dep(t1, t, t.depends_on.len() as int) is None {
                let deps = hashed_deps(t);
                let w1 = v1.update(i1, true);
                let w2 = v2.update(i2, true);
                lemma_count_true_set(v1, i1);
                lemma_count_true_le(w1);
                lemma_count_true_set(v2, i2);
                lemma_count_true_le(w2);
                assert forall|k: (Seq<char>, Seq<char>)| #[trigger] has_id(t1, k) implies t1[index_of_id(t1, k)]
                    == t2[index_of_id(t2, k)] && w1[index_of_id(t1, k)] == w2[index_of_id(t2, k)] by {
                    assert(has_id(t2, k));
                    lemma_index_of(t1, k);
                    lemma_index_of(t2, k);
                    let j1 = index_of_id(t1, k);
                    let j2 = index_of_id(t2, k);
                    if k == key {
                        assert(j1 == i1);
                        assert(j2 == i2);
                    } else {
                        assert(j1 != i1);
                        assert(j2 != i2);
                    }
                }
                assert(same_tasks(t1, t2, w1, w2));
                lemma_deps_same(t1, t2, globs, deps, deps.len() as int, w1, w2);
            }
        }
    }
}

proof fn lemma_deps_same(
    t1: Seq<TaskView>,
    t2: Seq<TaskView>,
    globs: Seq<InputGlob>,
    deps: Seq<Seq<char>>,
    k: int,
    v1: Seq<bool>,
    v2: Seq<bool>,
)
    requires
        same_tasks(t1, t2, v1, v2),
        count_true(v1) <= t1.len(),
        count_true(v2) <= t2.len(),
    ensures
        deps_fields(t1, globs, deps, k, v1) == deps_fields(t2, globs, deps, k, v2),
    decreases t1.len() - count_true(v1), k + 1,
{
    if k > 0 {
        lemma_deps_same(t1, t2, globs, deps, k - 1, v1, v2);
        match parse_id(deps[k - 1]) {
            Some(id) => {
                lemma_digest_same(t1, t2, globs, id, v1, v2);
            },
            None => {},
        }
    }
}

/// Law: a task's hash does not depend on the order of the task map: two
/// task maps that hold the same tasks under the same ids (each id once, in
/// any order) give every id the same hash, or the same error.
pub proof fn law_hash_ignores_task_order(ts1: Seq<Task>, ts2: Seq<Task>, globs: Seq<InputGlob>, key: (Seq<char>, Seq<char>))
    requires
        tasks_wf(ts1),
        tasks_wf(ts2),
        tasks_map(ts1) == tasks_map(ts2),
    ensures
        hash_of(ts1, globs, key) == hash_of(ts2, globs, key),
{
    let t1 = task_views(ts1);
    let t2 = task_views(ts2);
    let v1 = Seq::new(ts1.len(), |i: int| false);
    let v2 = Seq::new(ts2.len(), |i: int| false);
    assert forall|i: int| 0 <= i < ts1.len() implies key_at(t1, i) == task_key(#[trigger] ts1[i]) by {}
    assert forall|i: int| 0 <= i < ts2.len() implies key_at(t2, i) == task_key(#[trigger] ts2[i]) by {}
    assert(keys_distinct(t1)) by {
        assert forall|i: int, j: int| 0 <= i < j < t1.len() implies key_at(t1, i) != key_at(t1, j) by {
            assert(task_key(ts1[i]) != task_key(ts1[j]));
        }
    }
    assert(keys_distinct(t2)) by {
        assert forall|i: int, j: int| 0 <= i < j < t2.len() implies key_at(t2, i) != key_at(t2, j) by {
            assert(task_key(ts2[i]) != task_key(ts2[j]));
        }
    }
    assert forall|k: (Seq<char>, Seq<char>)| has_id(t1, k) <==> has_key(ts1, k) by {
        if has_id(t1, k) {
            let i = choose|i: int| 0 <= i < t1.len() && (t1[i].project_name, t1[i].task_name) == k;
            assert(task_key(ts1[i]) == k);
        }
        if has_key(ts1, k) {
            let i = choose|i: int| 0 <= i < ts1.len() && task_key(ts1[i]) == k;
            assert(key_at(t1, i) == k);
        }
    }
    assert forall|k: (Seq<char>, Seq<char>)| has_id(t2, k) <==> has_key(ts2, k) by {
        if has_id(t2, k) {
            let i = choose|i: int| 0 <= i < t2.len() && (t2[i].project_name, t2[i].task_name) == k;
            assert(task_key(ts2[i]) == k);
        }
        if has_key(ts2, k) {
            let i = choose|i: int| 0 <= i < ts2.len() && task_key(ts2[i]) == k;
            assert(key_at(t2, i) == k);
        }
    }
    assert forall|k: (Seq<char>, Seq<char>)| has_id(t1, k) <==> has_id(t2, k) by {
        assert(tasks_map(ts1).dom().contains(k) == has_key(ts1, k));
        assert(tasks_map(ts2).dom().contains(k) == has_key(ts2, k));
    }
    assert forall|k: (Seq<char>, Seq<char>)| #[trigger] has_id(t1, k) implies t1[index_of_id(t1, k)] == t2[index_of_id(t2, k)]
        && v1[index_of_id(t1, k)] == v2[index_of_id(t2, k)] by {
        assert(has_id(t2, k));
        lemma_index_of(t1, k);
        lemma_index_of(t2, k);
        let j1 = index_of_id(t1, k);
        let j2 = index_of_id(t2, k);
        let c1 = choose|i: int| 0 <= i < ts1.len() && task_key(ts1[i]) == k;
        let c2 = choose|i: int| 0 <= i < ts2.len() && task_key(ts2[i]) == k;
        assert(task_key(ts1[j1]) == k);
        assert(task_key(ts2[j2]) == k);
        lemma_index_unique(t1, k, c1);
        lemma_index_unique(t2, k, c2);
        assert(tasks_map(ts1)[k] == ts1[c1]@);
        assert(tasks_map(ts2)[k] == ts2[c2]@);
    }
    // Both lists hold each id once, and the same ids: they are as long.
    let s1 = task_keys(ts1);
    let s2 = task_keys(ts2);
    assert(s1.no_duplicates()) by {
        assert forall|i: int, j: int| 0 <= i < s1.len() && 0 <= j < s1.len() && i != j implies s1[i] != s1[j] by {
            if i < j {
                assert(task_key(ts1[i]) != task_key(ts1[j]));
            } else {
                assert(task_key(ts1[j]) != task_key(ts1[i]));
            }
        }
    }
    assert(s2.no_duplicates()) by {
        assert forall|i: int, j: int| 0 <= i < s2.len() && 0 <= j < s2.len() && i != j implies s2[i] != s2[j] by {
            if i < j {
                assert(task_key(ts2[i]) != task_key(ts2[j]));
            } else {
                assert(task_key(ts2[j]) != task_key(ts2[i]));
            }
        }
    }
    assert(s1.to_set() =~= s2.to_set()) by {
        assert forall|k: (Seq<char>, Seq<char>)| s1.to_set().contains(k) <==> s2.to_set().contains(k) by {
            if s1.to_set().contains(k) {
                let i = choose|i: int| 0 <= i < s1.len() && s1[i] == k;
                assert(key_at(t1, i) == k);
                assert(has_id(t2, k));
                lemma_index_of(t2, k);
                let j = index_of_id(t2, k);
                assert(s2[j] == k);
            }
            if s2.to_set().contains(k) {
                let i = choose|i: int| 0 <= i < s2.len() && s2[i] == k;
                assert(key_at(t2, i) == k);
                assert(has_id(t1, k));
                lemma_index_of(t1, k);
                let j = index_of_id(t1, k);
                assert(s1[j] == k);
            }
        }
    }
    s1.unique_seq_to_set();
    s2.unique_seq_to_set();
    assert(same_tasks(t1, t2, v1, v2));
    lemma_digest_same(t1, t2, globs, key, v1, v2);
}

// ---------------------------------------------------------------------------
// The framing of the stream is unambiguous.

/// `256` to the power `k`: the numbers `k` bytes hold.
pub open spec fn byte_cap(k: nat) -> nat
    decreases k,
{
    if k == 0 {
        1
    } else {
        256 * byte_cap((k - 1) as nat)
    }
}

/// The stream of a sequence of fields, each framed as `kv` frames it.
pub open spec fn fields_stream(fs: Seq<(Seq<u8>, Seq<u8>)>) -> Seq<u8>
    decreases fs.len(),
{
    if fs.len() == 0 {
        Seq::empty()
    } else {
        kv(fs[0].0, fs[0].1) + fields_stream(fs.drop_first())
    }
}

/// Every key and value of `fs` is shorter than `2^64` bytes, so that its
/// length fits the eight bytes that frame it.
pub open spec fn fields_fit(fs: Seq<(Seq<u8>, Seq<u8>)>) -> bool {
    forall|i: int| 0 <= i < fs.len() ==> (#[trigger] fs[i]).0.len() < byte_cap(8) && fs[i].1.len() < byte_cap(8)
}

proof fn lemma_le_bytes_len(n: nat, k: nat)
    ensures
        le_bytes(n, k).len() == k,
    decreases k,
{
    if k > 0 {
        lemma_le_bytes_len(n / 256, (k - 1) as nat);
    }
}

proof fn lemma_le_bytes_injective(a: nat, b: nat, k: nat)
    requires
        a < byte_cap(k),
        b < byte_cap(k),
        le_bytes(a, k) == le_bytes(b, k),
    ensures
        a == b,
    decreases k,
{
    if k > 0 {
        let c = byte_cap((k - 1) as nat);
        let la = le_bytes(a, k);
        let lb = le_bytes(b, k);
        lemma_le_bytes_len(a / 256, (k - 1) as nat);
        lemma_le_bytes_len(b / 256, (k - 1) as nat);
        assert(la[0] == (a % 256) as u8);
        assert(lb[0] == (b % 256) as u8);
        assert(a % 256 == b % 256);
        assert(la.skip(1) =~= le_bytes(a / 256, (k - 1) as nat));
        assert(lb.skip(1) =~= le_bytes(b / 256, (k - 1) as nat));
        assert(a / 256 < c) by (nonlinear_arith)
            requires
                a < 256 * c,
        ;
        assert(b / 256 < c) by (nonlinear_arith)
            requires
                b < 256 * c,
        ;
        lemma_le_bytes_injective(a / 256, b / 256, (k - 1) as nat);
        assert(a == 256 * (a / 256) + a % 256) by (nonlinear_arith);
        assert(b == 256 * (b / 256) + b % 256) by (nonlinear_arith);
    }
}

proof fn lemma_kv_split(k1: Seq<u8>, v1: Seq<u8>, r1: Seq<u8>, k2: Seq<u8>, v2: Seq<u8>, r2: Seq<u8>)
    requires
        k1.len() < byte_cap(8),
        v1.len() < byte_cap(8),
        k2.len() < byte_cap(8),
        v2.len() < byte_cap(8),
        kv(k1, v1) + r1 == kv(k2, v2) + r2,
    ensures
        k1 == k2,
        v1 == v2,
        r1 == r2,
{
    let s = kv(k1, v1) + r1;
    lemma_le_bytes_len(k1.len(), 8);
    lemma_le_bytes_len(k2.len(), 8);
    lemma_le_bytes_len(v1.len(), 8);
    lemma_le_bytes_len(v2.len(), 8);
    assert(s.subrange(0, 8) =~= le_bytes(k1.len(), 8));
    assert(s.subrange(0, 8) =~= le_bytes(k2.len(), 8));
    lemma_le_bytes_injective(k1.len(), k2.len(), 8);
    let n = k1.len() as int;
    assert(s.subrange(8, 8 + n) =~= k1);
    assert(s.subrange(8, 8 + n) =~= k2);
    assert(s.subrange(8 + n, 16 + n) =~= le_bytes(v1.len(), 8));
    assert(s.subrange(8 + n, 16 + n) =~= le_bytes(v2.len(), 8));
    lemma_le_bytes_injective(v1.len(), v2.len(), 8);
    let m = v1.len() as int;
    assert(s.subrange(16 + n, 16 + n + m) =~= v1);
    assert(s.subrange(16 + n, 16 + n + m) =~= v2);
    assert(s.skip(16 + n + m) =~= r1);
    assert(s.skip(16 + n + m) =~= r2);
}

/// Law: the framing is unambiguous: two sequences of fields that give the
/// same stream are the same fields, in the same order (each key and value
/// shorter than `2^64` bytes).
pub proof fn law_framing_is_unambiguous(a: Seq<(Seq<u8>, Seq<u8>)>, b: Seq<(Seq<u8>, Seq<u8>)>)
    requires
        fields_fit(a),
        fields_fit(b),
        fields_stream(a) == fields_stream(b),
    ensures
        a == b,
    decreases a.len(),
{
    if a.len() == 0 {
        if b.len() > 0 {
            lemma_le_bytes_len(b[0].0.len(), 8);
            assert(fields_stream(b).len() >= 8);
        }
        assert(a =~= b);
    } else {
        if b.len() == 0 {
            lemma_le_bytes_len(a[0].0.len(), 8);
            assert(fields_stream(a).len() >= 8);
        }
        assert(b.len() > 0);
        assert(a[0].0.len() < byte_cap(8) && a[0].1.len() < byte_cap(8));
        assert(b[0].0.len() < byte_cap(8) && b[0].1.len() < byte_cap(8));
        lemma_kv_split(a[0].0, a[0].1, fields_stream(a.drop_first()), b[0].0, b[0].1, fields_stream(b.drop_first()));
        assert(fields_fit(a.drop_first())) by {
            assert forall|i: int| 0 <= i < a.drop_first().len() implies (#[trigger] a.drop_first()[i]).0.len() < byte_cap(8)
                && a.drop_first()[i].1.len() < byte_cap(8) by {
                assert(a.drop_first()[i] == a[i + 1]);
            }
        }
        assert(fields_fit(b.drop_first())) by {
            assert forall|i: int| 0 <= i < b.drop_first().len() implies (#[trigger] b.drop_first()[i]).0.len() < byte_cap(8)
                && b.drop_first()[i].1.len() < byte_cap(8) by {
                assert(b.drop_first()[i] == b[i + 1]);
            }
        }
        law_framing_is_unambiguous(a.drop_first(), b.drop_first());
        assert(a =~= b) by {
            assert forall|i: int| 0 <= i < a.len() implies a[i] == b[i] by {
                if i > 0 {
                    assert(a[i] == a.drop_first()[i - 1]);
                    assert(b[i] == b.drop_first()[i - 1]);
                }
            }
        }
    }
}

proof fn lemma_encode_len(chars: Seq<char>)
    ensures
        encode_utf8(chars).len() <= 4 * chars.len(),
    decreases chars.len(),
{
    if chars.len() > 0 {
        lemma_encode_len(chars.drop_first());
    }
}

/// Whether the UTF-8 bytes of every text are shorter than `2^64`.
pub open spec fn texts_fit(ts: Seq<Seq<char>>) -> bool {
    forall|i: int| 0 <= i < ts.len() ==> encode_utf8(#[trigger] ts[i]).len() < byte_cap(8)
}

/// Law: the stream of a task fixes its id, command and root: two tasks
/// whose streams are equal have the same id text, command and root; so a
/// task whose command or root changed hashes a different stream.
pub proof fn law_stream_fixes_id_cmd_root(t1: TaskView, t2: TaskView, rest1: Seq<u8>, rest2: Seq<u8>)
    requires
        texts_fit(
            seq![
                id_text((t1.project_name, t1.task_name)),
                t1.cmd,
                t1.project_root,
                id_text((t2.project_name, t2.task_name)),
                t2.cmd,
                t2.project_root,
            ],
        ),
        head_fields(t1) + rest1 == head_fields(t2) + rest2,
    ensures
        id_text((t1.project_name, t1.task_name)) == id_text((t2.project_name, t2.task_name)),
        t1.cmd == t2.cmd,
        t1.project_root == t2.project_root,
{
    let ts = seq![
        id_text((t1.project_name, t1.task_name)),
        t1.cmd,
        t1.project_root,
        id_text((t2.project_name, t2.task_name)),
        t2.cmd,
        t2.project_root,
    ];
    assert(encode_utf8(ts[0]).len() < byte_cap(8));
    assert(encode_utf8(ts[1]).len() < byte_cap(8));
    assert(encode_utf8(ts[2]).len() < byte_cap(8));
    assert(encode_utf8(ts[3]).len() < byte_cap(8));
    assert(encode_utf8(ts[4]).len() < byte_cap(8));
    assert(encode_utf8(ts[5]).len() < byte_cap(8));
    reveal_with_fuel(byte_cap, 9);
    assert(byte_cap(8) == 0x1_0000_0000_0000_0000nat);
    reveal_strlit("id");
    reveal_strlit("cmd");
    reveal_strlit("root");
    let ki = encode_utf8("id"@);
    let kc = encode_utf8("cmd"@);
    let kr = encode_utf8("root"@);
    vstd::utf8::encode_utf8_decode_utf8("id"@);
    vstd::utf8::encode_utf8_decode_utf8("cmd"@);
    vstd::utf8::encode_utf8_decode_utf8("root"@);
    let i1 = encode_utf8(ts[0]);
    let c1 = encode_utf8(ts[1]);
    let r1 = encode_utf8(ts[2]);
    let i2 = encode_utf8(ts[3]);
    let c2 = encode_utf8(ts[4]);
    let r2 = encode_utf8(ts[5]);
    assert(head_fields(t1) + rest1 =~= kv(ki, i1) + (kv(kc, c1) + (kv(kr, r1) + rest1)));
    assert(head_fields(t2) + rest2 =~= kv(ki, i2) + (kv(kc, c2) + (kv(kr, r2) + rest2)));
    lemma_encode_len("id"@);
    lemma_encode_len("cmd"@);
    lemma_encode_len("root"@);
    lemma_kv_split(ki, i1, kv(kc, c1) + (kv(kr, r1) + rest1), ki, i2, kv(kc, c2) + (kv(kr, r2) + rest2));
    lemma_kv_split(kc, c1, kv(kr, r1) + rest1, kc, c2, kv(kr, r2) + rest2);
    lemma_kv_split(kr, r1, rest1, kr, r2, rest2);
    vstd::utf8::encode_utf8_decode_utf8(ts[0]);
    vstd::utf8::encode_utf8_decode_utf8(ts[1]);
    vstd::utf8::encode_utf8_decode_utf8(ts[2]);
    vstd::utf8::encode_utf8_decode_utf8(ts[3]);
    vstd::utf8::encode_utf8_decode_utf8(ts[4]);
    vstd::utf8::encode_utf8_decode_utf8(ts[5]);
}

// ---------------------------------------------------------------------------
// The values of a task's variables are hashed.

proof fn lemma_distinct_seq_of(s: Set<Seq<char>>) -> (q: Seq<Seq<char>>)
    requires
        s.finite(),
    ensures
        q.no_duplicates(),
        q.to_set() == s,
    decreases s.len(),
{
    if s.len() == 0 {
        assert(s =~= Set::<Seq<char>>::empty());
        let q = Seq::<Seq<char>>::empty();
        assert(q.to_set() =~= s);
        q
    } else {
        let x = s.choose();
        let r = lemma_distinct_seq_of(s.remove(x));
        let q = r.push(x);
        assert(!r.contains(x)) by {
            if r.contains(x) {
                assert(r.to_set().contains(x));
            }
        }
        assert(q.no_duplicates()) by {
            assert forall|i: int, j: int| 0 <= i < q.len() && 0 <= j < q.len() && i != j implies q[i] != q[j] by {
                if i < r.len() && j < r.len() {
                    assert(r[i] != r[j]);
                } else if i < r.len() {
                    assert(r.contains(r[i]));
                } else {
                    assert(r.contains(r[j]));
                }
            }
        }
        assert(q.to_set() =~= s) by {
            assert forall|y: Seq<char>| q.to_set().contains(y) <==> s.contains(y) by {
                if q.to_set().contains(y) {
                    let i = choose|i: int| 0 <= i < q.len() && q[i] == y;
                    if i < r.len() {
                        assert(r.to_set().contains(y));
                    }
                }
                if s.contains(y) && y != x {
                    assert(r.to_set().contains(y));
                    let i = choose|i: int| 0 <= i < r.len() && r[i] == y;
                    assert(q[i] == y);
                }
                if y == x {
                    assert(q[q.len() - 1] == y);
                }
            }
        }
        q
    }
}

/// The sorted names of a finite set of texts hold each of its texts once.
pub proof fn lemma_sorted_names(s: Set<Seq<char>>)
    requires
        s.finite(),
    ensures
        sorted_by(sorted_names(s), text_le()),
        sorted_names(s).no_duplicates(),
        sorted_names(s).to_set() == s,
{
    let q = lemma_distinct_seq_of(s);
    lemma_text_le_total();
    let r = q.sort_by(text_le());
    q.lemma_sort_by_ensures(text_le());
    crate::sort::lemma_same_multiset(q, r);
    assert(r.to_set() =~= s) by {
        assert forall|y: Seq<char>| r.to_set().contains(y) <==> s.contains(y) by {
            assert(r.contains(y) <==> q.contains(y));
            assert(q.contains(y) <==> q.to_set().contains(y));
        }
    }
    assert(sorted_by(r, text_le()) && r.no_duplicates() && r.to_set() == s);
}

/// Two sequences that differ only in one piece in the middle differ.
pub proof fn lemma_middle_differs<A>(a: Seq<A>, x: Seq<A>, b: Seq<A>, y: Seq<A>)
    requires
        x != y,
    ensures
        a + x + b != a + y + b,
{
    if a + x + b == a + y + b {
        let s = a + x + b;
        assert((a + x + b).len() == a.len() + x.len() + b.len());
        assert((a + y + b).len() == a.len() + y.len() + b.len());
        assert(x.len() == y.len());
        assert(s.subrange(a.len() as int, (a.len() + x.len()) as int) =~= x);
        assert((a + y + b).subrange(a.len() as int, (a.len() + y.len()) as int) =~= y);
    }
}

proof fn lemma_env_fields_same(m1: Map<Seq<char>, Seq<char>>, m2: Map<Seq<char>, Seq<char>>, names: Seq<Seq<char>>, k: int)
    requires
        0 <= k <= names.len(),
        forall|i: int| 0 <= i < k ==> m1[#[trigger] names[i]] == m2[names[i]],
    ensures
        env_fields(m1, names, k) == env_fields(m2, names, k),
    decreases k,
{
    if k > 0 {
        lemma_env_fields_same(m1, m2, names, k - 1);
    }
}

proof fn lemma_env_fields_split(
    m1: Map<Seq<char>, Seq<char>>,
    m2: Map<Seq<char>, Seq<char>>,
    names: Seq<Seq<char>>,
    k: int,
    q: int,
) -> (r: (Seq<u8>, Seq<u8>))
    requires
        0 <= q < k <= names.len(),
        forall|i: int| 0 <= i < k && i != q ==> m1[#[trigger] names[i]] == m2[names[i]],
    ensures
        env_fields(m1, names, k) == r.0 + text_kv("env_val"@, m1[names[q]]) + r.1,
        env_fields(m2, names, k) == r.0 + text_kv("env_val"@, m2[names[q]]) + r.1,
    decreases k,
{
    if k - 1 == q {
        lemma_env_fields_same(m1, m2, names, q);
        (env_fields(m1, names, q) + text_kv("env_key"@, names[q]), Seq::empty())
    } else {
        let (p, t) = lemma_env_fields_split(m1, m2, names, k - 1, q);
        let extra = text_kv("env_key"@, names[k - 1]) + text_kv("env_val"@, m1[names[k - 1]]);
        assert(m1[names[k - 1]] == m2[names[k - 1]]);
        assert(env_fields(m1, names, k) =~= p + text_kv("env_val"@, m1[names[q]]) + (t + extra));
        assert(env_fields(m2, names, k) =~= p + text_kv("env_val"@, m2[names[q]]) + (t + extra));
        (p, t + extra)
    }
}

/// Law: a variable's value goes into a task's hashed stream: two tasks that
/// differ only in the value of one variable of their environment hash
/// different streams, whatever the dependency fields `db` and input fields
/// `fb` that the stream takes in between and after (each the same for both,
/// as neither depends on the environment), values shorter than `2^64`
/// bytes.
pub proof fn law_env_value_changes_stream(t1: TaskView, t2: TaskView, name: Seq<char>, db: Seq<u8>, fb: Seq<u8>)
    requires
        t1.env.dom().finite(),
        t1.env.contains_key(name),
        t2.env == t1.env.insert(name, t2.env[name]),
        t2.env[name] != t1.env[name],
        t1.project_name == t2.project_name,
        t1.task_name == t2.task_name,
        t1.cmd == t2.cmd,
        t1.project_root == t2.project_root,
        t1.inputs == t2.inputs,
        t1.outputs == t2.outputs,
        t1.ignore == t2.ignore,
        encode_utf8(t1.env[name]).len() < byte_cap(8),
        encode_utf8(t2.env[name]).len() < byte_cap(8),
    ensures
        head_fields(t1) + db + tail_fields(t1) + fb != head_fields(t2) + db + tail_fields(t2) + fb,
{
    let m1 = t1.env;
    let m2 = t2.env;
    assert(m1.dom() =~= m2.dom());
    let names = env_names(m1);
    assert(env_names(m2) == names);
    lemma_sorted_names(m1.dom());
    assert(names.to_set().contains(name));
    let q = choose|q: int| 0 <= q < names.len() && names[q] == name;
    assert forall|i: int| 0 <= i < names.len() && i != q implies m1[#[trigger] names[i]] == m2[names[i]] by {
        assert(names[i] != names[q]);
    }
    let (p, s) = lemma_env_fields_split(m1, m2, names, names.len() as int, q);
    // The two values' fields differ.
    let kk = encode_utf8("env_val"@);
    reveal_strlit("env_val");
    lemma_encode_len("env_val"@);
    reveal_with_fuel(byte_cap, 9);
    let v1 = m1[name];
    let v2 = m2[name];
    assert(text_kv("env_val"@, v1) != text_kv("env_val"@, v2)) by {
        if text_kv("env_val"@, v1) == text_kv("env_val"@, v2) {
            assert(kv(kk, encode_utf8(v1)) + Seq::<u8>::empty() =~= kv(kk, encode_utf8(v2)) + Seq::<u8>::empty());
            lemma_kv_split(kk, encode_utf8(v1), Seq::<u8>::empty(), kk, encode_utf8(v2), Seq::<u8>::empty());
            vstd::utf8::encode_utf8_decode_utf8(v1);
            vstd::utf8::encode_utf8_decode_utf8(v2);
        }
    }
    let lists = list_fields("input"@, sorted_texts(t1.inputs)) + list_fields("output"@, sorted_texts(t1.outputs))
        + list_fields("ignore"@, sorted_texts(t1.ignore));
    let a = head_fields(t1) + db + lists + p;
    let b = s + fb;
    assert(head_fields(t1) == head_fields(t2));
    assert(head_fields(t1) + db + tail_fields(t1) + fb =~= a + text_kv("env_val"@, v1) + b);
    assert(head_fields(t2) + db + tail_fields(t2) + fb =~= a + text_kv("env_val"@, v2) + b);
    lemma_middle_differs(a, text_kv("env_val"@, v1), b, text_kv("env_val"@, v2));
}

} // verus!
