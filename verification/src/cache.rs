//! The cache of task outputs: where a task's key is kept, which outputs
//! are saved, when a cached result is fresh, and what is recorded about a
//! saved run.
use std::hash::{DefaultHasher, Hash, Hasher};

use vstd::prelude::*;
use vstd::std_specs::hash::DefaultHasherAdditionalSpecFns;

use crate::hash::{
    env_names, lemma_middle_differs, lemma_sorted_names, lemma_path_le_antisymmetric, lemma_path_le_total, lemma_path_le_transitive, path_le, path_lt,
    copy_content, path_text_le, sorted_env_names, walk_of, InputFile, InputGlob,
};
use crate::paths::{join, join_path};
use crate::sort::{sort_strings, sorted_texts};
use crate::strings::{chars_of, copy_strings, is_ws, substring, trim, trim_bounds, trim_end, trim_start, views};
use crate::tasks::{Task, TaskView};
use crate::workspace::glob_pattern_valid;

verus! {

/// Whether a run came from the cache.
#[derive(Debug, Clone, Copy, PartialEq, Eq, Structural)]
pub enum CacheStatus {
    Hit,
    Miss,
}

/// What is recorded about a saved run.
#[derive(Debug, Clone)]
pub struct CacheMetadata {
    pub task: String,
    pub duration_ms: u64,
    pub exit_code: i32,
    pub cache_status: CacheStatus,
    pub cache_key: String,
    pub output_digest: String,
    pub timestamp: u64,
}

impl CacheMetadata {
    /// The record of a run.
    pub fn new(
        task: String,
        duration_ms: u64,
        exit_code: i32,
        cache_status: CacheStatus,
        cache_key: String,
        output_digest: String,
        timestamp: u64,
    ) -> (r: CacheMetadata)
        ensures
            r.task == task,
            r.duration_ms == duration_ms,
            r.exit_code == exit_code,
            r.cache_status == cache_status,
            r.cache_key == cache_key,
            r.output_digest == output_digest,
            r.timestamp == timestamp,
    {
        CacheMetadata { task, duration_ms, exit_code, cache_status, cache_key, output_digest, timestamp }
    }
}

/// Where saved runs are kept and how they are brought back.
pub trait CacheProvider {
    /// Whether a run with this key was saved.
    fn contains(&self, key: &str) -> bool;

    /// Puts the saved outputs of `key` back in place; `Ok(false)` when
    /// nothing was saved under it.
    fn restore(&self, key: &str) -> Result<bool, String>;

    /// Saves the outputs `source` under `key`, with their record.
    fn save(&self, key: &str, source: &[String], metadata: CacheMetadata) -> Result<bool, String>;

    /// The record saved under `key`, if any.
    fn get_metadata(&self, key: &str) -> Result<Option<CacheMetadata>, String>;

    /// Whether the outputs in place differ from those saved under `key`.
    fn need_hydration(&self, key: &str, output_digest: &str) -> Result<bool, String>;
}

/// The cache kept in a directory of the local disk.
#[derive(Debug, Clone)]
pub struct LocalCacheProvider {
    cache_dir: String,
}

impl LocalCacheProvider {
    /// The cache kept under `cache_dir`.
    pub fn new(cache_dir: String) -> (r: LocalCacheProvider)
        ensures
            r.dir()@ == cache_dir@,
    {
        LocalCacheProvider { cache_dir }
    }

    /// The directory of the cache.
    pub closed spec fn dir(&self) -> String {
        self.cache_dir
    }

    /// The directory of the cache.
    pub fn cache_dir(&self) -> (r: &String)
        ensures
            r@ == self.dir()@,
    {
        &self.cache_dir
    }

    /// The directory holding the run saved under `key`.
    pub fn entry_dir(&self, key: &str) -> (r: String)
        ensures
            r@ == join(self.dir()@, key@),
    {
        join_path(self.cache_dir.as_str(), key)
    }
}

/// Whether outputs must be brought back from the cache: when no record was
/// saved, or the saved outputs differ from those in place.
pub fn needs_hydration(metadata: Option<&CacheMetadata>, output_digest: &str) -> (r: bool)
    ensures
        r == match metadata {
            Some(m) => m.output_digest@ != output_digest@,
            None => true,
        },
{
    match metadata {
        Some(m) => {
            let d = String::from_str(output_digest);
            !(m.output_digest == d)
        },
        None => true,
    }
}

/// `text` without leading and trailing whitespace.
pub fn trim_text(text: &str) -> (r: String)
    ensures
        r@ == trim(text@),
{
    let v = chars_of(text);
    let (lo, hi) = trim_bounds(&v, 0, v.len());
    proof {
        assert(v@.subrange(0, v@.len() as int) =~= v@);
    }
    substring(text, lo, hi)
}

/// Whether every output pattern of a task still matches something on disk.
/// `found[i]` is what the walk of pattern `i` gave: `None` when the pattern
/// could not be walked, else how many paths it matched (entries that could
/// not be read left out).
pub fn outputs_exist(found: &Vec<Option<usize>>) -> (r: bool)
    ensures
        r == forall|i: int| 0 <= i < found@.len() ==> (#[trigger] found@[i] matches Some(n) && n > 0),
{
    for i in 0..found.len()
        invariant
            forall|j: int| 0 <= j < i ==> (#[trigger] found@[j] matches Some(n) && n > 0),
    {
        match found[i] {
            Some(n) => {
                if n == 0 {
                    return false;
                }
            },
            None => {
                return false;
            },
        }
    }
    true
}

/// Whether a task's cached outputs are up to date: the key stored for it
/// matches, once trimmed, the key computed now, and every output pattern
/// still matches a file. No key (it could not be computed) or no stored
/// key (none could be read) is a miss.
pub fn is_fresh(key: Option<&str>, stored: Option<&str>, outputs_exist: bool) -> (r: bool)
    ensures
        r == (key is Some && stored is Some && trim(stored->0@) == key->0@ && outputs_exist),
{
    match (key, stored) {
        (Some(k), Some(s)) => {
            let t = trim_text(s);
            let k = String::from_str(k);
            t == k && outputs_exist
        },
        _ => false,
    }
}

/// The file holding a task's stored key: `<root>/<project>/<task>.key`.
pub open spec fn key_file(cache_root: Seq<char>, project: Seq<char>, task: Seq<char>) -> Seq<char> {
    join(join(cache_root, project), task + ".key"@)
}

/// The file holding the stored key of `task` under `cache_root`.
pub fn key_path(cache_root: &str, task: &Task) -> (r: String)
    ensures
        r@ == key_file(cache_root@, task.project_name@, task.task_name@),
{
    let dir = join_path(cache_root, task.project_name.as_str());
    let name = task.task_name.clone().concat(".key");
    join_path(dir.as_str(), name.as_str())
}

/// Whether `c` starts a glob construct.
pub open spec fn is_glob_char(c: char) -> bool {
    c == '*' || c == '?' || c == '['
}

/// The length of the part of `s` before its first glob construct.
pub open spec fn literal_prefix_len(s: Seq<char>) -> int
    decreases s.len(),
{
    if s.len() == 0 {
        0
    } else if is_glob_char(s[0]) {
        0
    } else {
        1 + literal_prefix_len(s.drop_first())
    }
}

/// `s` without its trailing `/` characters.
pub open spec fn trim_slashes(s: Seq<char>) -> Seq<char>
    decreases s.len(),
{
    if s.len() > 0 && s.last() == '/' {
        trim_slashes(s.drop_last())
    } else {
        s
    }
}

/// The directory an output pattern writes into: its part before the first
/// glob construct, without trailing slashes, under the task's root.
pub open spec fn output_dir(root: Seq<char>, pattern: Seq<char>) -> Seq<char> {
    join(root, trim_slashes(pattern.take(literal_prefix_len(pattern))))
}

proof fn lemma_literal_prefix(s: Seq<char>, i: int)
    requires
        0 <= i <= s.len(),
        forall|j: int| 0 <= j < i ==> !is_glob_char(s[j]),
        i == s.len() || is_glob_char(s[i]),
    ensures
        literal_prefix_len(s) == i,
    decreases i,
{
    if i > 0 {
        assert(s.drop_first().len() == s.len() - 1);
        assert forall|j: int| 0 <= j < i - 1 implies !is_glob_char(s.drop_first()[j]) by {
            assert(s.drop_first()[j] == s[j + 1]);
        }
        if i - 1 < s.drop_first().len() {
            assert(s.drop_first()[i - 1] == s[i]);
        }
        lemma_literal_prefix(s.drop_first(), i - 1);
    }
}

proof fn lemma_trim_slashes_at(s: Seq<char>, hi: int, lo: int)
    requires
        0 <= lo <= hi <= s.len(),
        forall|j: int| lo <= j < hi ==> s[j] == '/',
        lo == 0 || s[lo - 1] != '/',
    ensures
        trim_slashes(s.take(hi)) == s.take(lo),
    decreases hi - lo,
{
    if lo < hi {
        assert(s.take(hi).drop_last() =~= s.take(hi - 1));
        lemma_trim_slashes_at(s, hi - 1, lo);
    } else if lo > 0 {
        assert(s.take(lo).last() == s[lo - 1]);
    }
}

/// The directories the output patterns of a task write into, in order.
pub fn resolve_output_dirs(task: &Task) -> (r: Vec<String>)
    ensures
        r@.len() == task.outputs@.len(),
        forall|i: int| 0 <= i < r@.len() ==> (#[trigger] r@[i])@ == output_dir(task.project_root@, task.outputs@[i]@),
{
    let mut r: Vec<String> = Vec::new();
    for i in 0..task.outputs.len()
        invariant
            r@.len() == i,
            forall|a: int| 0 <= a < i ==> (#[trigger] r@[a])@ == output_dir(task.project_root@, task.outputs@[a]@),
    {
        let p = &task.outputs[i];
        let v = chars_of(p.as_str());
        let mut n: usize = 0;
        while n < v.len() && !(v[n] == '*' || v[n] == '?' || v[n] == '[')
            invariant
                n <= v@.len(),
                forall|j: int| 0 <= j < n ==> !is_glob_char(v@[j]),
            decreases v@.len() - n,
        {
            n = n + 1;
        }
        let mut m: usize = n;
        while m > 0 && v[m - 1] == '/'
            invariant
                m <= n <= v@.len(),
                forall|j: int| m <= j < n ==> v@[j] == '/',
            decreases m,
        {
            m = m - 1;
        }
        let prefix = substring(p.as_str(), 0, m);
        proof {
            lemma_literal_prefix(p@, n as int);
            lemma_trim_slashes_at(p@, n as int, m as int);
            assert(p@.subrange(0, m as int) =~= p@.take(m as int));
        }
        r.push(join_path(task.project_root.as_str(), prefix.as_str()));
    }
    r
}


// ---------------------------------------------------------------------------
// The key a task's cached outputs are stored under.

/// Why a task's cache key could not be computed.
#[derive(Debug, Clone)]
pub enum CacheError {
    /// The walk of an input pattern (under the task's root) failed.
    Glob { pattern: String, message: String },
    /// A matched input file could not be read.
    ReadInput { path: String },
}

/// A `CacheError` with its texts as character sequences.
pub ghost enum CacheErrorView {
    Glob { pattern: Seq<char>, message: Seq<char> },
    ReadInput { path: Seq<char> },
}

impl View for CacheError {
    type V = CacheErrorView;

    open spec fn view(&self) -> CacheErrorView {
        match self {
            CacheError::Glob { pattern, message } => CacheErrorView::Glob { pattern: pattern@, message: message@ },
            CacheError::ReadInput { path } => CacheErrorView::ReadInput { path: path@ },
        }
    }
}

/// Whether `glob::Pattern::new(pattern)` succeeds and the pattern matches
/// `path` (`Pattern::matches_path_with`) under the match options given by
/// the three flags.
pub uninterp spec fn glob_matches_path_with(
    pattern: Seq<char>,
    path: Seq<char>,
    case_sensitive: bool,
    literal_separator: bool,
    literal_leading_dot: bool,
) -> bool;

/// `glob::Pattern::new(pattern)` followed by
/// `matches_path_with(Path::new(path), options)`, the options built from the
/// three flags; false when the pattern does not parse.
#[verifier::external_body]
fn glob_matches_with(
    pattern: &str,
    path: &str,
    case_sensitive: bool,
    literal_separator: bool,
    literal_leading_dot: bool,
) -> (r: bool)
    ensures
        r == glob_matches_path_with(pattern@, path@, case_sensitive, literal_separator, literal_leading_dot),
        r ==> glob_pattern_valid(pattern@),
{
    let options = glob::MatchOptions {
        case_sensitive,
        require_literal_separator: literal_separator,
        require_literal_leading_dot: literal_leading_dot,
    };
    glob::Pattern::new(pattern).is_ok_and(|p| p.matches_path_with(std::path::Path::new(path), options))
}

/// A path relative to a task's root is left out of its key by one of the
/// ignore patterns, matched case-sensitively, with `/` and a leading `.`
/// matched only literally.
pub open spec fn key_ignored(path: Seq<char>, patterns: Seq<Seq<char>>) -> bool {
    exists|k: int|
        0 <= k < patterns.len() && glob_matches_path_with(#[trigger] patterns[k], path, true, true, true)
}

/// Whether `path` is left out of the key by one of `patterns`.
pub fn is_key_ignored(path: &str, patterns: &Vec<String>) -> (r: bool)
    ensures
        r == key_ignored(path@, views(patterns@)),
{
    for k in 0..patterns.len()
        invariant
            forall|q: int| 0 <= q < k ==> !glob_matches_path_with(patterns@[q]@, path@, true, true, true),
    {
        if glob_matches_with(patterns[k].as_str(), path, true, true, true) {
            assert(views(patterns@)[k as int] == patterns@[k as int]@);
            return true;
        }
    }
    proof {
        if key_ignored(path@, views(patterns@)) {
            let q = choose|q: int|
                0 <= q < views(patterns@).len() && glob_matches_path_with(#[trigger] views(patterns@)[q], path@, true, true, true);
            assert(views(patterns@)[q] == patterns@[q]@);
        }
    }
    false
}

/// A file as the key sees it: its path under the task's root, and its
/// contents where they could be read.
pub open spec fn file_view(f: InputFile) -> (Seq<char>, Option<Seq<u8>>) {
    (f.path@, match f.content {
        Ok(c) => Some(c@),
        Err(_) => None,
    })
}

/// A file found by a walk, with its path put under the task's root.
pub open spec fn rooted(root: Seq<char>, f: InputFile) -> (Seq<char>, Option<Seq<u8>>) {
    (join(root, f.path@), file_view(f).1)
}

/// The files the first `k` input patterns of `t` keep, in the order they
/// were found; or the first pattern whose walk failed.
pub open spec fn key_inputs(t: TaskView, walks: Seq<InputGlob>, k: int) -> Result<Seq<(Seq<char>, Option<Seq<u8>>)>, CacheErrorView>
    decreases k,
{
    if k <= 0 {
        Ok(Seq::empty())
    } else {
        match key_inputs(t, walks, k - 1) {
            Err(e) => Err(e),
            Ok(before) => match walk_of(walks, (t.project_name, t.task_name), t.inputs[k - 1]) {
                Err(m) => Err(CacheErrorView::Glob { pattern: join(t.project_root, t.inputs[k - 1]), message: m }),
                Ok(found) => Ok(
                    before + found.filter(|f: InputFile| !key_ignored(f.path@, t.ignore)).map_values(
                        |f: InputFile| rooted(t.project_root, f),
                    ),
                ),
            },
        }
    }
}

/// The first of `all` with path `p`.
pub open spec fn first_with(all: Seq<(Seq<char>, Option<Seq<u8>>)>, p: Seq<char>) -> Option<(Seq<char>, Option<Seq<u8>>)>
    decreases all.len(),
{
    if all.len() == 0 {
        None
    } else if all[0].0 == p {
        Some(all[0])
    } else {
        first_with(all.drop_first(), p)
    }
}

/// `s` holds each path of `all` once, with the first file found at that
/// path, sorted by path.
pub open spec fn sorted_firsts(s: Seq<(Seq<char>, Option<Seq<u8>>)>, all: Seq<(Seq<char>, Option<Seq<u8>>)>) -> bool {
    &&& forall|i: int, j: int| 0 <= i < j < s.len() ==> path_lt(#[trigger] s[i].0, #[trigger] s[j].0)
    &&& forall|i: int| 0 <= i < s.len() ==> first_with(all, #[trigger] s[i].0) == Some(s[i])
    &&& forall|p: Seq<char>| #[trigger] first_with(all, p) is Some ==> exists|i: int| 0 <= i < s.len() && s[i].0 == p
}

proof fn lemma_first_with_push(all: Seq<(Seq<char>, Option<Seq<u8>>)>, x: (Seq<char>, Option<Seq<u8>>), p: Seq<char>)
    ensures
        first_with(all.push(x), p) == match first_with(all, p) {
            Some(y) => Some(y),
            None => if x.0 == p {
                Some(x)
            } else {
                None
            },
        },
    decreases all.len(),
{
    if all.len() > 0 {
        assert(all.push(x)[0] == all[0]);
        assert(all.push(x).drop_first() =~= all.drop_first().push(x));
        lemma_first_with_push(all.drop_first(), x, p);
    } else {
        reveal_with_fuel(first_with, 2);
        assert(all.push(x)[0] == x);
        assert(all.push(x).drop_first() =~= Seq::<(Seq<char>, Option<Seq<u8>>)>::empty());
    }
}

proof fn lemma_first_with_found(all: Seq<(Seq<char>, Option<Seq<u8>>)>, p: Seq<char>)
    ensures
        first_with(all, p) matches Some(y) ==> y.0 == p,
    decreases all.len(),
{
    if all.len() > 0 {
        lemma_first_with_push(Seq::empty(), all[0], p);
        lemma_first_with_found(all.drop_first(), p);
    }
}

/// The files the input patterns of `task` keep, walked in `walks`: each
/// path under the task's root once (with the first file found there),
/// sorted by path; or the first pattern whose walk failed.
pub fn matched_input_files(task: &Task, walks: &Vec<InputGlob>) -> (r: Result<Vec<InputFile>, CacheError>)
    ensures
        match key_inputs(task@, walks@, task@.inputs.len() as int) {
            Err(e) => r matches Err(x) && x@ == e,
            Ok(all) => r matches Ok(v) && sorted_firsts(v@.map_values(|f: InputFile| file_view(f)), all),
        },
{
    let ghost t = task@;
    let id = task.id();
    // Every kept file, rooted, in the order found.
    let mut found: Vec<InputFile> = Vec::new();
    proof {
        assert(found@.map_values(|f: InputFile| file_view(f)) =~= Seq::<(Seq<char>, Option<Seq<u8>>)>::empty());
    }
    for k in 0..task.inputs.len()
        invariant
            t == task@,
            id@ == (t.project_name, t.task_name),
            key_inputs(t, walks@, k as int) == Ok::<Seq<(Seq<char>, Option<Seq<u8>>)>, CacheErrorView>(
                found@.map_values(|f: InputFile| file_view(f)),
            ),
    {
        proof {
            assert(t.inputs[k as int] == task.inputs@[k as int]@);
        }
        match crate::hash::find_walk(walks, &id, &task.inputs[k]) {
            None => {
                proof {
                    assert(Seq::<InputFile>::empty().filter(|f: InputFile| !key_ignored(f.path@, t.ignore)) =~= Seq::<InputFile>::empty());
                    assert(found@.map_values(|f: InputFile| file_view(f)) + Seq::<InputFile>::empty().filter(
                        |f: InputFile| !key_ignored(f.path@, t.ignore),
                    ).map_values(|f: InputFile| rooted(t.project_root, f)) =~= found@.map_values(|f: InputFile| file_view(f)));
                }
            },
            Some(w) => {
                match &walks[w].walk {
                    Err(m) => {
                        let e = CacheError::Glob {
                            pattern: join_path(task.project_root.as_str(), task.inputs[k].as_str()),
                            message: m.clone(),
                        };
                        proof {
                            lemma_key_inputs_err_stable(t, walks@, k + 1, t.inputs.len() as int);
                        }
                        return Err(e);
                    },
                    Ok(files) => {
                        let ghost before = found@.map_values(|f: InputFile| file_view(f));
                        let ghost pred = |f: InputFile| !key_ignored(f.path@, t.ignore);
                        for j in 0..files.len()
                            invariant
                                t == task@,
                                pred == (|f: InputFile| !key_ignored(f.path@, t.ignore)),
                                found@.map_values(|f: InputFile| file_view(f)) == before + files@.take(j as int).filter(
                                    pred,
                                ).map_values(|f: InputFile| rooted(t.project_root, f)),
                        {
                            let f = &files[j];
                            let ign = is_key_ignored(f.path.as_str(), &task.ignore);
                            let ghost prev = found@;
                            proof {
                                reveal(Seq::filter);
                                assert(files@.take(j + 1).drop_last() =~= files@.take(j as int));
                                assert(files@.take(j + 1).last() == files@[j as int]);
                                assert(pred(files@[j as int]) == !ign);
                            }
                            if !ign {
                                let g = InputFile {
                                    path: join_path(task.project_root.as_str(), f.path.as_str()),
                                    content: copy_content(&f.content),
                                };
                                found.push(g);
                                proof {
                                    assert(file_view(g) == rooted(t.project_root, files@[j as int]));
                                    assert(found@.map_values(|f: InputFile| file_view(f)) =~= prev.map_values(
                                        |f: InputFile| file_view(f),
                                    ).push(file_view(g)));
                                    assert(files@.take(j + 1).filter(pred) =~= files@.take(j as int).filter(pred).push(
                                        files@[j as int],
                                    ));
                                    assert(files@.take(j + 1).filter(pred).map_values(|f: InputFile| rooted(t.project_root, f))
                                        =~= files@.take(j as int).filter(pred).map_values(
                                        |f: InputFile| rooted(t.project_root, f),
                                    ).push(rooted(t.project_root, files@[j as int])));
                                }
                            } else {
                                proof {
                                    assert(files@.take(j + 1).filter(pred) =~= files@.take(j as int).filter(pred));
                                }
                            }
                        }
                        proof {
                            assert(files@.take(files@.len() as int) =~= files@);
                        }
                    },
                }
            },
        }
    }
    let ghost all = found@.map_values(|f: InputFile| file_view(f));
    proof {
        assert(task.inputs@.len() == t.inputs.len());
    }
    // Sorted by path, the first of each path kept.
    let mut sorted: Vec<InputFile> = Vec::new();
    for i in 0..found.len()
        invariant
            all == found@.map_values(|f: InputFile| file_view(f)),
            sorted_firsts(sorted@.map_values(|f: InputFile| file_view(f)), all.take(i as int)),
    {
        let ghost s = sorted@.map_values(|f: InputFile| file_view(f));
        let x = &found[i];
        let ghost xv = file_view(*x);
        let mut p: usize = 0;
        while p < sorted.len() && path_text_le(sorted[p].path.as_str(), x.path.as_str()) && sorted[p].path != x.path
            invariant
                p <= sorted@.len(),
                s == sorted@.map_values(|f: InputFile| file_view(f)),
                xv == file_view(*x),
                forall|q: int| 0 <= q < p ==> path_lt(#[trigger] s[q].0, xv.0),
            decreases sorted@.len() - p,
        {
            p = p + 1;
        }
        proof {
            lemma_first_with_push(all.take(i as int), xv, xv.0);
            assert(all.take(i + 1) =~= all.take(i as int).push(xv));
            assert forall|q: Seq<char>| q != xv.0 implies #[trigger] first_with(all.take(i + 1), q) == first_with(all.take(i as int), q) by {
                lemma_first_with_push(all.take(i as int), xv, q);
            }
        }
        if p < sorted.len() && sorted[p].path == x.path {
            proof {
                assert(s[p as int].0 == xv.0);
                assert(first_with(all.take(i as int), xv.0) is Some);
                assert(sorted_firsts(s, all.take(i + 1)));
            }
        } else {
            proof {
                // x comes after the paths before `p` and before those from `p` on.
                assert forall|q: int| p <= q < s.len() implies path_lt(xv.0, #[trigger] s[q].0) by {
                    lemma_path_le_total(s[p as int].0, xv.0);
                    assert(path_lt(xv.0, s[p as int].0));
                    if q > p {
                        assert(path_lt(s[p as int].0, s[q].0));
                        lemma_path_le_transitive(xv.0, s[p as int].0, s[q].0);
                        if s[q].0 == xv.0 {
                            lemma_path_le_antisymmetric(s[p as int].0, xv.0);
                        }
                    }
                }
                assert forall|q: int| 0 <= q < s.len() implies s[q].0 != xv.0 by {
                    if q >= p {
                        assert(path_lt(xv.0, s[q].0));
                    } else {
                        assert(path_lt(s[q].0, xv.0));
                    }
                }
                if first_with(all.take(i as int), xv.0) is Some {
                    let q = choose|q: int| 0 <= q < s.len() && s[q].0 == xv.0;
                    assert(false);
                }
                s.insert_ensures(p as int, xv);
            }
            sorted.insert(p, InputFile { path: x.path.clone(), content: copy_content(&x.content) });
            proof {
                let s2 = sorted@.map_values(|f: InputFile| file_view(f));
                assert(s2 =~= s.insert(p as int, xv));
                assert forall|a: int| 0 <= a < s2.len() implies #[trigger] s2[a] == if a < p {
                    s[a]
                } else if a == p {
                    xv
                } else {
                    s[a - 1]
                } by {}
                assert forall|a: int, b: int| 0 <= a < b < s2.len() implies path_lt(#[trigger] s2[a].0, #[trigger] s2[b].0) by {
                    if a < p && b > p {
                        assert(path_lt(s[a].0, xv.0));
                        assert(path_lt(xv.0, s[b - 1].0));
                        lemma_path_le_transitive(s[a].0, xv.0, s[b - 1].0);
                        if s[a].0 == s[b - 1].0 {
                            lemma_path_le_antisymmetric(s[a].0, xv.0);
                        }
                    } else if a > p {
                        assert(path_lt(s[a - 1].0, s[b - 1].0));
                    } else if b < p {
                        assert(path_lt(s[a].0, s[b].0));
                    }
                }
                assert forall|a: int| 0 <= a < s2.len() implies first_with(all.take(i + 1), #[trigger] s2[a].0) == Some(s2[a]) by {
                    if a < p {
                        assert(s2[a] == s[a]);
                    } else if a > p {
                        assert(s2[a] == s[a - 1]);
                    }
                }
                assert forall|q: Seq<char>| #[trigger] first_with(all.take(i + 1), q) is Some implies exists|a: int|
                    0 <= a < s2.len() && s2[a].0 == q by {
                    if q == xv.0 {
                        assert(s2[p as int].0 == q);
                    } else {
                        let a = choose|a: int| 0 <= a < s.len() && s[a].0 == q;
                        if a < p {
                            assert(s2[a].0 == q);
                        } else {
                            assert(s2[a + 1].0 == q);
                        }
                    }
                }
            }
        }
    }
    proof {
        assert(all.take(found@.len() as int) =~= all);
    }
    Ok(sorted)
}

proof fn lemma_key_inputs_err_stable(t: TaskView, walks: Seq<InputGlob>, k: int, m: int)
    requires
        0 <= k <= m,
        key_inputs(t, walks, k) is Err,
    ensures
        key_inputs(t, walks, m) == key_inputs(t, walks, k),
    decreases m - k,
{
    if k < m {
        lemma_key_inputs_err_stable(t, walks, k, m - 1);
    }
}


/// Two lists of files, each sorted strictly by path, that hold the same
/// files are equal.
proof fn lemma_sorted_files_equal(a: Seq<(Seq<char>, Option<Seq<u8>>)>, b: Seq<(Seq<char>, Option<Seq<u8>>)>)
    requires
        forall|i: int, j: int| 0 <= i < j < a.len() ==> path_lt(#[trigger] a[i].0, #[trigger] a[j].0),
        forall|i: int, j: int| 0 <= i < j < b.len() ==> path_lt(#[trigger] b[i].0, #[trigger] b[j].0),
        forall|x: (Seq<char>, Option<Seq<u8>>)| a.contains(x) <==> b.contains(x),
    ensures
        a == b,
    decreases a.len(),
{
    if a.len() == 0 {
        if b.len() > 0 {
            assert(b.contains(b[0]));
        }
        assert(a =~= b);
    } else {
        assert(a.contains(a[0]));
        let j = choose|j: int| 0 <= j < b.len() && b[j] == a[0];
        assert(b.contains(b[0]));
        let i = choose|i: int| 0 <= i < a.len() && a[i] == b[0];
        if j > 0 {
            assert(path_lt(b[0].0, b[j].0));
            if i > 0 {
                assert(path_lt(a[0].0, a[i].0));
                lemma_path_le_antisymmetric(a[0].0, b[0].0);
            }
        }
        assert(a[0] == b[0]);
        let a1 = a.drop_first();
        let b1 = b.drop_first();
        assert forall|x: (Seq<char>, Option<Seq<u8>>)| a1.contains(x) <==> b1.contains(x) by {
            if a1.contains(x) {
                let k = choose|k: int| 0 <= k < a1.len() && a1[k] == x;
                assert(a[k + 1] == x);
                assert(path_lt(a[0].0, a[k + 1].0));
                assert(b.contains(x));
                let m = choose|m: int| 0 <= m < b.len() && b[m] == x;
                assert(m != 0);
                assert(b1[m - 1] == x);
            }
            if b1.contains(x) {
                let k = choose|k: int| 0 <= k < b1.len() && b1[k] == x;
                assert(b[k + 1] == x);
                assert(path_lt(b[0].0, b[k + 1].0));
                assert(a.contains(x));
                let m = choose|m: int| 0 <= m < a.len() && a[m] == x;
                assert(m != 0);
                assert(a1[m - 1] == x);
            }
        }
        assert forall|i: int, j: int| 0 <= i < j < a1.len() implies path_lt(#[trigger] a1[i].0, #[trigger] a1[j].0) by {
            assert(a1[i] == a[i + 1] && a1[j] == a[j + 1]);
        }
        assert forall|i: int, j: int| 0 <= i < j < b1.len() implies path_lt(#[trigger] b1[i].0, #[trigger] b1[j].0) by {
            assert(b1[i] == b[i + 1] && b1[j] == b[j + 1]);
        }
        lemma_sorted_files_equal(a1, b1);
        assert(a =~= seq![a[0]] + a1);
        assert(b =~= seq![b[0]] + b1);
    }
}

/// The files a task's key hashes are determined by what its patterns keep:
/// two lists that both hold each path once with its first file, sorted by
/// path, are equal.
pub proof fn lemma_sorted_firsts_unique(
    a: Seq<(Seq<char>, Option<Seq<u8>>)>,
    b: Seq<(Seq<char>, Option<Seq<u8>>)>,
    all: Seq<(Seq<char>, Option<Seq<u8>>)>,
)
    requires
        sorted_firsts(a, all),
        sorted_firsts(b, all),
    ensures
        a == b,
{
    assert forall|x: (Seq<char>, Option<Seq<u8>>)| a.contains(x) <==> b.contains(x) by {
        if a.contains(x) {
            let i = choose|i: int| 0 <= i < a.len() && a[i] == x;
            assert(first_with(all, a[i].0) == Some(a[i]));
            let j = choose|j: int| 0 <= j < b.len() && b[j].0 == x.0;
            assert(first_with(all, b[j].0) == Some(b[j]));
            assert(b[j] == x);
        }
        if b.contains(x) {
            let i = choose|i: int| 0 <= i < b.len() && b[i] == x;
            assert(first_with(all, b[i].0) == Some(b[i]));
            let j = choose|j: int| 0 <= j < a.len() && a[j].0 == x.0;
            assert(first_with(all, a[j].0) == Some(a[j]));
            assert(a[j] == x);
        }
    }
    lemma_sorted_files_equal(a, b);
}

/// The writes `<str as Hash>::hash` makes into a `DefaultHasher` for `s`.
pub uninterp spec fn text_hash_writes(s: Seq<char>) -> Seq<Seq<u8>>;

/// The writes `<OsStr as Hash>::hash` makes into a `DefaultHasher` for the
/// path `p`.
pub uninterp spec fn path_hash_writes(p: Seq<char>) -> Seq<Seq<u8>>;

/// The writes `<Vec<u8> as Hash>::hash` makes into a `DefaultHasher` for `b`.
pub uninterp spec fn bytes_hash_writes(b: Seq<u8>) -> Seq<Seq<u8>>;

/// `<str as Hash>::hash(s, h)`: the text goes into the hasher as the writes
/// named by `text_hash_writes`, after those already made.
#[verifier::external_body]
fn feed_text(h: &mut DefaultHasher, s: &str)
    ensures
        final(h)@ == old(h)@ + text_hash_writes(s@),
{
    s.hash(h)
}

/// `<OsStr as Hash>::hash` on `Path::new(p).as_os_str()`: the path goes into
/// the hasher as the writes named by `path_hash_writes`.
#[verifier::external_body]
fn feed_path(h: &mut DefaultHasher, p: &str)
    ensures
        final(h)@ == old(h)@ + path_hash_writes(p@),
{
    std::path::Path::new(p).as_os_str().hash(h)
}

/// `<Vec<u8> as Hash>::hash(b, h)`: the bytes go into the hasher as the
/// writes named by `bytes_hash_writes`.
#[verifier::external_body]
fn feed_bytes(h: &mut DefaultHasher, b: &Vec<u8>)
    ensures
        final(h)@ == old(h)@ + bytes_hash_writes(b@),
{
    b.hash(h)
}

/// The writes for a list of texts, in order.
pub open spec fn texts_writes(s: Seq<Seq<char>>) -> Seq<Seq<u8>>
    decreases s.len(),
{
    if s.len() == 0 {
        Seq::empty()
    } else {
        texts_writes(s.drop_last()) + text_hash_writes(s.last())
    }
}

/// The writes for the variables `names` of `m`: each name, then its value.
pub open spec fn env_writes(m: Map<Seq<char>, Seq<char>>, names: Seq<Seq<char>>) -> Seq<Seq<u8>>
    decreases names.len(),
{
    if names.len() == 0 {
        Seq::empty()
    } else {
        env_writes(m, names.drop_last()) + text_hash_writes(names.last()) + text_hash_writes(m[names.last()])
    }
}

/// The writes for files: each path, then its contents.
pub open spec fn files_writes(fs: Seq<(Seq<char>, Option<Seq<u8>>)>) -> Seq<Seq<u8>>
    decreases fs.len(),
{
    if fs.len() == 0 {
        Seq::empty()
    } else {
        files_writes(fs.drop_last()) + path_hash_writes(fs.last().0) + bytes_hash_writes(
            match fs.last().1 {
                Some(c) => c,
                None => Seq::empty(),
            },
        )
    }
}

/// Everything the key of task `t` hashes, its matched input files being
/// `fs`: the command, the variables by sorted name, the sorted input,
/// output and ignore patterns, then each file's path and contents.
pub open spec fn key_writes(t: TaskView, fs: Seq<(Seq<char>, Option<Seq<u8>>)>) -> Seq<Seq<u8>> {
    text_hash_writes(t.cmd) + env_writes(t.env, env_names(t.env)) + texts_writes(sorted_texts(t.inputs))
        + texts_writes(sorted_texts(t.outputs)) + texts_writes(sorted_texts(t.ignore)) + files_writes(fs)
}

/// The lowercase hexadecimal digits.
pub open spec fn hex_digit_chars() -> Seq<char> {
    "0123456789abcdef"@
}

/// The last `k` hexadecimal digits of `n`, with leading zeros.
pub open spec fn hex_text(n: nat, k: nat) -> Seq<char>
    decreases k,
{
    if k == 0 {
        Seq::empty()
    } else {
        hex_text(n / 16, (k - 1) as nat).push(hex_digit_chars()[(n % 16) as int])
    }
}

/// The key of task `t` with matched input files `fs`: the hasher's result
/// as 16 hexadecimal digits.
pub open spec fn key_text(t: TaskView, fs: Seq<(Seq<char>, Option<Seq<u8>>)>) -> Seq<char> {
    hex_text(DefaultHasher::spec_finish(key_writes(t, fs)) as nat, 16)
}

/// The last `k` hexadecimal digits of `n`, with leading zeros.
pub fn hex_digits(n: u64, k: u32) -> (r: String)
    ensures
        r@ == hex_text(n as nat, k as nat),
    decreases k,
{
    if k == 0 {
        let r = String::from_str("");
        proof {
            reveal_strlit("");
        }
        r
    } else {
        let digits = "0123456789abcdef";
        proof {
            reveal_strlit("0123456789abcdef");
        }
        let d: usize = (n % 16) as usize;
        let c = substring(digits, d, d + 1);
        let r = hex_digits(n / 16, k - 1).concat(c.as_str());
        proof {
            assert(c@ =~= seq![hex_digit_chars()[d as int]]);
            assert(r@ =~= hex_text(n as nat, k as nat));
        }
        r
    }
}

/// Feeds texts, sorted, into the hasher.
fn hash_strings(h: &mut DefaultHasher, values: &Vec<String>)
    ensures
        final(h)@ == old(h)@ + texts_writes(sorted_texts(views(values@))),
{
    let sorted = sort_strings(copy_strings(values));
    let ghost start = h@;
    let ghost ss = views(sorted@);
    proof {
        assert(ss.take(0) =~= Seq::<Seq<char>>::empty());
    }
    for i in 0..sorted.len()
        invariant
            ss == views(sorted@),
            h@ == start + texts_writes(ss.take(i as int)),
    {
        feed_text(h, sorted[i].as_str());
        proof {
            assert(ss.take(i + 1).drop_last() =~= ss.take(i as int));
            assert(ss.take(i + 1).last() == sorted@[i as int]@);
            assert(h@ =~= start + texts_writes(ss.take(i + 1)));
        }
    }
    proof {
        assert(ss.take(ss.len() as int) =~= ss);
    }
}

/// The key of a task: what `key_text` gives for its matched input files,
/// once every one of them could be read. Fails as `matched_input_files`
/// does, or names the first file, by path, that could not be read.
pub fn compute_key(task: &Task, walks: &Vec<InputGlob>) -> (r: Result<String, CacheError>)
    requires
        task.env.wf(),
    ensures
        match key_inputs(task@, walks@, task@.inputs.len() as int) {
            Err(e) => r matches Err(x) && x@ == e,
            Ok(all) => {
                &&& (r is Ok <==> forall|p: Seq<char>| #[trigger] first_with(all, p) matches Some(f) ==> f.1 is Some)
                &&& r matches Err(x) ==> x@ matches CacheErrorView::ReadInput { path } && first_with(all, path)
                    == Some((path, None::<Seq<u8>>)) && forall|q: Seq<char>|
                    #[trigger] first_with(all, q) == Some((q, None::<Seq<u8>>)) ==> path_le(path, q)
                &&& r matches Ok(k) ==> exists|fs: Seq<(Seq<char>, Option<Seq<u8>>)>|
                    sorted_firsts(fs, all) && k@ == key_text(task@, fs)
            },
        },
{
    let files = match matched_input_files(task, walks) {
        Ok(v) => v,
        Err(e) => return Err(e),
    };
    let ghost t = task@;
    let ghost all = key_inputs(t, walks@, t.inputs.len() as int)->Ok_0;
    let ghost fs = files@.map_values(|f: InputFile| file_view(f));
    let mut h = DefaultHasher::new();
    feed_text(&mut h, task.cmd.as_str());
    // The variables, by sorted name.
    let names = sorted_env_names(&task.env);
    let ghost m = task.env@;
    let ghost ns = views(names@);
    let ghost base = h@;
    proof {
        assert(ns.take(0) =~= Seq::<Seq<char>>::empty());
    }
    for k in 0..names.len()
        invariant
            task.env.wf(),
            m == task.env@,
            ns == views(names@),
            ns.to_set() == m.dom(),
            h@ == base + env_writes(m, ns.take(k as int)),
    {
        proof {
            assert(ns.to_set().contains(ns[k as int]));
        }
        match task.env.get(names[k].as_str()) {
            Some(v) => {
                feed_text(&mut h, names[k].as_str());
                feed_text(&mut h, v.as_str());
                proof {
                    assert(ns.take(k + 1).drop_last() =~= ns.take(k as int));
                    assert(ns.take(k + 1).last() == ns[k as int]);
                    assert(h@ =~= base + env_writes(m, ns.take(k + 1)));
                }
            },
            None => {
                proof {
                    assert(false);
                }
            },
        }
    }
    proof {
        assert(ns.take(ns.len() as int) =~= ns);
    }
    hash_strings(&mut h, &task.inputs);
    hash_strings(&mut h, &task.outputs);
    hash_strings(&mut h, &task.ignore);
    let ghost before_files = h@;
    proof {
        assert(before_files =~= text_hash_writes(t.cmd) + env_writes(t.env, env_names(t.env)) + texts_writes(
            sorted_texts(t.inputs),
        ) + texts_writes(sorted_texts(t.outputs)) + texts_writes(sorted_texts(t.ignore)));
        assert(fs.take(0) =~= Seq::<(Seq<char>, Option<Seq<u8>>)>::empty());
    }
    // Each file: its path, then its contents.
    for i in 0..files.len()
        invariant
            fs == files@.map_values(|f: InputFile| file_view(f)),
            t == task@,
            key_inputs(t, walks@, t.inputs.len() as int) == Ok::<Seq<(Seq<char>, Option<Seq<u8>>)>, CacheErrorView>(all),
            sorted_firsts(fs, all),
            h@ == before_files + files_writes(fs.take(i as int)),
            forall|j: int| 0 <= j < i ==> (#[trigger] fs[j]).1 is Some,
    {
        feed_path(&mut h, files[i].path.as_str());
        match &files[i].content {
            Err(_) => {
                let e = CacheError::ReadInput { path: files[i].path.clone() };
                proof {
                    let p = fs[i as int].0;
                    assert(fs[i as int] == (p, None::<Seq<u8>>));
                    assert(first_with(all, fs[i as int].0) == Some(fs[i as int]));
                    assert forall|q: Seq<char>| #[trigger] first_with(all, q) == Some((q, None::<Seq<u8>>)) implies path_le(p, q) by {
                        let j = choose|j: int| 0 <= j < fs.len() && fs[j].0 == q;
                        assert(first_with(all, fs[j].0) == Some(fs[j]));
                        if j < i {
                            assert(fs[j].1 is Some);
                        } else if j > i {
                            assert(path_lt(fs[i as int].0, fs[j].0));
                        } else {
                            lemma_path_le_total(p, p);
                        }
                    }
                    assert(!(first_with(all, p) matches Some(f) ==> f.1 is Some));
                }
                return Err(e);
            },
            Ok(c) => {
                feed_bytes(&mut h, c);
                proof {
                    assert(fs.take(i + 1).drop_last() =~= fs.take(i as int));
                    assert(fs.take(i + 1).last() == fs[i as int]);
                    assert(fs[i as int].1 == Some(c@));
                    assert(h@ =~= before_files + files_writes(fs.take(i + 1)));
                }
            },
        }
    }
    proof {
        assert(fs.take(fs.len() as int) =~= fs);
        assert(h@ == key_writes(t, fs));
        assert forall|p: Seq<char>| #[trigger] first_with(all, p) matches Some(f) ==> f.1 is Some by {
            if first_with(all, p) is Some {
                let j = choose|j: int| 0 <= j < fs.len() && fs[j].0 == p;
                assert(first_with(all, fs[j].0) == Some(fs[j]));
            }
        }
    }
    let n = h.finish();
    Ok(hex_digits(n, 16))
}


/// Every character of `hex_text(n, k)` is a hexadecimal digit.
proof fn lemma_hex_text_digits(n: nat, k: nat)
    ensures
        hex_text(n, k).len() == k,
        forall|i: int| 0 <= i < k ==> hex_digit_chars().contains(#[trigger] hex_text(n, k)[i]),
    decreases k,
{
    reveal_strlit("0123456789abcdef");
    if k > 0 {
        lemma_hex_text_digits(n / 16, (k - 1) as nat);
        let d = (n % 16) as int;
        assert(hex_text(n, k)[k - 1] == hex_digit_chars()[d]);
        assert forall|i: int| 0 <= i < k implies hex_digit_chars().contains(#[trigger] hex_text(n, k)[i]) by {
            if i < k - 1 {
                assert(hex_text(n, k)[i] == hex_text(n / 16, (k - 1) as nat)[i]);
            } else {
                assert(hex_text(n, k)[i] == hex_digit_chars()[d]);
            }
        }
    }
}

/// No hexadecimal digit is whitespace.
proof fn lemma_hex_digits_not_ws(c: char)
    requires
        hex_digit_chars().contains(c),
    ensures
        !is_ws(c),
{
    reveal_strlit("0123456789abcdef");
    let i = choose|i: int| 0 <= i < hex_digit_chars().len() && hex_digit_chars()[i] == c;
    assert(('0' as u32) == 48 && ('9' as u32) == 57 && ('a' as u32) == 97 && ('f' as u32) == 102);
    assert(hex_digit_chars() =~= seq!['0', '1', '2', '3', '4', '5', '6', '7', '8', '9', 'a', 'b', 'c', 'd', 'e', 'f']);
    assert(48 <= (c as u32) <= 57 || 97 <= (c as u32) <= 102) by {
        assert(('1' as u32) == 49 && ('2' as u32) == 50 && ('3' as u32) == 51 && ('4' as u32) == 52);
        assert(('5' as u32) == 53 && ('6' as u32) == 54 && ('7' as u32) == 55 && ('8' as u32) == 56);
        assert(('b' as u32) == 98 && ('c' as u32) == 99 && ('d' as u32) == 100 && ('e' as u32) == 101);
    }
}

/// Law: a recorded key read back as it was written is fresh while the
/// outputs exist: a key has no surrounding whitespace for trimming to
/// remove, so `is_fresh(Some(k), Some(k), true)` holds of every key `k`.
pub proof fn law_recorded_key_reads_back(t: TaskView, fs: Seq<(Seq<char>, Option<Seq<u8>>)>)
    ensures
        trim(key_text(t, fs)) == key_text(t, fs),
{
    let k = key_text(t, fs);
    lemma_hex_text_digits(DefaultHasher::spec_finish(key_writes(t, fs)) as nat, 16);
    assert(hex_digit_chars().contains(k[0]));
    lemma_hex_digits_not_ws(k[0]);
    assert(trim_start(k) == k);
    assert(hex_digit_chars().contains(k.last()));
    lemma_hex_digits_not_ws(k.last());
    assert(trim_end(k) == k);
}

// ---------------------------------------------------------------------------
// The values of a task's variables go into its key.

proof fn lemma_env_writes_same(m1: Map<Seq<char>, Seq<char>>, m2: Map<Seq<char>, Seq<char>>, names: Seq<Seq<char>>)
    requires
        forall|i: int| 0 <= i < names.len() ==> m1[#[trigger] names[i]] == m2[names[i]],
    ensures
        env_writes(m1, names) == env_writes(m2, names),
    decreases names.len(),
{
    if names.len() > 0 {
        assert forall|i: int| 0 <= i < names.drop_last().len() implies m1[#[trigger] names.drop_last()[i]]
            == m2[names.drop_last()[i]] by {
            assert(names.drop_last()[i] == names[i]);
        }
        lemma_env_writes_same(m1, m2, names.drop_last());
        assert(m1[names.last()] == m2[names.last()]);
    }
}

/// The writes of the variables `names` of `m` hold, somewhere, the writes of
/// the name `names[q]` directly followed by those of its value; and, for a
/// map `m2` that agrees with `m` on every other name, the writes for `m2`
/// are the same but for that value's writes.
proof fn lemma_env_writes_split(
    m1: Map<Seq<char>, Seq<char>>,
    m2: Map<Seq<char>, Seq<char>>,
    names: Seq<Seq<char>>,
    q: int,
) -> (r: (Seq<Seq<u8>>, Seq<Seq<u8>>))
    requires
        0 <= q < names.len(),
        forall|i: int| 0 <= i < names.len() && i != q ==> m1[#[trigger] names[i]] == m2[names[i]],
    ensures
        env_writes(m1, names) == r.0 + text_hash_writes(names[q]) + text_hash_writes(m1[names[q]]) + r.1,
        env_writes(m2, names) == r.0 + text_hash_writes(names[q]) + text_hash_writes(m2[names[q]]) + r.1,
    decreases names.len(),
{
    let d = names.drop_last();
    if q == names.len() - 1 {
        assert forall|i: int| 0 <= i < d.len() implies m1[#[trigger] d[i]] == m2[d[i]] by {
            assert(d[i] == names[i]);
        }
        lemma_env_writes_same(m1, m2, d);
        (env_writes(m1, d), Seq::empty())
    } else {
        assert forall|i: int| 0 <= i < d.len() && i != q implies m1[#[trigger] d[i]] == m2[d[i]] by {
            assert(d[i] == names[i]);
        }
        let (p, t) = lemma_env_writes_split(m1, m2, d, q);
        assert(d[q] == names[q]);
        let last = names.last();
        assert(m1[last] == m2[last]) by {
            assert(names[names.len() - 1] == last);
        }
        let extra = text_hash_writes(last) + text_hash_writes(m1[last]);
        assert(env_writes(m1, names) =~= p + text_hash_writes(names[q]) + text_hash_writes(m1[names[q]]) + (t + extra));
        assert(env_writes(m2, names) =~= p + text_hash_writes(names[q]) + text_hash_writes(m2[names[q]]) + (t + extra));
        (p, t + extra)
    }
}

/// Law: a task's key takes in the value of every variable of its
/// environment, not only its name: the writes the key hashes hold the
/// writes of each variable's name directly followed by those of its value.
pub proof fn law_key_writes_hold_each_variable(t: TaskView, fs: Seq<(Seq<char>, Option<Seq<u8>>)>, name: Seq<char>)
    requires
        t.env.dom().finite(),
        t.env.contains_key(name),
    ensures
        exists|i: int|
            0 <= i && i + text_hash_writes(name).len() + text_hash_writes(t.env[name]).len() <= key_writes(t, fs).len()
                && #[trigger] key_writes(t, fs).subrange(
                i,
                i + text_hash_writes(name).len() + text_hash_writes(t.env[name]).len(),
            ) == text_hash_writes(name) + text_hash_writes(t.env[name]),
{
    let m = t.env;
    let names = env_names(m);
    lemma_sorted_names(m.dom());
    assert(names.to_set().contains(name));
    let q = choose|q: int| 0 <= q < names.len() && names[q] == name;
    let (p, s) = lemma_env_writes_split(m, m, names, q);
    let pre = text_hash_writes(t.cmd) + p;
    let post = s + texts_writes(sorted_texts(t.inputs)) + texts_writes(sorted_texts(t.outputs)) + texts_writes(
        sorted_texts(t.ignore),
    ) + files_writes(fs);
    let mid = text_hash_writes(name) + text_hash_writes(m[name]);
    let w = key_writes(t, fs);
    assert(w =~= pre + mid + post);
    let i = pre.len() as int;
    assert(w.subrange(i, i + mid.len()) =~= mid);
    assert(mid.len() == text_hash_writes(name).len() + text_hash_writes(t.env[name]).len());
    assert(i + text_hash_writes(name).len() + text_hash_writes(t.env[name]).len() <= key_writes(t, fs).len());
    assert(key_writes(t, fs).subrange(i, i + text_hash_writes(name).len() + text_hash_writes(t.env[name]).len())
        == text_hash_writes(name) + text_hash_writes(t.env[name]));
}

/// Law: changing the value of one variable changes what the key hashes:
/// two tasks that differ only in that value, whose writes differ, have
/// different key writes (the key is the hasher's result over them), so a
/// key stored before the change no longer reads as fresh.
pub proof fn law_key_depends_on_env_values(
    t1: TaskView,
    t2: TaskView,
    fs: Seq<(Seq<char>, Option<Seq<u8>>)>,
    name: Seq<char>,
)
    requires
        t1.env.dom().finite(),
        t1.env.contains_key(name),
        t2.env == t1.env.insert(name, t2.env[name]),
        text_hash_writes(t1.env[name]) != text_hash_writes(t2.env[name]),
        t1.cmd == t2.cmd,
        t1.inputs == t2.inputs,
        t1.outputs == t2.outputs,
        t1.ignore == t2.ignore,
    ensures
        key_writes(t1, fs) != key_writes(t2, fs),
{
    let m1 = t1.env;
    let m2 = t2.env;
    assert(m1.dom() =~= m2.dom());
    let names = env_names(m1);
    assert(env_names(m2) == names);
    lemma_sorted_names(m1.dom());
    assert(names.to_set().contains(name));
    let q = choose|q: int| 0 <= q < names.len() && names[q] == name;
    assert forall|i: int| 0 <= i < names.len() && i != q implies m1[#[trigger] names[i]] == m2[names[i]] by {
        assert(names[i] != names[q]);
    }
    let (p, s) = lemma_env_writes_split(m1, m2, names, q);
    let a = text_hash_writes(t1.cmd) + p + text_hash_writes(name);
    let b = s + texts_writes(sorted_texts(t1.inputs)) + texts_writes(sorted_texts(t1.outputs)) + texts_writes(
        sorted_texts(t1.ignore),
    ) + files_writes(fs);
    assert(key_writes(t1, fs) =~= a + text_hash_writes(m1[name]) + b);
    assert(key_writes(t2, fs) =~= a + text_hash_writes(m2[name]) + b);
    lemma_middle_differs(a, text_hash_writes(m1[name]), b, text_hash_writes(m2[name]));
}

} // verus!
