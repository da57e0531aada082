//! `.env` files and the layering of environment variables.
use vstd::prelude::*;

use crate::env_map::{merge, EnvMap};
use crate::strings::{chars_of, first_index_of, lemma_first_index_of, substring, trim, trim_bounds};

verus! {

/// `l` without a final carriage return.
pub open spec fn strip_cr(l: Seq<char>) -> Seq<char> {
    if l.len() > 0 && l.last() == '\r' {
        l.drop_last()
    } else {
        l
    }
}

/// The lines of a text as `str::lines` splits it: at each `\n`, dropping a
/// `\r` just before it; a final line ending adds no empty line.
pub open spec fn text_lines(s: Seq<char>) -> Seq<Seq<char>>
    decreases s.len(),
{
    if s.len() == 0 {
        seq![]
    } else {
        let i = first_index_of(s, '\n');
        if i < s.len() {
            proof {
                lemma_first_index_of(s, '\n');
            }
            seq![strip_cr(s.take(i))] + text_lines(s.skip(i + 1))
        } else {
            seq![s]
        }
    }
}

/// The variable a line sets, if any. With `trim_line` the line is trimmed
/// first; then a blank line or one starting with `#` sets nothing, and
/// otherwise the line must hold a `=` with a non-blank name before it. Name
/// and value are trimmed.
pub open spec fn line_entry(line: Seq<char>, trim_line: bool) -> Option<(Seq<char>, Seq<char>)> {
    let t = if trim_line {
        trim(line)
    } else {
        line
    };
    if t.len() == 0 || t[0] == '#' {
        None
    } else {
        let i = first_index_of(t, '=');
        if i < t.len() && trim(t.take(i)).len() > 0 {
            Some((trim(t.take(i)), trim(t.skip(i + 1))))
        } else {
            None
        }
    }
}

/// Applies the lines in order to `m`; a later line overrides an earlier one.
pub open spec fn apply_lines(m: Map<Seq<char>, Seq<char>>, lines: Seq<Seq<char>>, trim_line: bool) -> Map<
    Seq<char>,
    Seq<char>,
>
    decreases lines.len(),
{
    if lines.len() == 0 {
        m
    } else {
        let m2 = match line_entry(lines[0], trim_line) {
            Some(e) => m.insert(e.0, e.1),
            None => m,
        };
        apply_lines(m2, lines.drop_first(), trim_line)
    }
}

/// The variables a `.env` text sets.
pub open spec fn env_text(s: Seq<char>, trim_line: bool) -> Map<Seq<char>, Seq<char>> {
    apply_lines(Map::empty(), text_lines(s), trim_line)
}

/// Position of the first `c` in `v[from..to]`, or `to` when absent.
pub(crate) fn find_char_in(v: &Vec<char>, c: char, from: usize, to: usize) -> (r: usize)
    requires
        from <= to <= v.len(),
    ensures
        from <= r <= to,
        r - from == first_index_of(v@.subrange(from as int, to as int), c),
{
    let mut i = from;
    while i < to && v[i] != c
        invariant
            from <= i <= to <= v.len(),
            forall|j: int| from <= j < i ==> v@[j] != c,
        decreases to - i,
    {
        i = i + 1;
    }
    proof {
        let sub = v@.subrange(from as int, to as int);
        crate::strings::lemma_first_index_of_unique(sub, c, (i - from) as int);
    }
    i
}

/// The variable that line `v[a..b]` sets, as positions in `v`.
fn line_bounds(v: &Vec<char>, a: usize, b: usize, trim_line: bool) -> (r: Option<(usize, usize, usize, usize)>)
    requires
        a <= b <= v.len(),
    ensures
        r is None ==> line_entry(v@.subrange(a as int, b as int), trim_line) is None,
        r matches Some(q) ==> q.0 <= q.1 <= v.len() && q.2 <= q.3 <= v.len() && line_entry(
            v@.subrange(a as int, b as int),
            trim_line,
        ) == Some((v@.subrange(q.0 as int, q.1 as int), v@.subrange(q.2 as int, q.3 as int))),
{
    let ghost line = v@.subrange(a as int, b as int);
    let (ta, tb) = if trim_line {
        trim_bounds(v, a, b)
    } else {
        (a, b)
    };
    let ghost t = v@.subrange(ta as int, tb as int);
    proof {
        if trim_line {
            assert(t == trim(line));
        } else {
            assert(t =~= line);
        }
    }
    if ta == tb || v[ta] == '#' {
        proof {
            if ta < tb {
                assert(t[0] == v@[ta as int]);
            }
        }
        return None;
    }
    let eq = find_char_in(v, '=', ta, tb);
    if eq == tb {
        return None;
    }
    let (ka, kb) = trim_bounds(v, ta, eq);
    proof {
        assert(t.take(eq - ta) =~= v@.subrange(ta as int, eq as int));
        assert(t.skip(eq - ta + 1) =~= v@.subrange(eq + 1, tb as int));
    }
    if ka == kb {
        return None;
    }
    let (va, vb) = trim_bounds(v, eq + 1, tb);
    Some((ka, kb, va, vb))
}

/// Parses `.env` text into variables, line by line.
pub(crate) fn parse_text(content: &str, trim_line: bool) -> (r: EnvMap)
    ensures
        r.wf(),
        r@ == env_text(content@, trim_line),
{
    let v = chars_of(content);
    let n = v.len();
    let mut m = EnvMap::new();
    let mut pos: usize = 0;
    proof {
        assert(v@.skip(0) =~= v@);
    }
    while pos < n
        invariant
            n == v@.len(),
            v@ == content@,
            pos <= n,
            m.wf(),
            apply_lines(m@, text_lines(v@.skip(pos as int)), trim_line) == env_text(content@, trim_line),
        decreases n - pos,
    {
        let ghost rest = v@.skip(pos as int);
        let nl = find_char_in(&v, '\n', pos, n);
        proof {
            assert(v@.subrange(pos as int, n as int) =~= rest);
            lemma_first_index_of(rest, '\n');
        }
        let mut end = nl;
        if nl < n && end > pos && v[end - 1] == '\r' {
            end = end - 1;
        }
        proof {
            let first = if nl < n {
                strip_cr(rest.take(nl - pos))
            } else {
                rest
            };
            assert(v@.subrange(pos as int, end as int) =~= first) by {
                if nl < n {
                    if nl > pos {
                        assert(rest.take(nl - pos).last() == v@[nl - 1]);
                    }
                } else {
                    assert(rest =~= v@.subrange(pos as int, n as int));
                }
            }
            assert(text_lines(rest)[0] == first);
            if nl < n {
                assert(first_index_of(rest, '\n') == nl - pos);
                assert(rest.skip(nl - pos + 1) =~= v@.skip(nl + 1));
                assert(text_lines(rest).drop_first() =~= text_lines(v@.skip(nl + 1)));
            } else {
                assert(text_lines(rest).drop_first() =~= text_lines(v@.skip(n as int)));
            }
        }
        let ghost before = m@;
        match line_bounds(&v, pos, end, trim_line) {
            Some((ka, kb, va, vb)) => {
                let key = substring(content, ka, kb);
                let value = substring(content, va, vb);
                m.insert(key, value);
            },
            None => {},
        }
        pos = if nl < n {
            nl + 1
        } else {
            n
        };
    }
    proof {
        assert(v@.skip(n as int) =~= Seq::<char>::empty());
        assert(text_lines(v@.skip(n as int)) =~= Seq::<Seq<char>>::empty());
    }
    m
}

/// Parses a `.env` text: each line is trimmed; blank lines and lines
/// starting with `#` are skipped; other lines are `NAME=value`, split at the
/// first `=`, both halves trimmed, and lines without a `=` or with a blank
/// name are ignored. A later line setting the same name wins.
pub fn parse_env(env_str: &str) -> (r: EnvMap)
    ensures
        r.wf(),
        r@ == env_text(env_str@, true),
{
    parse_text(env_str, true)
}

/// Layers the environment of a task, from lowest to highest precedence:
/// the root `env`, the project's `.env` file, the project `env`, the task's
/// `.env` file, and the task `env`. A file is given by its text, or `None`
/// where there is no file or it could not be read.
pub fn merge_envs(
    global_env: &EnvMap,
    project_env: &EnvMap,
    task_env: &EnvMap,
    project_env_file: Option<&str>,
    task_env_file: Option<&str>,
) -> (r: EnvMap)
    requires
        global_env.wf(),
        project_env.wf(),
        task_env.wf(),
    ensures
        r.wf(),
        r@ == global_env@.union_prefer_right(file_env(project_env_file)).union_prefer_right(
            project_env@,
        ).union_prefer_right(file_env(task_env_file)).union_prefer_right(task_env@),
{
    let project_file_env = match project_env_file {
        Some(text) => parse_env(text),
        None => EnvMap::new(),
    };
    let task_file_env = match task_env_file {
        Some(text) => parse_env(text),
        None => EnvMap::new(),
    };
    let merged = merge(global_env, &project_file_env);
    let merged = merge(&merged, project_env);
    let merged = merge(&merged, &task_file_env);
    merge(&merged, task_env)
}

/// The variables of an optional `.env` text; none when there is no text.
pub open spec fn file_env(text: Option<&str>) -> Map<Seq<char>, Seq<char>> {
    match text {
        Some(t) => env_text(t@, true),
        None => Map::empty(),
    }
}

/// Law: the layers of a task's environment, from lowest to highest (root
/// `env`, project `.env` file, project `env`, task `.env` file, task `env`):
/// a variable is set when some layer sets it, and takes its value from the
/// highest layer that sets it.
pub proof fn law_env_precedence(
    global_env: Map<Seq<char>, Seq<char>>,
    project_file: Map<Seq<char>, Seq<char>>,
    project_env: Map<Seq<char>, Seq<char>>,
    task_file: Map<Seq<char>, Seq<char>>,
    task_env: Map<Seq<char>, Seq<char>>,
    key: Seq<char>,
)
    ensures
        ({
            let merged = global_env.union_prefer_right(project_file).union_prefer_right(project_env).union_prefer_right(
                task_file,
            ).union_prefer_right(task_env);
            &&& merged.contains_key(key) <==> (global_env.contains_key(key) || project_file.contains_key(key)
                || project_env.contains_key(key) || task_file.contains_key(key) || task_env.contains_key(key))
            &&& task_env.contains_key(key) ==> merged[key] == task_env[key]
            &&& !task_env.contains_key(key) && task_file.contains_key(key) ==> merged[key] == task_file[key]
            &&& !task_env.contains_key(key) && !task_file.contains_key(key) && project_env.contains_key(key)
                ==> merged[key] == project_env[key]
            &&& !task_env.contains_key(key) && !task_file.contains_key(key) && !project_env.contains_key(key)
                && project_file.contains_key(key) ==> merged[key] == project_file[key]
            &&& !task_env.contains_key(key) && !task_file.contains_key(key) && !project_env.contains_key(key)
                && !project_file.contains_key(key) && global_env.contains_key(key) ==> merged[key] == global_env[key]
        }),
{
}

/// Law: a `.env` file that is missing or cannot be read (given as `None`)
/// adds nothing: the task's environment is then the root, project and task
/// `env` layered in that order.
pub proof fn law_missing_env_files_add_nothing(
    global_env: Map<Seq<char>, Seq<char>>,
    project_env: Map<Seq<char>, Seq<char>>,
    task_env: Map<Seq<char>, Seq<char>>,
)
    ensures
        global_env.union_prefer_right(file_env(None)).union_prefer_right(project_env).union_prefer_right(
            file_env(None),
        ).union_prefer_right(task_env) == global_env.union_prefer_right(project_env).union_prefer_right(task_env),
{
    assert(global_env.union_prefer_right(file_env(None)) =~= global_env);
    let m = global_env.union_prefer_right(project_env);
    assert(m.union_prefer_right(file_env(None)) =~= m);
}

} // verus!
