//! The command line, and the choices the program makes from it: which
//! tasks a specifier selects and how a plan is shown.
use vstd::prelude::*;

use crate::error::decimal_text;
use crate::task_id::{contains_colon, has_colon, id_text, parse_id, TaskId};
use crate::tasks::{has_key, task_key, TaskMap};

verus! {

/// What the program was asked to do.
#[derive(Debug, Clone)]
pub enum Command {
    /// Run the tasks a specifier selects (all when there is none).
    Run { task: Option<String>, dry_run: bool },
    /// List the tasks.
    List,
}

/// The command line: the configuration file and the command.
#[derive(Debug, Clone)]
pub struct Cli {
    pub config: String,
    pub command: Command,
}

/// The program, with its command line.
#[derive(Debug, Clone)]
pub struct App {
    cli: Cli,
}

/// The ids of a list of task ids.
pub open spec fn ids_of(v: Seq<TaskId>) -> Seq<(Seq<char>, Seq<char>)> {
    v.map_values(|t: TaskId| t@)
}

/// The ids of the tasks `ts`, in order, that `keep` accepts.
pub open spec fn keys_where(ts: Seq<crate::tasks::Task>, keep: spec_fn((Seq<char>, Seq<char>)) -> bool) -> Seq<(Seq<char>, Seq<char>)> {
    ts.map_values(|t: crate::tasks::Task| task_key(t)).filter(keep)
}

impl App {
    /// The program for a parsed command line.
    pub fn new(cli: Cli) -> (r: App)
        ensures
            r.cli() == cli,
    {
        App { cli }
    }

    /// The command line.
    pub closed spec fn cli(&self) -> Cli {
        self.cli
    }

    /// The command line.
    pub fn command_line(&self) -> (r: &Cli)
        ensures
            *r == self.cli(),
    {
        &self.cli
    }

    /// The tasks a specifier selects, in the order of the task map: a
    /// `project:task` specifier selects that task, a bare name every task
    /// with that name, and none every task.
    pub fn resolve_task_ids(&self, registry: &TaskMap, spec: Option<&str>) -> (r: Result<Vec<TaskId>, String>)
        ensures
            match spec {
                None => r matches Ok(v) && ids_of(v@) == keys_where(registry@, |k: (Seq<char>, Seq<char>)| true),
                Some(s) => if has_colon(s@) {
                    match parse_id(s@) {
                        None => r matches Err(m) && m@ == "Invalid task specifier: "@ + s@,
                        Some(id) => if has_key(registry@, id) {
                            r matches Ok(v) && ids_of(v@) == seq![id]
                        } else {
                            r matches Err(m) && m@ == "Task "@ + id_text(id) + " not found"@
                        },
                    }
                } else {
                    let found = keys_where(registry@, |k: (Seq<char>, Seq<char>)| k.1 == s@);
                    if found.len() == 0 {
                        r matches Err(m) && m@ == "Task "@ + s@ + " not found"@
                    } else {
                        r matches Ok(v) && ids_of(v@) == found
                    }
                },
            },
    {
        let all = registry.keys();
        let ghost ts = registry@;
        match spec {
            Some(s) => {
                if contains_colon(s) {
                    match TaskId::parse(s) {
                        None => Err(String::from_str("Invalid task specifier: ").concat(s)),
                        Some(id) => {
                            if registry.contains_key(&id) {
                                let mut v: Vec<TaskId> = Vec::new();
                                v.push(id);
                                proof {
                                    assert(ids_of(v@) =~= seq![id@]);
                                }
                                Ok(v)
                            } else {
                                Err(String::from_str("Task ").concat(id.to_string().as_str()).concat(" not found"))
                            }
                        },
                    }
                } else {
                    let name = String::from_str(s);
                    let ghost keep = |k: (Seq<char>, Seq<char>)| k.1 == s@;
                    let ghost keys = ts.map_values(|t: crate::tasks::Task| task_key(t));
                    let mut v: Vec<TaskId> = Vec::new();
                    for i in 0..all.len()
                        invariant
                            ts == registry@,
                            keys == ts.map_values(|t: crate::tasks::Task| task_key(t)),
                            keep == (|k: (Seq<char>, Seq<char>)| k.1 == s@),
                            name@ == s@,
                            all@.len() == ts.len(),
                            forall|j: int| 0 <= j < all@.len() ==> (#[trigger] all@[j])@ == task_key(ts[j]),
                            ids_of(v@) == keys.take(i as int).filter(keep),
                    {
                        let ghost before = ids_of(v@);
                        proof {
                            reveal(Seq::filter);
                            assert(keys.take(i + 1).drop_last() =~= keys.take(i as int));
                            assert(keys.take(i + 1).last() == all@[i as int]@);
                        }
                        if all[i].has_task_name(&name) {
                            v.push(all[i].clone());
                            proof {
                                assert(ids_of(v@) =~= before.push(all@[i as int]@));
                            }
                        } else {
                            proof {
                                assert(ids_of(v@) =~= before);
                            }
                        }
                    }
                    proof {
                        assert(keys.take(all@.len() as int) =~= keys);
                    }
                    if v.len() == 0 {
                        Err(String::from_str("Task ").concat(s).concat(" not found"))
                    } else {
                        Ok(v)
                    }
                }
            },
            None => {
                proof {
                    let keep = |k: (Seq<char>, Seq<char>)| true;
                    let keys = ts.map_values(|t: crate::tasks::Task| task_key(t));
                    assert(keys.filter(keep) =~= keys) by {
                        lemma_filter_all(keys, keep);
                    }
                    assert(ids_of(all@) =~= keys);
                }
                Ok(all)
            },
        }
    }
}

/// Filtering with a test every element passes keeps the sequence.
proof fn lemma_filter_all(s: Seq<(Seq<char>, Seq<char>)>, keep: spec_fn((Seq<char>, Seq<char>)) -> bool)
    requires
        forall|x: (Seq<char>, Seq<char>)| #[trigger] keep(x),
    ensures
        s.filter(keep) == s,
    decreases s.len(),
{
    reveal(Seq::filter);
    if s.len() > 0 {
        lemma_filter_all(s.drop_last(), keep);
        assert(s.drop_last().push(s.last()) =~= s);
    }
}

/// The line of task `t` in a level of a plan: `└──` for the last task of
/// the level, `├──` before it.
pub open spec fn plan_task_line(t: (Seq<char>, Seq<char>), last: bool) -> Seq<char> {
    if last {
        "    └── "@ + id_text(t)
    } else {
        "    ├── "@ + id_text(t)
    }
}

/// The lines that show a plan: a heading, then for each level its number
/// and its tasks, with an arrow between levels, and an empty line at the end.
pub open spec fn plan_text(levels: Seq<Seq<(Seq<char>, Seq<char>)>>) -> Seq<Seq<char>> {
    seq!["\nExecution plan:"@] + plan_levels_text(levels, levels.len() as int) + seq![Seq::<char>::empty()]
}

/// The lines of the first `k` levels of a plan.
pub open spec fn plan_levels_text(levels: Seq<Seq<(Seq<char>, Seq<char>)>>, k: int) -> Seq<Seq<char>>
    decreases k,
{
    if k <= 0 {
        Seq::empty()
    } else {
        plan_levels_text(levels, k - 1) + level_text(levels, k - 1)
    }
}

/// The lines of level `i`: its heading, its tasks, and an arrow unless it
/// is the last level.
pub open spec fn level_text(levels: Seq<Seq<(Seq<char>, Seq<char>)>>, i: int) -> Seq<Seq<char>> {
    let level = levels[i];
    seq!["  Level "@ + crate::error::decimal((i + 1) as nat) + " (parallel):"@] + Seq::new(
        level.len(),
        |j: int| plan_task_line(level[j], j + 1 == level.len()),
    ) + if i + 1 < levels.len() {
        seq!["         ↓"@]
    } else {
        Seq::empty()
    }
}

/// The ids of each level of a plan.
pub open spec fn level_ids(levels: Seq<Vec<TaskId>>) -> Seq<Seq<(Seq<char>, Seq<char>)>> {
    levels.map_values(|l: Vec<TaskId>| ids_of(l@))
}

/// The lines that show a plan of task levels.
pub fn plan_lines(levels: &Vec<Vec<TaskId>>) -> (r: Vec<String>)
    ensures
        r@.map_values(|s: String| s@) == plan_text(level_ids(levels@)),
{
    let ghost lv = level_ids(levels@);
    let mut r: Vec<String> = Vec::new();
    r.push(String::from_str("\nExecution plan:"));
    for i in 0..levels.len()
        invariant
            lv == level_ids(levels@),
            r@.map_values(|s: String| s@) == seq!["\nExecution plan:"@] + plan_levels_text(lv, i as int),
    {
        let level = &levels[i];
        let ghost start = r@.map_values(|s: String| s@);
        let n: u64 = (i + 1) as u64;
        r.push(String::from_str("  Level ").concat(decimal_text(n).as_str()).concat(" (parallel):"));
        let ghost head = r@.map_values(|s: String| s@);
        proof {
            assert(head =~= start.push("  Level "@ + crate::error::decimal((i + 1) as nat) + " (parallel):"@));
        }
        for j in 0..level.len()
            invariant
                head == start.push("  Level "@ + crate::error::decimal((i + 1) as nat) + " (parallel):"@),
                start == seq!["\nExecution plan:"@] + plan_levels_text(lv, i as int),
                lv == level_ids(levels@),
                i < levels@.len(),
                *level == levels@[i as int],
                head.len() <= r@.len(),
                r@.map_values(|s: String| s@) == head + Seq::new(
                    j as nat,
                    |q: int| plan_task_line(ids_of(level@)[q], q + 1 == level@.len()),
                ),
        {
            let line = if j + 1 == level.len() {
                String::from_str("    └── ").concat(level[j].to_string().as_str())
            } else {
                String::from_str("    ├── ").concat(level[j].to_string().as_str())
            };
            let ghost before = r@.map_values(|s: String| s@);
            r.push(line);
            proof {
                assert(ids_of(level@)[j as int] == level@[j as int]@);
                assert(r@.map_values(|s: String| s@) =~= before.push(line@));
                assert(r@.map_values(|s: String| s@) =~= head + Seq::new(
                    (j + 1) as nat,
                    |q: int| plan_task_line(ids_of(level@)[q], q + 1 == level@.len()),
                ));
            }
        }
        let ghost body = r@.map_values(|s: String| s@);
        if i + 1 < levels.len() {
            r.push(String::from_str("         ↓"));
        }
        proof {
            assert(lv[i as int] == ids_of(level@));
            let tasks = Seq::new(
                level@.len(),
                |q: int| plan_task_line(ids_of(level@)[q], q + 1 == level@.len()),
            );
            assert(level_text(lv, i as int) =~= seq!["  Level "@ + crate::error::decimal((i + 1) as nat) + " (parallel):"@] + tasks + if i + 1 < lv.len() {
                seq!["         ↓"@]
            } else {
                Seq::empty()
            });
            assert(body =~= start + seq!["  Level "@ + crate::error::decimal((i + 1) as nat) + " (parallel):"@] + tasks);
            assert(plan_levels_text(lv, i + 1) == plan_levels_text(lv, i as int) + level_text(lv, i as int));
            assert(lv.len() == levels@.len());
            if i + 1 < levels@.len() {
                assert(r@.map_values(|s: String| s@) =~= body.push("         ↓"@));
            } else {
                assert(r@.map_values(|s: String| s@) =~= body);
            }
            assert(r@.map_values(|s: String| s@) =~= seq!["\nExecution plan:"@] + plan_levels_text(lv, i + 1));
        }
    }
    r.push(String::new());
    proof {
        assert(r@.map_values(|s: String| s@) =~= plan_text(lv));
    }
    r
}

/// Why a plan could not be shown: no task was selected.
pub fn no_tasks_error() -> (r: String)
    ensures
        r@ == "No tasks found for the given specifier"@,
{
    String::from_str("No tasks found for the given specifier")
}

} // verus!
