//! Loading a configuration into tasks and a graph, and choosing the tasks a
//! command line names.
use vstd::prelude::*;
use vstd::relations::sorted_by;

use crate::config::{config_tasks, FyrerConfig};
use crate::error::{decimal, decimal_text, GraphError, GraphErrorView};
use crate::graph::{
    deps_acyclic, deps_resolve, id_dep_problem, id_dep_slot, id_leads_to_cycle, lemma_acyclic_by_ids, lemma_deps_resolve,
    lemma_leads_to_cycle_by_ids, levels_match, requested_nodes, GraphModel, TaskGraph,
};
use crate::sort::{ids_of, lemma_same_multiset, sort_ids, sort_strings, text_le};
use crate::strings::views;
use crate::task_id::{contains_colon, has_colon, id_text, parse_id, TaskId};
use crate::tasks::{has_key, task_key, task_keys, tasks_map, Task, TaskMap, TaskView};

verus! {

/// Texts joined with `, `.
pub open spec fn join_comma(s: Seq<Seq<char>>) -> Seq<char>
    decreases s.len(),
{
    if s.len() == 0 {
        Seq::empty()
    } else if s.len() == 1 {
        s[0]
    } else {
        join_comma(s.drop_last()) + ", "@ + s.last()
    }
}

/// The line of step `k` of a plan (counted from one): `step k: ` and the
/// ids of the level's tasks joined with `, `.
pub open spec fn step_line(k: nat, level: Seq<(TaskId, Vec<TaskId>)>) -> Seq<char> {
    "step "@ + decimal(k) + ": "@ + join_comma(level.map_values(|e: (TaskId, Vec<TaskId>)| id_text(e.0@)))
}

/// The tasks of a configuration together with their dependency graph.
#[derive(Debug, Clone)]
pub struct Runner {
    task_map: TaskMap,
    task_graph: TaskGraph,
}

/// `v` lists, without repeats and sorted by their text, exactly the ids `pred` accepts.
pub open spec fn lists_exactly(v: Seq<TaskId>, pred: spec_fn((Seq<char>, Seq<char>)) -> bool) -> bool {
    &&& ids_of(v).no_duplicates()
    &&& forall|k: (Seq<char>, Seq<char>)| ids_of(v).contains(k) <==> pred(k)
    &&& sorted_by(ids_of(v), crate::sort::id_le())
}

/// The project names of a listing.
pub open spec fn project_names(r: Seq<(String, Vec<String>)>) -> Seq<Seq<char>> {
    views(r.map_values(|e: (String, Vec<String>)| e.0))
}

/// What resolving `spec` among tasks `ts` gives: every task for no
/// specifier; the one task a valid `project:task` names, an error if it
/// names none or is malformed; every task with a bare name, or an error if
/// there is none. Lists are sorted by text, without repeats.
pub open spec fn resolved(ts: Seq<Task>, spec: Option<&str>, r: Result<Vec<TaskId>, GraphError>) -> bool {
    match spec {
        None => r matches Ok(v) && lists_exactly(v@, |k: (Seq<char>, Seq<char>)| has_key(ts, k)),
        Some(s) => if has_colon(s@) {
            match parse_id(s@) {
                None => r matches Err(e) && e@ == (GraphErrorView::InvalidTaskId { dependency: s@, task: s@ }),
                Some(id) => if has_key(ts, id) {
                    r matches Ok(v) && ids_of(v@) == seq![id]
                } else {
                    r matches Err(e) && e@ == GraphErrorView::TaskNotFound(s@)
                },
            }
        } else if exists|k: (Seq<char>, Seq<char>)| has_key(ts, k) && k.1 == s@ {
            r matches Ok(v) && lists_exactly(v@, |k: (Seq<char>, Seq<char>)| has_key(ts, k) && k.1 == s@)
        } else {
            r matches Err(e) && e@ == GraphErrorView::TaskNotFound(s@)
        },
    }
}

/// The ids of tasks with unique ids are unique.
proof fn lemma_keys_distinct(ts: Seq<Task>, ids: Seq<TaskId>)
    requires
        crate::tasks::tasks_wf(ts),
        ids.len() == ts.len(),
        forall|j: int| 0 <= j < ids.len() ==> (#[trigger] ids[j])@ == task_key(ts[j]),
    ensures
        ids_of(ids).no_duplicates(),
{
    assert forall|a: int, b: int| 0 <= a < ids.len() && 0 <= b < ids.len() && a != b implies ids_of(ids)[a] != ids_of(ids)[b] by {
        if a < b {
            assert(task_key(ts[a]) != task_key(ts[b]));
        } else {
            assert(task_key(ts[b]) != task_key(ts[a]));
        }
    }
}

/// Resolves a task specifier into task ids: none selects every task, a
/// `project:task` specifier selects that one task, and a bare name selects
/// every task with that name. Lists come sorted by their text.
pub fn resolve_in(task_map: &TaskMap, spec: Option<&str>) -> (r: Result<Vec<TaskId>, GraphError>)
    requires
        task_map.wf(),
    ensures
        resolved(task_map@, spec, r),
{
    match spec {
        None => {
            let all = task_map.keys();
            let ghost ts = task_map@;
            proof {
                lemma_keys_distinct(task_map@, all@);
            }
            let sorted = sort_ids(all);
            proof {
                lemma_same_multiset(ids_of(all@), ids_of(sorted@));
                assert forall|k: (Seq<char>, Seq<char>)| ids_of(sorted@).contains(k) <==> has_key(ts, k) by {
                    if has_key(ts, k) {
                        let i = choose|i: int| 0 <= i < ts.len() && task_key(ts[i]) == k;
                        assert(ids_of(all@)[i] == k);
                    }
                    if ids_of(all@).contains(k) {
                        let i = choose|i: int| 0 <= i < ids_of(all@).len() && ids_of(all@)[i] == k;
                        assert(task_key(ts[i]) == k);
                    }
                }
            }
            Ok(sorted)
        },
        Some(s) => {
            if contains_colon(s) {
                match TaskId::parse(s) {
                    None => {
                        let e = GraphError::InvalidTaskId { dependency: String::from_str(s), task: String::from_str(s) };
                        Err(e)
                    },
                    Some(id) => {
                        if !task_map.contains_key(&id) {
                            return Err(GraphError::TaskNotFound(String::from_str(s)));
                        }
                        let mut v: Vec<TaskId> = Vec::new();
                        v.push(id);
                        proof {
                            assert(ids_of(v@) =~= seq![id@]);
                        }
                        Ok(v)
                    },
                }
            } else {
                let name = String::from_str(s);
                let all = task_map.keys();
                let ghost ts = task_map@;
                let mut matching: Vec<TaskId> = Vec::new();
                let ghost mut from: Seq<int> = Seq::empty();
                for i in 0..all.len()
                    invariant
                        ts == task_map@,
                        all@.len() == ts.len(),
                        forall|j: int| 0 <= j < all@.len() ==> (#[trigger] all@[j])@ == task_key(ts[j]),
                        matching@.len() == from.len(),
                        forall|a: int| 0 <= a < from.len() ==> 0 <= #[trigger] from[a] < i && matching@[a]@ == all@[from[a]]@,
                        forall|a: int, b: int| 0 <= a < b < from.len() ==> from[a] < from[b],
                        forall|j: int| 0 <= j < i && (#[trigger] all@[j])@.1 == name@ ==> from.contains(j),
                        forall|a: int| 0 <= a < from.len() ==> (#[trigger] matching@[a])@.1 == name@,
                {
                    if all[i].has_task_name(&name) {
                        matching.push(all[i].clone());
                        proof {
                            let old_from = from;
                            from = from.push(i as int);
                            assert forall|j: int| 0 <= j < i + 1 && (#[trigger] all@[j])@.1 == name@ implies from.contains(j) by {
                                if j == i {
                                    assert(from[old_from.len() as int] == j);
                                } else {
                                    let a = choose|a: int| 0 <= a < old_from.len() && old_from[a] == j;
                                    assert(from[a] == j);
                                }
                            }
                        }
                    }
                }
                if matching.len() == 0 {
                    proof {
                        assert forall|k: (Seq<char>, Seq<char>)| !(has_key(ts, k) && k.1 == s@) by {
                            if has_key(ts, k) && k.1 == s@ {
                                let i = choose|i: int| 0 <= i < ts.len() && task_key(ts[i]) == k;
                                assert(all@[i]@ == k);
                                assert(from.contains(i));
                            }
                        }
                    }
                    return Err(GraphError::TaskNotFound(name));
                }
                proof {
                    let k0 = all@[from[0]]@;
                    assert(task_key(ts[from[0]]) == k0);
                    assert(has_key(ts, k0) && k0.1 == s@);
                    lemma_keys_distinct(task_map@, all@);
                    assert(ids_of(matching@).no_duplicates()) by {
                        assert forall|a: int, b: int| 0 <= a < ids_of(matching@).len() && 0 <= b < ids_of(matching@).len() && a != b
                            implies ids_of(matching@)[a] != ids_of(matching@)[b] by {
                            assert(from[a] != from[b]);
                            assert(ids_of(all@)[from[a]] != ids_of(all@)[from[b]]);
                        }
                    }
                }
                let sorted = sort_ids(matching);
                proof {
                    lemma_same_multiset(ids_of(matching@), ids_of(sorted@));
                    assert forall|k: (Seq<char>, Seq<char>)|
                        ids_of(sorted@).contains(k) <==> (has_key(ts, k) && k.1 == s@) by {
                        if has_key(ts, k) && k.1 == s@ {
                            let i = choose|i: int| 0 <= i < ts.len() && task_key(ts[i]) == k;
                            assert(all@[i]@ == k);
                            assert(from.contains(i));
                            let a = choose|a: int| 0 <= a < from.len() && from[a] == i;
                            assert(ids_of(matching@)[a] == k);
                        }
                        if ids_of(matching@).contains(k) {
                            let a = choose|a: int| 0 <= a < ids_of(matching@).len() && ids_of(matching@)[a] == k;
                            assert(task_key(ts[from[a]]) == k);
                        }
                    }
                }
                Ok(sorted)
            }
        },
    }
}


/// The message of a failed resolution in the configuration's terms.
pub open spec fn resolve_message(e: GraphErrorView) -> Seq<char> {
    match e {
        GraphErrorView::InvalidTaskId { dependency, .. } => "Invalid task specifier '"@ + dependency
            + "'. Expected format 'project:task'."@,
        GraphErrorView::TaskNotFound(s) => if has_colon(s) {
            "Task '"@ + s + "' not found in configuration."@
        } else {
            "No tasks found with name '"@ + s + "' in configuration."@
        },
        _ => Seq::empty(),
    }
}

fn resolve_error_text(e: &GraphError) -> (r: String)
    ensures
        r@ == resolve_message(e@),
{
    match e {
        GraphError::InvalidTaskId { dependency, .. } => String::from_str("Invalid task specifier '").concat(
            dependency.as_str(),
        ).concat("'. Expected format 'project:task'."),
        GraphError::TaskNotFound(s) => {
            if contains_colon(s.as_str()) {
                String::from_str("Task '").concat(s.as_str()).concat("' not found in configuration.")
            } else {
                String::from_str("No tasks found with name '").concat(s.as_str()).concat("' in configuration.")
            }
        },
        _ => String::new(),
    }
}

impl TaskMap {
    /// Resolves a task specifier into task ids, as `resolve_in` does, with
    /// errors told in the configuration's terms.
    pub fn resolve(&self, spec: Option<&str>) -> (r: Result<Vec<TaskId>, String>)
        requires
            self.wf(),
        ensures
            match r {
                Ok(v) => resolved(self@, spec, Ok::<Vec<TaskId>, GraphError>(v)),
                Err(m) => exists|e: GraphError| resolved(self@, spec, Err::<Vec<TaskId>, GraphError>(e)) && m@ == resolve_message(e@),
            },
    {
        match resolve_in(self, spec) {
            Ok(v) => Ok(v),
            Err(e) => {
                let m = resolve_error_text(&e);
                proof {
                    assert(resolved(self@, spec, Err::<Vec<TaskId>, GraphError>(e)));
                }
                Err(m)
            },
        }
    }
}

impl Runner {
    /// The tasks, in the order of the configuration.
    pub closed spec fn tasks(&self) -> Seq<Task> {
        self.task_map@
    }

    /// The dependency graph.
    pub closed spec fn graph(&self) -> GraphModel {
        self.task_graph@
    }

    /// The task map and the graph agree.
    pub closed spec fn wf(&self) -> bool {
        &&& self.task_map.wf()
        &&& self.task_graph@.wf()
        &&& self.task_graph@.ids == task_keys(self.task_map@)
    }

    /// Builds the tasks of a configuration and checks their graph. `env_files`
    /// holds the text of each project's `.env` file, or `None`. It fails when
    /// a dependency points at its own task or at no task (naming one such
    /// dependency), or else when tasks depend on each other in a cycle
    /// (naming a task that lies on a cycle or depends on one).
    pub fn from_config(config: &FyrerConfig, env_files: &Vec<Option<String>>) -> (r: Result<Runner, GraphError>)
        requires
            config.envs_wf(),
            env_files@.len() == config.projects@.len(),
        ensures
            ({
                let m = config_tasks(*config, env_files@, config.projects@.len() as int);
                &&& r is Ok <==> deps_resolve(m) && deps_acyclic(m)
                &&& r matches Ok(runner) ==> {
                    &&& runner.wf()
                    &&& tasks_map(runner.tasks()) == m
                    &&& runner.graph().acyclic()
                }
                &&& r matches Err(e) ==> {
                    ||| exists|k: (Seq<char>, Seq<char>), j: int|
                        id_dep_slot(m, k, j) && #[trigger] id_dep_problem(m, k, j) == Some(e@)
                    ||| deps_resolve(m) && exists|k: (Seq<char>, Seq<char>)|
                        m.contains_key(k) && id_leads_to_cycle(m, k) && e@ == GraphErrorView::CycleDetected(
                            crate::task_id::id_text(k),
                        )
                }
            }),
    {
        let task_map = config.create_task_map(env_files);
        let ghost ts = task_map@;
        proof {
            lemma_deps_resolve(ts);
        }
        let task_graph = match TaskGraph::new(&task_map) {
            Ok(g) => g,
            Err(e) => {
                proof {
                    let (i, j) = choose|i: int, j: int|
                        #![trigger crate::graph::dep_problem(ts, i, j)]
                        crate::graph::dep_slot(ts, i, j) && crate::graph::dep_problem(ts, i, j) == Some(e@)
                            && forall|i2: int, j2: int|
                            crate::graph::dep_slot(ts, i2, j2) && (i2 < i || (i2 == i && j2 < j))
                                ==> (#[trigger] crate::graph::dep_problem(ts, i2, j2)) is None;
                    crate::graph::lemma_slot_matches(ts, i, j);
                }
                return Err(e);
            },
        };
        proof {
            lemma_acyclic_by_ids(task_graph@, ts);
        }
        match task_graph.validate() {
            Ok(()) => {},
            Err(e) => {
                proof {
                    let i = choose|i: int|
                        0 <= i < task_graph@.ids.len() && e@ == GraphErrorView::CycleDetected(
                            crate::task_id::id_text(task_graph@.ids[i]),
                        ) && crate::graph::leads_to_cycle(task_graph@, i);
                    crate::tasks::lemma_tasks_map_at(ts, i);
                    lemma_leads_to_cycle_by_ids(task_graph@, ts, i);
                }
                return Err(e);
            },
        }
        Ok(Runner { task_map, task_graph })
    }

    /// The tasks.
    pub fn task_map(&self) -> (r: &TaskMap)
        ensures
            r@ == self.tasks(),
    {
        &self.task_map
    }

    /// Resolves a task specifier into task ids: none selects every task, a
    /// `project:task` specifier selects that one task, and a bare name selects
    /// every task with that name. Lists come sorted by their text.
    pub fn resolve(&self, spec: Option<&str>) -> (r: Result<Vec<TaskId>, GraphError>)
        requires
            self.wf(),
        ensures
            resolved(self.tasks(), spec, r),
    {
        resolve_in(&self.task_map, spec)
    }

    /// The execution plan of the given tasks: levels of tasks that can run
    /// together, each task with its dependencies.
    pub fn orders(&self, tasks: &[TaskId]) -> (r: Result<Vec<Vec<(TaskId, Vec<TaskId>)>>, GraphError>)
        requires
            self.wf(),
        ensures
            r is Err <==> exists|t: int| 0 <= t < tasks@.len() && !self.graph().ids.contains(#[trigger] tasks@[t]@),
            r matches Err(e) ==> exists|t: int|
                0 <= t < tasks@.len() && !self.graph().ids.contains(#[trigger] tasks@[t]@) && e@
                    == GraphErrorView::TaskNotFound(crate::task_id::id_text(tasks@[t]@)),
            r matches Ok(levels) ==> levels_match(
                self.graph(),
                self.graph().closure(requested_nodes(self.graph(), tasks@)),
                levels@,
            ),
    {
        self.task_graph.get_orders(tasks)
    }

    /// The plan of the given tasks as it is shown: one line per level,
    /// `step k: ` and the ids of its tasks joined with `, `.
    pub fn plan(&self, tasks: &[TaskId]) -> (r: Result<Vec<String>, GraphError>)
        requires
            self.wf(),
        ensures
            r is Err <==> exists|t: int| 0 <= t < tasks@.len() && !self.graph().ids.contains(#[trigger] tasks@[t]@),
            r matches Err(e) ==> exists|t: int|
                0 <= t < tasks@.len() && !self.graph().ids.contains(#[trigger] tasks@[t]@) && e@
                    == GraphErrorView::TaskNotFound(crate::task_id::id_text(tasks@[t]@)),
            r matches Ok(lines) ==> exists|levels: Seq<Vec<(TaskId, Vec<TaskId>)>>|
                {
                    &&& levels_match(self.graph(), self.graph().closure(requested_nodes(self.graph(), tasks@)), levels)
                    &&& lines@.len() == levels.len()
                    &&& forall|k: int| 0 <= k < levels.len() ==> (#[trigger] lines@[k])@ == step_line((k + 1) as nat, levels[k]@)
                },
    {
        let levels = match self.orders(tasks) {
            Ok(levels) => levels,
            Err(e) => return Err(e),
        };
        let mut lines: Vec<String> = Vec::new();
        for k in 0..levels.len()
            invariant
                lines@.len() == k,
                forall|q: int| 0 <= q < k ==> (#[trigger] lines@[q])@ == step_line((q + 1) as nat, levels@[q]@),
        {
            let level = &levels[k];
            let ghost ids = level@.map_values(|e: (TaskId, Vec<TaskId>)| id_text(e.0@));
            let mut joined = String::new();
            proof {
                reveal_strlit("");
                assert(ids.take(0) =~= Seq::<Seq<char>>::empty());
            }
            for j in 0..level.len()
                invariant
                    *level == levels@[k as int],
                    ids == level@.map_values(|e: (TaskId, Vec<TaskId>)| id_text(e.0@)),
                    joined@ == join_comma(ids.take(j as int)),
            {
                let text = level[j].0.to_string();
                let ghost before = joined@;
                if j == 0 {
                    joined = text;
                } else {
                    joined = joined.concat(", ").concat(text.as_str());
                }
                proof {
                    assert(ids[j as int] == text@);
                    assert(ids.take(j + 1).drop_last() =~= ids.take(j as int));
                    assert(ids.take(j + 1).last() == ids[j as int]);
                    if j == 0 {
                        assert(ids.take(1) =~= seq![ids[0]]);
                    } else {
                        assert(joined@ =~= before + ", "@ + text@);
                    }
                }
            }
            proof {
                assert(ids.take(level@.len() as int) =~= ids);
            }
            let line = String::from_str("step ").concat(decimal_text((k + 1) as u64).as_str()).concat(": ").concat(
                joined.as_str(),
            );
            proof {
                assert(line@ =~= step_line((k + 1) as nat, level@));
            }
            lines.push(line);
        }
        proof {
            assert(levels_match(self.graph(), self.graph().closure(requested_nodes(self.graph(), tasks@)), levels@));
        }
        Ok(lines)
    }

    /// Every project and its tasks, grouped by project; projects and tasks
    /// are sorted by name.
    pub fn list(&self) -> (r: Vec<(String, Vec<String>)>)
        requires
            self.wf(),
        ensures
            sorted_by(project_names(r@), text_le()),
            project_names(r@).no_duplicates(),
            forall|p: Seq<char>|
                #![trigger project_names(r@).contains(p)]
                project_names(r@).contains(p) <==> exists|k: (Seq<char>, Seq<char>)|
                    has_key(self.tasks(), k) && k.0 == p,
            forall|i: int| 0 <= i < r@.len() ==> {
                &&& sorted_by(views((#[trigger] r@[i]).1@), text_le())
                &&& views(r@[i].1@).no_duplicates()
                &&& forall|n: Seq<char>| views(r@[i].1@).contains(n) <==> has_key(self.tasks(), (r@[i].0@, n))
            },
    {
        let ids = self.task_map.keys();
        let ghost ts = self.task_map@;
        proof {
            lemma_keys_distinct(self.task_map@, ids@);
        }
        // The distinct project names.
        let mut names: Vec<String> = Vec::new();
        let ghost mut owner: Seq<int> = Seq::empty();
        for i in 0..ids.len()
            invariant
                ts == self.task_map@,
                ids@.len() == ts.len(),
                forall|j: int| 0 <= j < ids@.len() ==> (#[trigger] ids@[j])@ == task_key(ts[j]),
                views(names@).no_duplicates(),
                owner.len() == names@.len(),
                forall|a: int| 0 <= a < names@.len() ==> 0 <= #[trigger] owner[a] < i && ids@[owner[a]]@.0 == names@[a]@,
                forall|j: int| 0 <= j < i ==> views(names@).contains((#[trigger] ids@[j])@.0),
        {
            let mut seen = false;
            let mut q: usize = 0;
            while q < names.len()
                invariant
                    q <= names@.len(),
                    i < ids@.len(),
                    seen == exists|a: int| 0 <= a < q && (#[trigger] names@[a])@ == ids@[i as int]@.0,
                decreases names@.len() - q,
            {
                if ids[i].has_project_name(&names[q]) {
                    seen = true;
                }
                q = q + 1;
            }
            let ghost old_names = names@;
            if !seen {
                names.push(String::from_str(ids[i].project_name()));
                proof {
                    assert(views(names@) =~= views(old_names).push(ids@[i as int]@.0));
                    assert(!views(old_names).contains(ids@[i as int]@.0)) by {
                        if views(old_names).contains(ids@[i as int]@.0) {
                            let a = choose|a: int| 0 <= a < views(old_names).len() && views(old_names)[a] == ids@[i as int]@.0;
                            assert(old_names[a]@ == ids@[i as int]@.0);
                        }
                    }
                    assert forall|j: int| 0 <= j < i + 1 implies views(names@).contains((#[trigger] ids@[j])@.0) by {
                        if j == i {
                            assert(views(names@)[old_names.len() as int] == ids@[j]@.0);
                        } else {
                            let a = choose|a: int| 0 <= a < views(old_names).len() && views(old_names)[a] == ids@[j]@.0;
                            assert(views(names@)[a] == ids@[j]@.0);
                        }
                    }
                    owner = owner.push(i as int);
                }
            } else {
                proof {
                    let a = choose|a: int| 0 <= a < names@.len() && (#[trigger] names@[a])@ == ids@[i as int]@.0;
                    assert(views(names@)[a] == ids@[i as int]@.0);
                }
            }
        }
        let ghost unsorted = views(names@);
        let names = sort_strings(names);
        let ghost pnames = views(names@);
        proof {
            lemma_same_multiset(unsorted, pnames);
            assert forall|p: Seq<char>| pnames.contains(p) <==> exists|k: (Seq<char>, Seq<char>)| has_key(ts, k) && k.0 == p by {
                if exists|k: (Seq<char>, Seq<char>)| has_key(ts, k) && k.0 == p {
                    let k = choose|k: (Seq<char>, Seq<char>)| has_key(ts, k) && k.0 == p;
                    let i = choose|i: int| 0 <= i < ts.len() && task_key(ts[i]) == k;
                    assert(ids@[i]@.0 == p);
                    assert(unsorted.contains(p));
                }
                if pnames.contains(p) {
                    assert(unsorted.contains(p));
                    let a = choose|a: int| 0 <= a < unsorted.len() && unsorted[a] == p;
                    let j = owner[a];
                    assert(task_key(ts[j]) == ids@[j]@);
                    assert(has_key(ts, task_key(ts[j])));
                }
            }
        }
        let mut r: Vec<(String, Vec<String>)> = Vec::new();
        for a in 0..names.len()
            invariant
                ts == self.task_map@,
                ids@.len() == ts.len(),
                forall|j: int| 0 <= j < ids@.len() ==> (#[trigger] ids@[j])@ == task_key(ts[j]),
                ids_of(ids@).no_duplicates(),
                pnames == views(names@),
                forall|p: Seq<char>| #![trigger pnames.contains(p)]
                    pnames.contains(p) <==> exists|k: (Seq<char>, Seq<char>)| has_key(ts, k) && k.0 == p,
                r@.len() == a,
                forall|b: int| 0 <= b < a ==> (#[trigger] r@[b]).0@ == pnames[b],
                forall|b: int| 0 <= b < a ==> {
                    &&& sorted_by(views((#[trigger] r@[b]).1@), text_le())
                    &&& views(r@[b].1@).no_duplicates()
                    &&& forall|n: Seq<char>| views(r@[b].1@).contains(n) <==> has_key(ts, (r@[b].0@, n))
                },
        {
            let p = &names[a];
            let mut tasks: Vec<String> = Vec::new();
            let ghost mut from: Seq<int> = Seq::empty();
            for i in 0..ids.len()
                invariant
                    ids@.len() == ts.len(),
                    forall|j: int| 0 <= j < ids@.len() ==> (#[trigger] ids@[j])@ == task_key(ts[j]),
                    tasks@.len() == from.len(),
                    forall|c: int| 0 <= c < from.len() ==> 0 <= #[trigger] from[c] < i && tasks@[c]@ == ids@[from[c]]@.1 && ids@[from[c]]@.0 == p@,
                    forall|c: int, d: int| 0 <= c < d < from.len() ==> from[c] < from[d],
                    forall|j: int| 0 <= j < i && (#[trigger] ids@[j])@.0 == p@ ==> from.contains(j),
            {
                if ids[i].has_project_name(p) {
                    tasks.push(String::from_str(ids[i].task_name()));
                    proof {
                        let old_from = from;
                        from = from.push(i as int);
                        assert forall|j: int| 0 <= j < i + 1 && (#[trigger] ids@[j])@.0 == p@ implies from.contains(j) by {
                            if j == i {
                                assert(from[old_from.len() as int] == j);
                            } else {
                                let c = choose|c: int| 0 <= c < old_from.len() && old_from[c] == j;
                                assert(from[c] == j);
                            }
                        }
                    }
                }
            }
            proof {
                assert(views(tasks@).no_duplicates()) by {
                    assert forall|c: int, d: int| 0 <= c < views(tasks@).len() && 0 <= d < views(tasks@).len() && c != d
                        implies views(tasks@)[c] != views(tasks@)[d] by {
                        assert(from[c] != from[d]);
                        assert(ids_of(ids@)[from[c]] != ids_of(ids@)[from[d]]);
                    }
                }
            }
            let sorted = sort_strings(tasks);
            proof {
                lemma_same_multiset(views(tasks@), views(sorted@));
                assert forall|n: Seq<char>| views(sorted@).contains(n) <==> has_key(ts, (p@, n)) by {
                    if has_key(ts, (p@, n)) {
                        let i = choose|i: int| 0 <= i < ts.len() && task_key(ts[i]) == (p@, n);
                        assert(ids@[i]@ == (p@, n));
                        assert(from.contains(i));
                        let c = choose|c: int| 0 <= c < from.len() && from[c] == i;
                        assert(views(tasks@)[c] == n);
                    }
                    if views(tasks@).contains(n) {
                        let c = choose|c: int| 0 <= c < views(tasks@).len() && views(tasks@)[c] == n;
                        assert(task_key(ts[from[c]]) == (p@, n));
                    }
                }
            }
            r.push((p.clone(), sorted));
        }
        proof {
            assert(project_names(r@) =~= pnames);
            assert forall|p: Seq<char>|
                #![trigger project_names(r@).contains(p)]
                project_names(r@).contains(p) <==> exists|k: (Seq<char>, Seq<char>)| has_key(self.tasks(), k) && k.0 == p by {
                assert(self.tasks() == ts);
                assert(pnames.contains(p) == project_names(r@).contains(p));
                if pnames.contains(p) {
                    let k = choose|k: (Seq<char>, Seq<char>)| has_key(ts, k) && k.0 == p;
                    assert(has_key(self.tasks(), k));
                }
            }
        }
        r
    }
}

} // verus!
