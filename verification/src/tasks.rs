//! Resolved tasks and the map of all tasks of a configuration.
use vstd::prelude::*;

use crate::config::RestartConfig;
use crate::env_map::EnvMap;
use crate::strings::{copy_strings, views};
use crate::task_id::TaskId;

verus! {

/// A task with everything needed to run it.
#[derive(Debug, Clone)]
pub struct Task {
    /// The project the task belongs to.
    pub project_name: String,
    /// The project's root directory, relative to the invocation directory.
    pub project_root: String,
    /// The fully resolved environment of the task.
    pub env: EnvMap,
    /// The task's name within its project.
    pub task_name: String,
    /// The shell command to run.
    pub cmd: String,
    /// Tasks that must run first: `project:task` or a bare name in this project.
    pub depends_on: Vec<String>,
    /// Glob patterns of the input files.
    pub inputs: Vec<String>,
    /// Glob patterns of the files produced.
    pub outputs: Vec<String>,
    /// Glob patterns excluded from inputs and outputs.
    pub ignore: Vec<String>,
    /// Whether a successful run may be reused.
    pub cache: bool,
    /// How and when the task is restarted.
    pub restart: RestartConfig,
}

/// A task as the contracts see it.
pub ghost struct TaskView {
    pub project_name: Seq<char>,
    pub project_root: Seq<char>,
    pub env: Map<Seq<char>, Seq<char>>,
    pub task_name: Seq<char>,
    pub cmd: Seq<char>,
    pub depends_on: Seq<Seq<char>>,
    pub inputs: Seq<Seq<char>>,
    pub outputs: Seq<Seq<char>>,
    pub ignore: Seq<Seq<char>>,
    pub cache: bool,
    pub restart: RestartConfig,
}

impl View for Task {
    type V = TaskView;

    open spec fn view(&self) -> TaskView {
        TaskView {
            project_name: self.project_name@,
            project_root: self.project_root@,
            env: self.env@,
            task_name: self.task_name@,
            cmd: self.cmd@,
            depends_on: views(self.depends_on@),
            inputs: views(self.inputs@),
            outputs: views(self.outputs@),
            ignore: views(self.ignore@),
            cache: self.cache,
            restart: self.restart,
        }
    }
}

/// The id of a task, as a pair of names.
pub open spec fn task_key(t: Task) -> (Seq<char>, Seq<char>) {
    (t.project_name@, t.task_name@)
}

impl Task {
    /// The task's id.
    pub fn id(&self) -> (r: TaskId)
        ensures
            r@ == task_key(*self),
    {
        TaskId::from_parts(self.project_name.clone(), self.task_name.clone())
    }

    /// A copy of the task.
    pub fn copy(&self) -> (r: Task)
        requires
            self.env.wf(),
        ensures
            r.env.wf(),
            r.env@ == self.env@,
            r.project_name == self.project_name,
            r.project_root == self.project_root,
            r.task_name == self.task_name,
            r.cmd == self.cmd,
            r.depends_on@ == self.depends_on@,
            r.inputs@ == self.inputs@,
            r.outputs@ == self.outputs@,
            r.ignore@ == self.ignore@,
            r.cache == self.cache,
            r.restart == self.restart,
    {
        Task {
            project_name: self.project_name.clone(),
            project_root: self.project_root.clone(),
            env: self.env.copy(),
            task_name: self.task_name.clone(),
            cmd: self.cmd.clone(),
            depends_on: copy_strings(&self.depends_on),
            inputs: copy_strings(&self.inputs),
            outputs: copy_strings(&self.outputs),
            ignore: copy_strings(&self.ignore),
            cache: self.cache,
            restart: self.restart.copy(),
        }
    }
}

/// The ids of a sequence of tasks, in order.
pub open spec fn task_keys(ts: Seq<Task>) -> Seq<(Seq<char>, Seq<char>)> {
    ts.map_values(|t: Task| task_key(t))
}

/// No two tasks share an id, and every task's environment is well formed.
pub open spec fn tasks_wf(ts: Seq<Task>) -> bool {
    &&& forall|i: int, j: int| 0 <= i < j < ts.len() ==> task_key(ts[i]) != task_key(ts[j])
    &&& forall|i: int| 0 <= i < ts.len() ==> (#[trigger] ts[i]).env.wf()
}

/// Whether some task of `ts` has the id `id`.
pub open spec fn has_key(ts: Seq<Task>, id: (Seq<char>, Seq<char>)) -> bool {
    exists|i: int| 0 <= i < ts.len() && task_key(ts[i]) == id
}

/// All tasks of a configuration, each id once, in insertion order.
#[derive(Debug, Clone)]
pub struct TaskMap {
    tasks: Vec<Task>,
}

impl View for TaskMap {
    type V = Seq<Task>;

    closed spec fn view(&self) -> Seq<Task> {
        self.tasks@
    }
}

/// The tasks of a sequence with unique ids, as a map from id to task.
pub open spec fn tasks_map(ts: Seq<Task>) -> Map<(Seq<char>, Seq<char>), TaskView> {
    Map::new(
        |k: (Seq<char>, Seq<char>)| has_key(ts, k),
        |k: (Seq<char>, Seq<char>)| ts[choose|i: int| 0 <= i < ts.len() && task_key(ts[i]) == k]@,
    )
}

/// Each task of a list with unique ids is in its map, under its id.
pub proof fn lemma_tasks_map_at(ts: Seq<Task>, i: int)
    requires
        tasks_wf(ts),
        0 <= i < ts.len(),
    ensures
        tasks_map(ts).contains_key(task_key(ts[i])),
        tasks_map(ts)[task_key(ts[i])] == ts[i]@,
{
    let k = task_key(ts[i]);
    assert(has_key(ts, k));
    let j = choose|j: int| 0 <= j < ts.len() && task_key(ts[j]) == k;
    assert(i == j);
}

impl TaskMap {
    /// The tasks by id.
    pub open spec fn map_view(&self) -> Map<(Seq<char>, Seq<char>), TaskView> {
        tasks_map(self@)
    }

    /// Well formed: ids are unique and environments are well formed.
    pub open spec fn wf(&self) -> bool {
        tasks_wf(self@)
    }

    /// An empty map.
    pub fn new() -> (r: TaskMap)
        ensures
            r.wf(),
            r@ == Seq::<Task>::empty(),
    {
        TaskMap { tasks: Vec::new() }
    }

    /// The number of tasks.
    pub fn len(&self) -> (r: usize)
        ensures
            r == self@.len(),
    {
        self.tasks.len()
    }

    /// The tasks in order.
    pub fn tasks(&self) -> (r: &Vec<Task>)
        ensures
            r@ == self@,
    {
        &self.tasks
    }

    /// The position of the task with the given id.
    pub fn index_of(&self, id: &TaskId) -> (r: Option<usize>)
        ensures
            r matches Some(i) ==> i < self@.len() && task_key(self@[i as int]) == id@,
            r is None ==> !has_key(self@, id@),
    {
        let mut i: usize = 0;
        while i < self.tasks.len()
            invariant
                i <= self@.len(),
                self@ == self.tasks@,
                forall|j: int| 0 <= j < i ==> task_key(self@[j]) != id@,
            decreases self.tasks.len() - i,
        {
            let t = &self.tasks[i];
            if id.is_named(&t.project_name, &t.task_name) {
                return Some(i);
            }
            i = i + 1;
        }
        None
    }

    /// The task with the given id.
    pub fn get(&self, id: &TaskId) -> (r: Option<&Task>)
        requires
            self.wf(),
        ensures
            r matches Some(t) ==> exists|i: int|
                0 <= i < self@.len() && self@[i] == *t && task_key(self@[i]) == id@,
            r is None ==> !has_key(self@, id@),
    {
        match self.index_of(id) {
            Some(i) => Some(&self.tasks[i]),
            None => None,
        }
    }

    /// Whether a task with the given id exists.
    pub fn contains_key(&self, id: &TaskId) -> (r: bool)
        ensures
            r == has_key(self@, id@),
    {
        self.index_of(id).is_some()
    }

    /// Adds a task, replacing the task with the same id if there is one.
    pub fn insert(&mut self, task: Task)
        requires
            old(self).wf(),
            task.env.wf(),
        ensures
            final(self).wf(),
            has_key(old(self)@, task_key(task)) ==> final(self)@.len() == old(self)@.len() && exists|i: int|
                0 <= i < old(self)@.len() && task_key(old(self)@[i]) == task_key(task) && final(self)@ == old(self)@.update(i, task),
            !has_key(old(self)@, task_key(task)) ==> final(self)@ == old(self)@.push(task),
            final(self).map_view() == old(self).map_view().insert(task_key(task), task@),
    {
        let id = task.id();
        let ghost old_ts = self@;
        let ghost k = task_key(task);
        let ghost tv = task@;
        match self.index_of(&id) {
            Some(i) => {
                self.tasks.set(i, task);
                proof {
                    let ts = self@;
                    assert(tasks_wf(ts)) by {
                        assert forall|a: int, b: int| 0 <= a < b < ts.len() implies task_key(ts[a]) != task_key(ts[b]) by {
                            assert(task_key(old_ts[a]) != task_key(old_ts[b]));
                        }
                    }
                    assert(tasks_map(ts) =~= tasks_map(old_ts).insert(k, tv)) by {
                        assert forall|key: (Seq<char>, Seq<char>)|
                            tasks_map(ts).contains_key(key) <==> tasks_map(old_ts).insert(k, tv).contains_key(key) by {
                            if has_key(ts, key) {
                                let j = choose|j: int| 0 <= j < ts.len() && task_key(ts[j]) == key;
                                if j != i {
                                    assert(task_key(old_ts[j]) == key);
                                }
                            }
                            if has_key(old_ts, key) {
                                let j = choose|j: int| 0 <= j < old_ts.len() && task_key(old_ts[j]) == key;
                                assert(task_key(ts[j]) == key);
                            }
                            if key == k {
                                assert(task_key(ts[i as int]) == key);
                            }
                        }
                        assert forall|key: (Seq<char>, Seq<char>)| #[trigger] tasks_map(ts).contains_key(key)
                            implies tasks_map(ts)[key] == tasks_map(old_ts).insert(k, tv)[key] by {
                            let j = choose|j: int| 0 <= j < ts.len() && task_key(ts[j]) == key;
                            lemma_tasks_map_at(ts, j);
                            if j != i {
                                lemma_tasks_map_at(old_ts, j);
                            }
                        }
                    }
                }
            },
            None => {
                self.tasks.push(task);
                proof {
                    let ts = self@;
                    assert(tasks_wf(ts)) by {
                        assert forall|a: int, b: int| 0 <= a < b < ts.len() implies task_key(ts[a]) != task_key(ts[b]) by {
                            if b == ts.len() - 1 {
                                if task_key(ts[a]) == task_key(ts[b]) {
                                    assert(task_key(old_ts[a]) == k);
                                }
                            }
                        }
                    }
                    assert(tasks_map(ts) =~= tasks_map(old_ts).insert(k, tv)) by {
                        assert forall|key: (Seq<char>, Seq<char>)|
                            tasks_map(ts).contains_key(key) <==> tasks_map(old_ts).insert(k, tv).contains_key(key) by {
                            if has_key(ts, key) {
                                let j = choose|j: int| 0 <= j < ts.len() && task_key(ts[j]) == key;
                                if j < old_ts.len() {
                                    assert(task_key(old_ts[j]) == key);
                                }
                            }
                            if has_key(old_ts, key) {
                                let j = choose|j: int| 0 <= j < old_ts.len() && task_key(old_ts[j]) == key;
                                assert(task_key(ts[j]) == key);
                            }
                            if key == k {
                                assert(task_key(ts[ts.len() - 1]) == key);
                            }
                        }
                        assert forall|key: (Seq<char>, Seq<char>)| #[trigger] tasks_map(ts).contains_key(key)
                            implies tasks_map(ts)[key] == tasks_map(old_ts).insert(k, tv)[key] by {
                            let j = choose|j: int| 0 <= j < ts.len() && task_key(ts[j]) == key;
                            lemma_tasks_map_at(ts, j);
                            if j < old_ts.len() {
                                lemma_tasks_map_at(old_ts, j);
                            }
                        }
                    }
                }
            },
        }
    }

    /// The ids of all tasks, in order.
    pub fn keys(&self) -> (r: Vec<TaskId>)
        ensures
            r@.len() == self@.len(),
            forall|i: int| 0 <= i < r@.len() ==> (#[trigger] r@[i])@ == task_key(self@[i]),
    {
        let mut r: Vec<TaskId> = Vec::new();
        for i in 0..self.tasks.len()
            invariant
                r@.len() == i,
                self@ == self.tasks@,
                forall|j: int| 0 <= j < i ==> (#[trigger] r@[j])@ == task_key(self@[j]),
        {
            r.push(self.tasks[i].id());
        }
        r
    }

    /// A map of the given tasks; where two share an id, the later one wins.
    pub fn from_tasks(tasks: Vec<Task>) -> (r: TaskMap)
        requires
            forall|i: int| 0 <= i < tasks@.len() ==> (#[trigger] tasks@[i]).env.wf(),
        ensures
            r.wf(),
            forall|i: int| 0 <= i < tasks@.len() ==> has_key(r@, task_key(#[trigger] tasks@[i])),
    {
        let mut r = TaskMap::new();
        let ghost all = tasks@;
        let mut rest = tasks;
        let ghost mut i: int = 0;
        while rest.len() > 0
            invariant
                r.wf(),
                0 <= i <= all.len(),
                rest@ == all.skip(i),
                forall|k: int| 0 <= k < all.len() ==> (#[trigger] all[k]).env.wf(),
                forall|k: int| 0 <= k < i ==> has_key(r@, task_key(#[trigger] all[k])),
            decreases rest@.len(),
        {
            let t = rest.remove(0);
            let ghost before = r@;
            proof {
                assert(t == all[i]);
                assert(rest@ =~= all.skip(i + 1));
            }
            r.insert(t);
            proof {
                assert forall|k: int| 0 <= k < i + 1 implies has_key(r@, task_key(#[trigger] all[k])) by {
                    if k < i {
                        let j = choose|j: int| 0 <= j < before.len() && task_key(before[j]) == task_key(all[k]);
                        assert(task_key(r@[j]) == task_key(all[k]));
                    } else {
                        if has_key(before, task_key(t)) {
                            let j = choose|j: int| 0 <= j < before.len() && task_key(before[j]) == task_key(t) && r@ == before.update(j, t);
                            assert(task_key(r@[j]) == task_key(all[k]));
                        } else {
                            assert(task_key(r@[r@.len() - 1]) == task_key(all[k]));
                        }
                    }
                }
                i = i + 1;
            }
        }
        r
    }
}

} // verus!
