//! Level-by-level scheduling decisions: which tasks are blocked by a failed
//! dependency, the status each task ends with, and the summary of a run.
//!
//! The caller runs the levels: for each task it asks `begin_task` whether
//! the task may run, checks the cache and spawns the task, and records the
//! outcome with `set_status`.
use vstd::prelude::*;

use crate::graph::{resolve_dep, resolve_dep_exec};
use crate::task_id::TaskId;
use crate::tasks::{has_key, task_key, Task, TaskMap};

verus! {

/// How a task of a run ended.
#[derive(Debug, Clone, Copy, PartialEq, Eq, Structural)]
pub enum TaskStatus {
    Success,
    Cached,
    Failed,
    Skipped,
}

/// The counts of a finished run.
#[derive(Debug, Clone, Copy, PartialEq, Eq, Structural)]
pub struct RunSummary {
    pub total: usize,
    pub successful: usize,
    pub cached: usize,
    pub failed: usize,
    pub skipped: usize,
    /// How long the run took, in milliseconds.
    pub duration_ms: u64,
}

/// The tasks to run, their levels, and the status each has reached.
#[derive(Debug, Clone)]
pub struct Scheduler {
    task_map: TaskMap,
    levels: Vec<Vec<TaskId>>,
    status: Vec<(TaskId, TaskStatus)>,
}

/// No two entries are for the same task.
pub open spec fn distinct_entries(s: Seq<(TaskId, TaskStatus)>) -> bool {
    forall|i: int, j: int| 0 <= i < s.len() && 0 <= j < s.len() && i != j ==> s[i].0@ != s[j].0@
}

/// The status recorded for task `k`, if any.
pub open spec fn status_entry(s: Seq<(TaskId, TaskStatus)>, k: (Seq<char>, Seq<char>)) -> Option<TaskStatus> {
    if exists|i: int| 0 <= i < s.len() && s[i].0@ == k {
        Some(s[choose|i: int| 0 <= i < s.len() && s[i].0@ == k].1)
    } else {
        None
    }
}

/// Whether a status stops the tasks that depend on it.
pub open spec fn blocks(st: Option<TaskStatus>) -> bool {
    st == Some(TaskStatus::Failed) || st == Some(TaskStatus::Skipped)
}

/// The number of entries of the first `k` with status `st`.
pub open spec fn count_status(s: Seq<(TaskId, TaskStatus)>, st: TaskStatus, k: int) -> nat
    decreases k,
{
    if k <= 0 {
        0
    } else {
        count_status(s, st, k - 1) + if s[k - 1].1 == st {
            1nat
        } else {
            0nat
        }
    }
}

proof fn lemma_count_status_le(s: Seq<(TaskId, TaskStatus)>, st: TaskStatus, k: int)
    requires
        0 <= k,
    ensures
        count_status(s, st, k) <= k,
    decreases k,
{
    if k > 0 {
        lemma_count_status_le(s, st, k - 1);
    }
}

proof fn lemma_status_entry_at(s: Seq<(TaskId, TaskStatus)>, i: int)
    requires
        distinct_entries(s),
        0 <= i < s.len(),
    ensures
        status_entry(s, s[i].0@) == Some(s[i].1),
{
    let k = s[i].0@;
    assert(exists|j: int| 0 <= j < s.len() && s[j].0@ == k);
    let j = choose|j: int| 0 <= j < s.len() && s[j].0@ == k;
    assert(i == j);
}

impl Scheduler {
    /// The tasks.
    pub closed spec fn tasks(&self) -> Seq<Task> {
        self.task_map@
    }

    /// The levels, in the order they run.
    pub closed spec fn level_list(&self) -> Seq<Vec<TaskId>> {
        self.levels@
    }

    /// The status recorded for task `k`, if any.
    pub closed spec fn status_of(&self, k: (Seq<char>, Seq<char>)) -> Option<TaskStatus> {
        status_entry(self.status@, k)
    }

    /// The number of tasks with a recorded status.
    pub closed spec fn recorded(&self) -> nat {
        self.status@.len()
    }

    /// The number of tasks whose recorded status is `st`.
    pub closed spec fn count_of(&self, st: TaskStatus) -> nat {
        count_status(self.status@, st, self.status@.len() as int)
    }

    /// Well formed: one status per task, and the task map is well formed.
    pub closed spec fn wf(&self) -> bool {
        &&& distinct_entries(self.status@)
        &&& self.task_map.wf()
    }

    /// Task `k` is blocked: it exists and one of its dependencies failed or
    /// was skipped.
    pub open spec fn blocked(&self, k: (Seq<char>, Seq<char>)) -> bool {
        exists|i: int, j: int|
            0 <= i < self.tasks().len() && task_key(self.tasks()[i]) == k && 0 <= j < self.tasks()[i].depends_on@.len()
                && blocks(self.status_of(resolve_dep(k.0, #[trigger] self.tasks()[i].depends_on@[j]@)))
    }

    /// A scheduler for the given tasks and levels, with nothing recorded.
    pub fn new(task_map: TaskMap, levels: Vec<Vec<TaskId>>) -> (r: Scheduler)
        requires
            task_map.wf(),
        ensures
            r.wf(),
            r.tasks() == task_map@,
            r.level_list() == levels@,
            r.recorded() == 0,
            forall|k: (Seq<char>, Seq<char>)| #[trigger] r.status_of(k) is None,
    {
        Scheduler { task_map, levels, status: Vec::new() }
    }

    /// Hands the levels over to the run that walks them, leaving none: a
    /// scheduler runs its levels once, and a second run finds nothing to
    /// run. The tasks and the recorded statuses stay as they were.
    pub fn take_levels(&mut self) -> (r: Vec<Vec<TaskId>>)
        requires
            old(self).wf(),
        ensures
            r@ == old(self).level_list(),
            final(self).level_list() == Seq::<Vec<TaskId>>::empty(),
            final(self).wf(),
            final(self).tasks() == old(self).tasks(),
            final(self).recorded() == old(self).recorded(),
            forall|k: (Seq<char>, Seq<char>)| #[trigger] final(self).status_of(k) == old(self).status_of(k),
            forall|st: TaskStatus| #[trigger] final(self).count_of(st) == old(self).count_of(st),
    {
        let mut levels: Vec<Vec<TaskId>> = Vec::new();
        std::mem::swap(&mut levels, &mut self.levels);
        levels
    }

    /// The levels, in the order they run.
    pub fn levels(&self) -> (r: &Vec<Vec<TaskId>>)
        ensures
            r@ == self.level_list(),
    {
        &self.levels
    }

    /// The tasks.
    pub fn task_map(&self) -> (r: &TaskMap)
        ensures
            r@ == self.tasks(),
    {
        &self.task_map
    }

    fn find(&self, k: &TaskId) -> (r: Option<usize>)
        requires
            distinct_entries(self.status@),
        ensures
            match r {
                Some(i) => i < self.status@.len() && self.status@[i as int].0@ == k@,
                None => !exists|i: int| 0 <= i < self.status@.len() && self.status@[i].0@ == k@,
            },
    {
        let mut i: usize = 0;
        while i < self.status.len()
            invariant
                i <= self.status@.len(),
                forall|a: int| 0 <= a < i ==> self.status@[a].0@ != k@,
            decreases self.status@.len() - i,
        {
            if self.status[i].0.same(k) {
                return Some(i);
            }
            i = i + 1;
        }
        None
    }

    /// The status recorded for a task, if any.
    pub fn status(&self, k: &TaskId) -> (r: Option<TaskStatus>)
        requires
            self.wf(),
        ensures
            r == self.status_of(k@),
    {
        match self.find(k) {
            Some(i) => {
                proof {
                    lemma_status_entry_at(self.status@, i as int);
                }
                Some(self.status[i].1)
            },
            None => None,
        }
    }

    /// Records the status of a task, replacing any earlier one.
    pub fn set_status(&mut self, k: &TaskId, st: TaskStatus)
        requires
            old(self).wf(),
        ensures
            final(self).wf(),
            final(self).tasks() == old(self).tasks(),
            final(self).level_list() == old(self).level_list(),
            final(self).status_of(k@) == Some(st),
            forall|j: (Seq<char>, Seq<char>)| j != k@ ==> #[trigger] final(self).status_of(j) == old(self).status_of(j),
            final(self).recorded() == old(self).recorded() + if old(self).status_of(k@) is Some {
                0nat
            } else {
                1nat
            },
    {
        let ghost s0 = self.status@;
        match self.find(k) {
            Some(i) => {
                let id = self.status[i].0.clone();
                self.status.set(i, (id, st));
                proof {
                    let s1 = self.status@;
                    assert(distinct_entries(s1)) by {
                        assert forall|a: int, b: int| 0 <= a < s1.len() && 0 <= b < s1.len() && a != b implies s1[a].0@ != s1[b].0@ by {
                            assert(s1[a].0@ == s0[a].0@);
                            assert(s1[b].0@ == s0[b].0@);
                        }
                    }
                    lemma_status_entry_at(s1, i as int);
                    lemma_status_entry_at(s0, i as int);
                    assert forall|j: (Seq<char>, Seq<char>)| j != k@ implies #[trigger] status_entry(s1, j) == status_entry(s0, j) by {
                        if exists|a: int| 0 <= a < s0.len() && s0[a].0@ == j {
                            let a = choose|a: int| 0 <= a < s0.len() && s0[a].0@ == j;
                            lemma_status_entry_at(s0, a);
                            assert(s1[a].0@ == j);
                            lemma_status_entry_at(s1, a);
                        }
                        if exists|a: int| 0 <= a < s1.len() && s1[a].0@ == j {
                            let a = choose|a: int| 0 <= a < s1.len() && s1[a].0@ == j;
                            assert(s0[a].0@ == j);
                        }
                    }
                }
            },
            None => {
                self.status.push((k.clone(), st));
                proof {
                    let s1 = self.status@;
                    assert(distinct_entries(s1)) by {
                        assert forall|a: int, b: int| 0 <= a < s1.len() && 0 <= b < s1.len() && a != b implies s1[a].0@ != s1[b].0@ by {
                            if a < s0.len() && b < s0.len() {
                                assert(s1[a] == s0[a]);
                                assert(s1[b] == s0[b]);
                            }
                        }
                    }
                    lemma_status_entry_at(s1, s0.len() as int);
                    assert forall|j: (Seq<char>, Seq<char>)| j != k@ implies #[trigger] status_entry(s1, j) == status_entry(s0, j) by {
                        if exists|a: int| 0 <= a < s0.len() && s0[a].0@ == j {
                            let a = choose|a: int| 0 <= a < s0.len() && s0[a].0@ == j;
                            lemma_status_entry_at(s0, a);
                            assert(s1[a] == s0[a]);
                            lemma_status_entry_at(s1, a);
                        }
                        if exists|a: int| 0 <= a < s1.len() && s1[a].0@ == j {
                            let a = choose|a: int| 0 <= a < s1.len() && s1[a].0@ == j;
                            assert(a < s0.len());
                            assert(s0[a].0@ == j);
                        }
                    }
                }
            },
        }
    }

    /// Whether task `k` is blocked: a direct dependency of it failed or was
    /// skipped. Skipped tasks block their dependents in turn, so a failure
    /// stops everything that depends on it, however far down.
    pub fn is_blocked(&self, k: &TaskId) -> (r: bool)
        requires
            self.wf(),
        ensures
            r == self.blocked(k@),
    {
        let i = match self.task_map.index_of(k) {
            None => {
                proof {
                    assert(!self.blocked(k@)) by {
                        if self.blocked(k@) {
                            let (a, b) = choose|a: int, b: int|
                                0 <= a < self.tasks().len() && task_key(self.tasks()[a]) == k@ && 0 <= b
                                    < self.tasks()[a].depends_on@.len() && blocks(
                                    self.status_of(resolve_dep(k@.0, #[trigger] self.tasks()[a].depends_on@[b]@)),
                                );
                            assert(has_key(self.tasks(), k@));
                        }
                    }
                }
                return false;
            },
            Some(i) => i,
        };
        let t: &Task = &self.task_map.tasks()[i];
        proof {
            assert(task_key(*t) == k@);
            assert(t.project_name@ == k@.0);
        }
        for j in 0..t.depends_on.len()
            invariant
                self.wf(),
                i < self.tasks().len(),
                *t == self.tasks()[i as int],
                task_key(*t) == k@,
                forall|b: int| 0 <= b < j ==> !blocks(self.status_of(resolve_dep(k@.0, #[trigger] t.depends_on@[b]@))),
        {
            let dep = resolve_dep_exec(&t.project_name, &t.depends_on[j]);
            let st = self.status(&dep);
            match st {
                Some(TaskStatus::Failed) | Some(TaskStatus::Skipped) => {
                    proof {
                        assert(blocks(self.status_of(resolve_dep(k@.0, t.depends_on@[j as int]@))));
                    }
                    return true;
                },
                _ => {},
            }
        }
        proof {
            if self.blocked(k@) {
                let (a, b) = choose|a: int, b: int|
                    0 <= a < self.tasks().len() && task_key(self.tasks()[a]) == k@ && 0 <= b < self.tasks()[a].depends_on@.len()
                        && blocks(self.status_of(resolve_dep(k@.0, #[trigger] self.tasks()[a].depends_on@[b]@)));
                if a != i {
                    assert(task_key(self.tasks()[a]) != task_key(self.tasks()[i as int]));
                }
            }
        }
        false
    }

    /// Decides whether task `k` may run: a blocked task is recorded as
    /// skipped and does not run; any other task may.
    pub fn begin_task(&mut self, k: &TaskId) -> (r: bool)
        requires
            old(self).wf(),
        ensures
            final(self).wf(),
            final(self).tasks() == old(self).tasks(),
            final(self).level_list() == old(self).level_list(),
            r == !old(self).blocked(k@),
            !r ==> final(self).status_of(k@) == Some(TaskStatus::Skipped),
            r ==> final(self).status_of(k@) == old(self).status_of(k@),
            forall|j: (Seq<char>, Seq<char>)| j != k@ ==> #[trigger] final(self).status_of(j) == old(self).status_of(j),
    {
        if self.is_blocked(k) {
            self.set_status(k, TaskStatus::Skipped);
            false
        } else {
            true
        }
    }

    /// Records how a task's process exited: code 0 is a success, any other
    /// code a failure.
    pub fn record_exit(&mut self, k: &TaskId, exit_code: i32)
        requires
            old(self).wf(),
        ensures
            final(self).wf(),
            final(self).tasks() == old(self).tasks(),
            final(self).level_list() == old(self).level_list(),
            final(self).status_of(k@) == Some(if exit_code == 0 {
                TaskStatus::Success
            } else {
                TaskStatus::Failed
            }),
            forall|j: (Seq<char>, Seq<char>)| j != k@ ==> #[trigger] final(self).status_of(j) == old(self).status_of(j),
    {
        let st = if exit_code == 0 {
            TaskStatus::Success
        } else {
            TaskStatus::Failed
        };
        self.set_status(k, st);
    }

    /// The counts of the run: every task with a recorded status, and how
    /// many ended each way.
    pub fn summary(&self, duration_ms: u64) -> (r: RunSummary)
        requires
            self.wf(),
        ensures
            r.total == self.recorded(),
            r.successful == self.count_of(TaskStatus::Success),
            r.cached == self.count_of(TaskStatus::Cached),
            r.failed == self.count_of(TaskStatus::Failed),
            r.skipped == self.count_of(TaskStatus::Skipped),
            r.duration_ms == duration_ms,
    {
        let mut successful: usize = 0;
        let mut cached: usize = 0;
        let mut failed: usize = 0;
        let mut skipped: usize = 0;
        let ghost s = self.status@;
        for i in 0..self.status.len()
            invariant
                s == self.status@,
                successful == count_status(s, TaskStatus::Success, i as int),
                cached == count_status(s, TaskStatus::Cached, i as int),
                failed == count_status(s, TaskStatus::Failed, i as int),
                skipped == count_status(s, TaskStatus::Skipped, i as int),
        {
            proof {
                lemma_count_status_le(s, TaskStatus::Success, i as int);
                lemma_count_status_le(s, TaskStatus::Cached, i as int);
                lemma_count_status_le(s, TaskStatus::Failed, i as int);
                lemma_count_status_le(s, TaskStatus::Skipped, i as int);
            }
            match self.status[i].1 {
                TaskStatus::Success => successful = successful + 1,
                TaskStatus::Cached => cached = cached + 1,
                TaskStatus::Failed => failed = failed + 1,
                TaskStatus::Skipped => skipped = skipped + 1,
            }
        }
        RunSummary { total: self.status.len(), successful, cached, failed, skipped, duration_ms }
    }
}

impl RunSummary {
    /// Whether the run failed: some task failed.
    pub fn has_failures(&self) -> (r: bool)
        ensures
            r == (self.failed > 0),
    {
        self.failed > 0
    }

    /// Whether every task of a non-empty run came from the cache.
    pub fn all_cached(&self) -> (r: bool)
        ensures
            r == (self.cached == self.total && self.total > 0),
    {
        self.cached == self.total && self.total > 0
    }
}

/// Where the check whether a task's outputs can come from the cache stands.
#[derive(Debug, Clone)]
pub enum CacheCheck {
    /// Not a hit: run the task.
    Miss,
    /// Ask the cache whether it holds a run saved under this key.
    AskSaved { key: String },
    /// Compute the digest of the outputs in place.
    ComputeDigest { key: String },
    /// Ask whether the outputs in place differ from those saved.
    AskHydration { key: String, digest: String },
    /// Restore the outputs saved under this key.
    Restore { key: String },
    /// A hit: the task does not run.
    Hit,
}

/// Starts the check of a task: a task that is not cached, or whose key
/// could not be computed, is a miss.
pub fn cache_check_start(cache: bool, key: Result<String, String>) -> (r: CacheCheck)
    ensures
        match key {
            Ok(k) => if cache {
                r matches CacheCheck::AskSaved { key: x } && x@ == k@
            } else {
                r is Miss
            },
            Err(_) => r is Miss,
        },
{
    if !cache {
        return CacheCheck::Miss;
    }
    match key {
        Ok(k) => CacheCheck::AskSaved { key: k },
        Err(_) => CacheCheck::Miss,
    }
}

/// Goes on once the cache said whether it holds a run under `key`.
pub fn cache_check_saved(key: String, saved: bool) -> (r: CacheCheck)
    ensures
        if saved {
            r matches CacheCheck::ComputeDigest { key: x } && x@ == key@
        } else {
            r is Miss
        },
{
    if saved {
        CacheCheck::ComputeDigest { key }
    } else {
        CacheCheck::Miss
    }
}

/// Goes on once the digest of the outputs in place is known, or could not
/// be computed (a miss).
pub fn cache_check_digest(key: String, digest: Result<String, String>) -> (r: CacheCheck)
    ensures
        match digest {
            Ok(d) => r matches CacheCheck::AskHydration { key: x, digest: y } && x@ == key@ && y@ == d@,
            Err(_) => r is Miss,
        },
{
    match digest {
        Ok(d) => CacheCheck::AskHydration { key, digest: d },
        Err(_) => CacheCheck::Miss,
    }
}

/// Goes on once the cache said whether the outputs must be brought back:
/// outputs in place are a hit, missing or changed ones are restored, and a
/// failed answer is a miss.
pub fn cache_check_hydration(key: String, need: Result<bool, String>) -> (r: CacheCheck)
    ensures
        match need {
            Ok(false) => r is Hit,
            Ok(true) => r matches CacheCheck::Restore { key: x } && x@ == key@,
            Err(_) => r is Miss,
        },
{
    match need {
        Ok(false) => CacheCheck::Hit,
        Ok(true) => CacheCheck::Restore { key },
        Err(_) => CacheCheck::Miss,
    }
}

/// Ends the check once a restore was attempted: only a restore that
/// brought the outputs back is a hit.
pub fn cache_check_restored(restored: Result<bool, String>) -> (r: CacheCheck)
    ensures
        if restored == Ok::<bool, String>(true) {
            r is Hit
        } else {
            r is Miss
        },
{
    match restored {
        Ok(true) => CacheCheck::Hit,
        _ => CacheCheck::Miss,
    }
}

/// Law: a task one of whose direct dependencies failed or was skipped is
/// blocked, so `begin_task` records it as skipped and it never runs; since
/// a skipped task blocks its own dependents in turn, one failure stops
/// every task that depends on it, however far down the chain.
pub proof fn law_failure_blocks_dependents(s: Scheduler, i: int, j: int)
    requires
        0 <= i < s.tasks().len(),
        0 <= j < s.tasks()[i].depends_on@.len(),
        blocks(s.status_of(resolve_dep(s.tasks()[i].project_name@, s.tasks()[i].depends_on@[j]@))),
    ensures
        s.blocked(task_key(s.tasks()[i])),
{
    let k = task_key(s.tasks()[i]);
    assert(k.0 == s.tasks()[i].project_name@);
    assert(0 <= i < s.tasks().len() && task_key(s.tasks()[i]) == k && 0 <= j < s.tasks()[i].depends_on@.len()
        && blocks(s.status_of(resolve_dep(k.0, s.tasks()[i].depends_on@[j]@))));
}


proof fn lemma_counts_add_up(s: Seq<(TaskId, TaskStatus)>, k: int)
    requires
        0 <= k <= s.len(),
    ensures
        count_status(s, TaskStatus::Success, k) + count_status(s, TaskStatus::Cached, k) + count_status(
            s,
            TaskStatus::Failed,
            k,
        ) + count_status(s, TaskStatus::Skipped, k) == k,
    decreases k,
{
    if k > 0 {
        lemma_counts_add_up(s, k - 1);
    }
}

/// Law: the counts of a run's summary add up: every task with a recorded
/// status succeeded, came from the cache, failed or was skipped.
pub proof fn law_summary_counts_add_up(s: Scheduler)
    ensures
        s.count_of(TaskStatus::Success) + s.count_of(TaskStatus::Cached) + s.count_of(TaskStatus::Failed)
            + s.count_of(TaskStatus::Skipped) == s.recorded(),
{
    lemma_counts_add_up(s.status@, s.status@.len() as int);
}

/// The ids of the tasks of some levels, each once.
pub open spec fn level_ids(levels: Seq<Vec<TaskId>>) -> Set<(Seq<char>, Seq<char>)> {
    levels.map_values(|v: Vec<TaskId>| v@.map_values(|t: TaskId| t@)).flatten().to_set()
}

/// Law: a run's total is at most the number of distinct tasks in its
/// levels: when every task with a recorded status is one of the levels'
/// (as when the run only begins and records the tasks of its levels), the
/// statuses, one per task, are no more than those tasks.
pub proof fn law_run_total_at_most_level_tasks(s: Scheduler, levels: Seq<Vec<TaskId>>)
    requires
        s.wf(),
        forall|k: (Seq<char>, Seq<char>)| #[trigger] s.status_of(k) is Some ==> level_ids(levels).contains(k),
    ensures
        s.recorded() <= level_ids(levels).len(),
{
    let st = s.status@;
    let keys = st.map_values(|e: (TaskId, TaskStatus)| e.0@);
    assert(keys.no_duplicates()) by {
        assert forall|i: int, j: int| 0 <= i < keys.len() && 0 <= j < keys.len() && i != j implies keys[i] != keys[j] by {
            assert(st[i].0@ != st[j].0@);
        }
    }
    keys.unique_seq_to_set();
    assert(keys.to_set().subset_of(level_ids(levels))) by {
        assert forall|k: (Seq<char>, Seq<char>)| keys.to_set().contains(k) implies level_ids(levels).contains(k) by {
            let i = choose|i: int| 0 <= i < keys.len() && keys[i] == k;
            assert(st[i].0@ == k);
            assert(exists|i: int| 0 <= i < st.len() && st[i].0@ == k);
            assert(s.status_of(k) is Some);
        }
    }
    vstd::seq_lib::seq_to_set_is_finite(levels.map_values(|v: Vec<TaskId>| v@.map_values(|t: TaskId| t@)).flatten());
    vstd::set_lib::lemma_len_subset(keys.to_set(), level_ids(levels));
}

} // verus!
