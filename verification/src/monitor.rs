//! What the run loop keeps track of while tasks run: the state of each task
//! that was spawned, the errors and warnings reported, and when the loop
//! ends (and whether every task is to be killed first).
use vstd::prelude::*;

use crate::logs::{Diagnostics, ErrorCollector};
use crate::task_id::TaskId;

verus! {

/// The state of a spawned task.
#[derive(Debug, Clone, Copy, PartialEq, Eq, Structural)]
pub enum TaskState {
    Running,
    Succeeded,
    Failed,
}

/// An event of the run loop.
#[derive(Debug, Clone)]
#[allow(inconsistent_fields)]
pub enum RunEvent {
    /// The user asked to stop (Ctrl+C).
    Shutdown,
    /// A task's process was spawned.
    TaskSpawned { task_id: TaskId },
    /// A task ended successfully.
    TaskComplete { task_id: TaskId },
    /// A task failed.
    TaskFailed { task_id: TaskId },
    /// An error that does not stop the run.
    NonFatalError { task_id: Option<TaskId>, error: String },
    /// A warning.
    Warning { task_id: Option<TaskId>, message: String },
    /// Any other event (output lines, cache hits, skips, ticks, the end of
    /// the schedule): nothing to do.
    Other,
    /// Nothing more will come.
    Closed,
    /// The user interface ended.
    UiEnded,
}

/// What the loop does after an event.
#[derive(Debug, Clone, Copy, PartialEq, Eq, Structural)]
pub enum MonitorStep {
    /// Wait for the next event.
    Continue,
    /// Leave the loop.
    Stop,
    /// Send every spawned task the kill command, then leave the loop.
    KillAllAndStop,
}

/// The states of the spawned tasks and the diagnostics of a run.
#[derive(Debug, Clone)]
pub struct RunMonitor {
    tasks: Vec<(TaskId, TaskState)>,
    errors: ErrorCollector,
}

/// No two entries are for the same task.
pub open spec fn distinct_tasks(s: Seq<(TaskId, TaskState)>) -> bool {
    forall|i: int, j: int| 0 <= i < s.len() && 0 <= j < s.len() && i != j ==> s[i].0@ != s[j].0@
}

/// The state recorded for task `k`, if it was spawned.
pub open spec fn state_entry(s: Seq<(TaskId, TaskState)>, k: (Seq<char>, Seq<char>)) -> Option<TaskState> {
    if exists|i: int| 0 <= i < s.len() && s[i].0@ == k {
        Some(s[choose|i: int| 0 <= i < s.len() && s[i].0@ == k].1)
    } else {
        None
    }
}

proof fn lemma_state_entry_at(s: Seq<(TaskId, TaskState)>, i: int)
    requires
        distinct_tasks(s),
        0 <= i < s.len(),
    ensures
        state_entry(s, s[i].0@) == Some(s[i].1),
{
    let k = s[i].0@;
    assert(exists|j: int| 0 <= j < s.len() && s[j].0@ == k);
    let j = choose|j: int| 0 <= j < s.len() && s[j].0@ == k;
    assert(i == j);
}

impl RunMonitor {
    /// The state of each spawned task, by id.
    pub closed spec fn state_of(&self, k: (Seq<char>, Seq<char>)) -> Option<TaskState> {
        state_entry(self.tasks@, k)
    }

    /// The diagnostics reported so far, in order.
    pub closed spec fn diagnostics(&self) -> Seq<Diagnostics> {
        self.errors.items()
    }

    /// One entry per task.
    pub closed spec fn wf(&self) -> bool {
        distinct_tasks(self.tasks@)
    }

    /// Nothing spawned, nothing reported.
    pub fn new() -> (r: RunMonitor)
        ensures
            r.wf(),
            forall|k: (Seq<char>, Seq<char>)| #[trigger] r.state_of(k) is None,
            r.diagnostics() == Seq::<Diagnostics>::empty(),
    {
        RunMonitor { tasks: Vec::new(), errors: ErrorCollector::new() }
    }

    fn find(&self, k: &TaskId) -> (r: Option<usize>)
        ensures
            match r {
                Some(i) => i < self.tasks@.len() && self.tasks@[i as int].0@ == k@,
                None => !exists|i: int| 0 <= i < self.tasks@.len() && self.tasks@[i].0@ == k@,
            },
    {
        let mut i: usize = 0;
        while i < self.tasks.len()
            invariant
                i <= self.tasks@.len(),
                forall|a: int| 0 <= a < i ==> self.tasks@[a].0@ != k@,
            decreases self.tasks@.len() - i,
        {
            if self.tasks[i].0.same(k) {
                return Some(i);
            }
            i = i + 1;
        }
        None
    }

    /// Records the state of task `k`, replacing any earlier one.
    fn set_state(&mut self, k: &TaskId, st: TaskState)
        requires
            old(self).wf(),
        ensures
            final(self).wf(),
            final(self).state_of(k@) == Some(st),
            forall|j: (Seq<char>, Seq<char>)| j != k@ ==> #[trigger] final(self).state_of(j) == old(self).state_of(j),
            final(self).diagnostics() == old(self).diagnostics(),
    {
        let ghost s0 = self.tasks@;
        match self.find(k) {
            Some(i) => {
                let id = self.tasks[i].0.clone();
                self.tasks.set(i, (id, st));
                proof {
                    let s1 = self.tasks@;
                    assert(distinct_tasks(s1)) by {
                        assert forall|a: int, b: int| 0 <= a < s1.len() && 0 <= b < s1.len() && a != b implies s1[a].0@ != s1[b].0@ by {
                            assert(s1[a].0@ == s0[a].0@);
                            assert(s1[b].0@ == s0[b].0@);
                        }
                    }
                    lemma_state_entry_at(s1, i as int);
                    assert forall|j: (Seq<char>, Seq<char>)| j != k@ implies #[trigger] state_entry(s1, j) == state_entry(s0, j) by {
                        if exists|a: int| 0 <= a < s0.len() && s0[a].0@ == j {
                            let a = choose|a: int| 0 <= a < s0.len() && s0[a].0@ == j;
                            lemma_state_entry_at(s0, a);
                            assert(s1[a].0@ == j);
                            lemma_state_entry_at(s1, a);
                        }
                        if exists|a: int| 0 <= a < s1.len() && s1[a].0@ == j {
                            let a = choose|a: int| 0 <= a < s1.len() && s1[a].0@ == j;
                            assert(s0[a].0@ == j);
                        }
                    }
                }
            },
            None => {
                self.tasks.push((k.clone(), st));
                proof {
                    let s1 = self.tasks@;
                    assert(distinct_tasks(s1)) by {
                        assert forall|a: int, b: int| 0 <= a < s1.len() && 0 <= b < s1.len() && a != b implies s1[a].0@ != s1[b].0@ by {
                            if a < s0.len() && b < s0.len() {
                                assert(s1[a] == s0[a]);
                                assert(s1[b] == s0[b]);
                            }
                        }
                    }
                    lemma_state_entry_at(s1, s0.len() as int);
                    assert forall|j: (Seq<char>, Seq<char>)| j != k@ implies #[trigger] state_entry(s1, j) == state_entry(s0, j) by {
                        if exists|a: int| 0 <= a < s0.len() && s0[a].0@ == j {
                            let a = choose|a: int| 0 <= a < s0.len() && s0[a].0@ == j;
                            lemma_state_entry_at(s0, a);
                            assert(s1[a] == s0[a]);
                            lemma_state_entry_at(s1, a);
                        }
                        if exists|a: int| 0 <= a < s1.len() && s1[a].0@ == j {
                            let a = choose|a: int| 0 <= a < s1.len() && s1[a].0@ == j;
                            assert(a < s0.len());
                            assert(s0[a].0@ == j);
                        }
                    }
                }
            },
        }
    }

    /// The state of task `k`, if it was spawned.
    pub fn state(&self, k: &TaskId) -> (r: Option<TaskState>)
        requires
            self.wf(),
        ensures
            r == self.state_of(k@),
    {
        match self.find(k) {
            Some(i) => {
                proof {
                    lemma_state_entry_at(self.tasks@, i as int);
                }
                Some(self.tasks[i].1)
            },
            None => None,
        }
    }

    /// Handles an event: a spawned task is running; an ended task that was
    /// spawned has succeeded or failed (one never spawned is not tracked);
    /// errors and warnings are collected; a shutdown or the end of the user
    /// interface kills every task and ends the loop; the end of the events
    /// ends it too.
    pub fn handle_event(&mut self, event: RunEvent) -> (r: MonitorStep)
        requires
            old(self).wf(),
        ensures
            final(self).wf(),
            match event {
                RunEvent::TaskSpawned { task_id } => {
                    &&& r == MonitorStep::Continue
                    &&& final(self).state_of(task_id@) == Some(TaskState::Running)
                    &&& forall|j: (Seq<char>, Seq<char>)| j != task_id@ ==> #[trigger] final(self).state_of(j) == old(self).state_of(j)
                    &&& final(self).diagnostics() == old(self).diagnostics()
                },
                RunEvent::TaskComplete { task_id } => {
                    &&& r == MonitorStep::Continue
                    &&& final(self).state_of(task_id@) == if old(self).state_of(task_id@) is Some {
                        Some(TaskState::Succeeded)
                    } else {
                        None
                    }
                    &&& forall|j: (Seq<char>, Seq<char>)| j != task_id@ ==> #[trigger] final(self).state_of(j) == old(self).state_of(j)
                    &&& final(self).diagnostics() == old(self).diagnostics()
                },
                RunEvent::TaskFailed { task_id } => {
                    &&& r == MonitorStep::Continue
                    &&& final(self).state_of(task_id@) == if old(self).state_of(task_id@) is Some {
                        Some(TaskState::Failed)
                    } else {
                        None
                    }
                    &&& forall|j: (Seq<char>, Seq<char>)| j != task_id@ ==> #[trigger] final(self).state_of(j) == old(self).state_of(j)
                    &&& final(self).diagnostics() == old(self).diagnostics()
                },
                RunEvent::NonFatalError { task_id, error } => {
                    &&& r == MonitorStep::Continue
                    &&& forall|j: (Seq<char>, Seq<char>)| #[trigger] final(self).state_of(j) == old(self).state_of(j)
                    &&& final(self).diagnostics() == old(self).diagnostics().push(Diagnostics::Error { task_id, error })
                },
                RunEvent::Warning { task_id, message } => {
                    &&& r == MonitorStep::Continue
                    &&& forall|j: (Seq<char>, Seq<char>)| #[trigger] final(self).state_of(j) == old(self).state_of(j)
                    &&& final(self).diagnostics() == old(self).diagnostics().push(
                        Diagnostics::Warning { task_id, message },
                    )
                },
                _ => {
                    &&& r == match event {
                        RunEvent::Shutdown => MonitorStep::KillAllAndStop,
                        RunEvent::UiEnded => MonitorStep::KillAllAndStop,
                        RunEvent::Closed => MonitorStep::Stop,
                        _ => MonitorStep::Continue,
                    }
                    &&& forall|j: (Seq<char>, Seq<char>)| #[trigger] final(self).state_of(j) == old(self).state_of(j)
                    &&& final(self).diagnostics() == old(self).diagnostics()
                },
            },
    {
        match event {
            RunEvent::Shutdown => MonitorStep::KillAllAndStop,
            RunEvent::UiEnded => MonitorStep::KillAllAndStop,
            RunEvent::Closed => MonitorStep::Stop,
            RunEvent::Other => MonitorStep::Continue,
            RunEvent::TaskSpawned { task_id } => {
                self.set_state(&task_id, TaskState::Running);
                MonitorStep::Continue
            },
            RunEvent::TaskComplete { task_id } => {
                if self.state(&task_id).is_some() {
                    self.set_state(&task_id, TaskState::Succeeded);
                }
                MonitorStep::Continue
            },
            RunEvent::TaskFailed { task_id } => {
                if self.state(&task_id).is_some() {
                    self.set_state(&task_id, TaskState::Failed);
                }
                MonitorStep::Continue
            },
            RunEvent::NonFatalError { task_id, error } => {
                self.errors.push_error(task_id, error);
                MonitorStep::Continue
            },
            RunEvent::Warning { task_id, message } => {
                self.errors.push_warning(task_id, message);
                MonitorStep::Continue
            },
        }
    }

    /// The tasks to send the kill command to: every task that was spawned,
    /// each once.
    pub fn kill_targets(&self) -> (r: Vec<TaskId>)
        requires
            self.wf(),
        ensures
            forall|k: (Seq<char>, Seq<char>)| (exists|i: int| 0 <= i < r@.len() && #[trigger] r@[i]@ == k) <==> self.state_of(k) is Some,
            forall|i: int, j: int| 0 <= i < j < r@.len() ==> r@[i]@ != r@[j]@,
    {
        let mut r: Vec<TaskId> = Vec::new();
        for i in 0..self.tasks.len()
            invariant
                distinct_tasks(self.tasks@),
                r@.len() == i,
                forall|a: int| 0 <= a < i ==> (#[trigger] r@[a])@ == self.tasks@[a].0@,
        {
            r.push(self.tasks[i].0.clone());
        }
        proof {
            assert forall|k: (Seq<char>, Seq<char>)| (exists|i: int| 0 <= i < r@.len() && #[trigger] r@[i]@ == k) <==> self.state_of(k) is Some by {
                if exists|i: int| 0 <= i < r@.len() && #[trigger] r@[i]@ == k {
                    let i = choose|i: int| 0 <= i < r@.len() && #[trigger] r@[i]@ == k;
                    assert(self.tasks@[i].0@ == k);
                }
                if self.state_of(k) is Some {
                    let i = choose|i: int| 0 <= i < self.tasks@.len() && self.tasks@[i].0@ == k;
                    assert(r@[i]@ == k);
                }
            }
        }
        r
    }

    /// The diagnostics collected.
    pub fn errors(&self) -> (r: &ErrorCollector)
        ensures
            r.items() == self.diagnostics(),
    {
        &self.errors
    }
}

} // verus!
