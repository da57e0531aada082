//! The run state of an interactive run and how each event changes it.
//!
//! The caller runs the event loop: it receives events, hands them to
//! `Orchestrator::handle_event`, performs the action it gets back (send a
//! kill, spawn a task again, forward a line or a key to the screen), and
//! reports the outcome of a restart with `Orchestrator::restart_result`.
use vstd::prelude::*;

use crate::task_id::TaskId;

verus! {

/// Which output stream a log line came from.
#[derive(Debug, Clone, Copy, PartialEq, Eq, Structural)]
pub enum LogStream {
    Stdout,
    Stderr,
    System,
}

/// A direction to scroll the log view.
#[derive(Debug, Clone, Copy, PartialEq, Eq, Structural)]
pub enum ScrollDirection {
    Up,
    Down,
}

/// What a running task can be told.
#[derive(Debug, Clone)]
pub enum TaskCommand {
    /// A line for the task's standard input.
    Stdin(String),
    /// Stop the task.
    Kill,
}

/// A key the user pressed, as far as the run cares.
#[derive(Debug, Clone, Copy, PartialEq, Eq, Structural)]
pub enum Key {
    Char(char),
    Up,
    Down,
    Other,
}

/// The state of a task in an interactive run.
#[derive(Debug, Clone)]
pub enum TaskStatus {
    Waiting,
    Running,
    Restarting,
    Complete,
    Failed { code: i32, error: Option<String> },
}

/// A `TaskStatus` with its texts as character sequences.
pub ghost enum StatusView {
    Waiting,
    Running,
    Restarting,
    Complete,
    Failed { code: i32, error: Option<Seq<char>> },
}

impl View for TaskStatus {
    type V = StatusView;

    open spec fn view(&self) -> StatusView {
        match self {
            TaskStatus::Waiting => StatusView::Waiting,
            TaskStatus::Running => StatusView::Running,
            TaskStatus::Restarting => StatusView::Restarting,
            TaskStatus::Complete => StatusView::Complete,
            TaskStatus::Failed { code, error } => StatusView::Failed {
                code: *code,
                error: match error {
                    Some(e) => Some(e@),
                    None => None,
                },
            },
        }
    }
}

impl TaskStatus {
    /// A copy of the status.
    pub fn copy(&self) -> (r: TaskStatus)
        ensures
            r@ == self@,
    {
        match self {
            TaskStatus::Waiting => TaskStatus::Waiting,
            TaskStatus::Running => TaskStatus::Running,
            TaskStatus::Restarting => TaskStatus::Restarting,
            TaskStatus::Complete => TaskStatus::Complete,
            TaskStatus::Failed { code, error } => TaskStatus::Failed {
                code: *code,
                error: match error {
                    Some(e) => Some(e.clone()),
                    None => None,
                },
            },
        }
    }
}

/// What happened during a run.
#[derive(Debug, Clone)]
pub enum Event {
    /// A task printed a line.
    TaskLog { task_id: TaskId, stream: LogStream, line: String },
    /// A task process was started.
    TaskSpawned { task_id: TaskId },
    /// A task exited successfully.
    TaskComplete { task_id: TaskId },
    /// A task failed or exited with an error.
    TaskFailed { task_id: TaskId, exit_code: i32, error: Option<String> },
    /// An input file of a task changed.
    FileChanged { task_id: TaskId },
    /// A key was pressed.
    KeyPress(Key),
    /// The mouse wheel turned.
    MouseScroll(ScrollDirection),
    /// Time passed; only the screen is redrawn.
    Tick,
}

/// What the caller does after an event.
#[derive(Debug, Clone)]
pub enum Action {
    /// Nothing.
    Nothing,
    /// Show a line in a task's log.
    PushLog { task_id: TaskId, line: String, stream: LogStream },
    /// Tell a task to stop.
    Kill(TaskId),
    /// Tell every listed task to stop; the run then ends.
    KillAll(Vec<TaskId>),
    /// Spawn a task again and report the outcome with `restart_result`.
    Restart(TaskId),
    /// Select the next task on the screen.
    NavigateNext,
    /// Select the previous task on the screen.
    NavigatePrevious,
    /// Scroll the log up by this many lines.
    ScrollUp(usize),
    /// Scroll the log down by this many lines.
    ScrollDown(usize),
}

/// What the run knows of one task.
#[derive(Debug, Clone)]
pub struct Slot {
    pub id: TaskId,
    pub status: TaskStatus,
    pub running: bool,
    pub pending_restart: bool,
}

/// The run state: each task's status, which tasks run, which wait to be
/// restarted, how many have finished, and whether the run should end.
#[derive(Debug, Clone)]
pub struct Orchestrator {
    task_ids: Vec<TaskId>,
    slots: Vec<Slot>,
    total_tasks: usize,
    finished: usize,
    should_quit: bool,
    auto_quit: bool,
}

/// Whether a slot for task `k` exists.
pub open spec fn has_slot(slots: Seq<Slot>, k: (Seq<char>, Seq<char>)) -> bool {
    exists|i: int| 0 <= i < slots.len() && slots[i].id@ == k
}

/// The index of the slot of task `k`.
pub open spec fn slot_index(slots: Seq<Slot>, k: (Seq<char>, Seq<char>)) -> int {
    choose|i: int| 0 <= i < slots.len() && slots[i].id@ == k
}

/// No two slots are for the same task.
pub open spec fn distinct_slots(slots: Seq<Slot>) -> bool {
    forall|i: int, j: int| 0 <= i < slots.len() && 0 <= j < slots.len() && i != j ==> slots[i].id@ != slots[j].id@
}

/// The status of task `k`; `Waiting` for a task never heard of.
pub open spec fn status_in(slots: Seq<Slot>, k: (Seq<char>, Seq<char>)) -> StatusView {
    if has_slot(slots, k) {
        slots[slot_index(slots, k)].status@
    } else {
        StatusView::Waiting
    }
}

/// Whether task `k` runs.
pub open spec fn running_in(slots: Seq<Slot>, k: (Seq<char>, Seq<char>)) -> bool {
    has_slot(slots, k) && slots[slot_index(slots, k)].running
}

/// Whether task `k` waits to be restarted.
pub open spec fn pending_in(slots: Seq<Slot>, k: (Seq<char>, Seq<char>)) -> bool {
    has_slot(slots, k) && slots[slot_index(slots, k)].pending_restart
}

proof fn lemma_slot_index(slots: Seq<Slot>, i: int)
    requires
        distinct_slots(slots),
        0 <= i < slots.len(),
    ensures
        has_slot(slots, slots[i].id@),
        slot_index(slots, slots[i].id@) == i,
{
    assert(slots[i].id@ == slots[i].id@);
}

/// Replacing slot `i` by one for the same task changes what is known of
/// that task only.
proof fn lemma_update_slot(slots: Seq<Slot>, i: int, s: Slot)
    requires
        distinct_slots(slots),
        0 <= i < slots.len(),
        s.id@ == slots[i].id@,
    ensures
        distinct_slots(slots.update(i, s)),
        forall|k: (Seq<char>, Seq<char>)| #[trigger] has_slot(slots.update(i, s), k) == has_slot(slots, k),
        status_in(slots.update(i, s), s.id@) == s.status@,
        running_in(slots.update(i, s), s.id@) == s.running,
        pending_in(slots.update(i, s), s.id@) == s.pending_restart,
        forall|k: (Seq<char>, Seq<char>)| k != s.id@ ==> {
            &&& #[trigger] status_in(slots.update(i, s), k) == status_in(slots, k)
            &&& running_in(slots.update(i, s), k) == running_in(slots, k)
            &&& pending_in(slots.update(i, s), k) == pending_in(slots, k)
        },
{
    let t = slots.update(i, s);
    assert forall|k: (Seq<char>, Seq<char>)| #[trigger] has_slot(t, k) == has_slot(slots, k) by {
        if has_slot(slots, k) {
            let j = choose|j: int| 0 <= j < slots.len() && slots[j].id@ == k;
            assert(t[j].id@ == k);
        }
        if has_slot(t, k) {
            let j = choose|j: int| 0 <= j < t.len() && t[j].id@ == k;
            assert(slots[j].id@ == k);
        }
    }
    lemma_slot_index(t, i);
    assert forall|k: (Seq<char>, Seq<char>)| k != s.id@ implies {
        &&& #[trigger] status_in(t, k) == status_in(slots, k)
        &&& running_in(t, k) == running_in(slots, k)
        &&& pending_in(t, k) == pending_in(slots, k)
    } by {
        if has_slot(slots, k) {
            let j = slot_index(slots, k);
            assert(j != i);
            lemma_slot_index(slots, j);
            lemma_slot_index(t, j);
        }
    }
}

/// Adding a slot for a new task adds what is known of that task only.
proof fn lemma_push_slot(slots: Seq<Slot>, s: Slot)
    requires
        distinct_slots(slots),
        !has_slot(slots, s.id@),
    ensures
        distinct_slots(slots.push(s)),
        has_slot(slots.push(s), s.id@),
        status_in(slots.push(s), s.id@) == s.status@,
        running_in(slots.push(s), s.id@) == s.running,
        pending_in(slots.push(s), s.id@) == s.pending_restart,
        forall|k: (Seq<char>, Seq<char>)| k != s.id@ ==> {
            &&& #[trigger] status_in(slots.push(s), k) == status_in(slots, k)
            &&& running_in(slots.push(s), k) == running_in(slots, k)
            &&& pending_in(slots.push(s), k) == pending_in(slots, k)
        },
{
    let t = slots.push(s);
    assert forall|a: int, b: int| 0 <= a < t.len() && 0 <= b < t.len() && a != b implies t[a].id@ != t[b].id@ by {
        if a == slots.len() {
            assert(slots[b].id@ != s.id@);
        } else if b == slots.len() {
            assert(slots[a].id@ != s.id@);
        }
    }
    lemma_slot_index(t, slots.len() as int);
    assert forall|k: (Seq<char>, Seq<char>)| k != s.id@ implies {
        &&& #[trigger] status_in(t, k) == status_in(slots, k)
        &&& running_in(t, k) == running_in(slots, k)
        &&& pending_in(t, k) == pending_in(slots, k)
    } by {
        if has_slot(slots, k) {
            let j = slot_index(slots, k);
            lemma_slot_index(slots, j);
            lemma_slot_index(t, j);
        }
        if has_slot(t, k) {
            let j = choose|j: int| 0 <= j < t.len() && t[j].id@ == k;
            assert(j != slots.len());
            assert(slots[j].id@ == k);
        }
    }
}

impl Orchestrator {
    /// The tasks of the run, in the order they are shown.
    pub closed spec fn ids(&self) -> Seq<TaskId> {
        self.task_ids@
    }

    /// The status of task `k`.
    pub closed spec fn status(&self, k: (Seq<char>, Seq<char>)) -> StatusView {
        status_in(self.slots@, k)
    }

    /// Whether task `k` runs.
    pub closed spec fn is_running(&self, k: (Seq<char>, Seq<char>)) -> bool {
        running_in(self.slots@, k)
    }

    /// Whether task `k` waits to be restarted.
    pub closed spec fn is_pending(&self, k: (Seq<char>, Seq<char>)) -> bool {
        pending_in(self.slots@, k)
    }

    /// The number of tasks of the run.
    pub closed spec fn total(&self) -> nat {
        self.total_tasks as nat
    }

    /// The number of tasks that finished.
    pub closed spec fn finished_count(&self) -> nat {
        self.finished as nat
    }

    /// Whether the run should end.
    pub closed spec fn quitting(&self) -> bool {
        self.should_quit
    }

    /// Whether the run ends once every task finished.
    pub closed spec fn quits_when_done(&self) -> bool {
        self.auto_quit
    }

    /// The state is well formed: one slot per task.
    pub closed spec fn wf(&self) -> bool {
        distinct_slots(self.slots@)
    }

    /// Everything but the statuses, running and pending flags of task `k` is
    /// as in `other`.
    pub open spec fn same_but(&self, other: &Orchestrator, k: (Seq<char>, Seq<char>)) -> bool {
        &&& self.ids() == other.ids()
        &&& self.total() == other.total()
        &&& self.quits_when_done() == other.quits_when_done()
        &&& forall|j: (Seq<char>, Seq<char>)| j != k ==> {
            &&& #[trigger] self.status(j) == other.status(j)
            &&& self.is_running(j) == other.is_running(j)
            &&& self.is_pending(j) == other.is_pending(j)
        }
    }

    /// A run of the given tasks, all waiting, that does not end by itself.
    pub fn new(task_ids: Vec<TaskId>) -> (r: Orchestrator)
        ensures
            r.wf(),
            r.ids() == task_ids@,
            forall|k: (Seq<char>, Seq<char>)| #[trigger] r.status(k) == StatusView::Waiting,
            forall|k: (Seq<char>, Seq<char>)| !(#[trigger] r.is_running(k)) && !r.is_pending(k),
            r.total() == task_ids@.len(),
            r.finished_count() == 0,
            !r.quitting(),
            !r.quits_when_done(),
    {
        let total_tasks = task_ids.len();
        let mut slots: Vec<Slot> = Vec::new();
        for i in 0..task_ids.len()
            invariant
                distinct_slots(slots@),
                forall|a: int| 0 <= a < slots@.len() ==> {
                    &&& (#[trigger] slots@[a]).status@ == StatusView::Waiting
                    &&& !slots@[a].running
                    &&& !slots@[a].pending_restart
                },
        {
            let mut found = false;
            let mut q: usize = 0;
            while q < slots.len()
                invariant
                    q <= slots@.len(),
                    i < task_ids@.len(),
                    found == exists|a: int| 0 <= a < q && (#[trigger] slots@[a]).id@ == task_ids@[i as int]@,
                decreases slots@.len() - q,
            {
                if slots[q].id.same(&task_ids[i]) {
                    found = true;
                }
                q = q + 1;
            }
            if !found {
                let s = Slot { id: task_ids[i].clone(), status: TaskStatus::Waiting, running: false, pending_restart: false };
                proof {
                    lemma_push_slot(slots@, s);
                }
                slots.push(s);
            }
        }
        let r = Orchestrator {
            task_ids,
            slots,
            total_tasks,
            finished: 0,
            should_quit: false,
            auto_quit: false,
        };
        proof {
            assert forall|k: (Seq<char>, Seq<char>)| #[trigger] r.status(k) == StatusView::Waiting by {
                if has_slot(r.slots@, k) {
                    let j = slot_index(r.slots@, k);
                    assert(r.slots@[j].status@ == StatusView::Waiting);
                }
            }
        }
        r
    }

    /// The same run, ending by itself once every task finished when
    /// `auto_quit` holds.
    pub fn with_auto_quit(self, auto_quit: bool) -> (r: Orchestrator)
        ensures
            r.wf() == self.wf(),
            r.ids() == self.ids(),
            forall|k: (Seq<char>, Seq<char>)| #[trigger] r.status(k) == self.status(k),
            forall|k: (Seq<char>, Seq<char>)| #[trigger] r.is_running(k) == self.is_running(k) && r.is_pending(k) == self.is_pending(k),
            r.total() == self.total(),
            r.finished_count() == self.finished_count(),
            r.quitting() == self.quitting(),
            r.quits_when_done() == auto_quit,
    {
        let mut s = self;
        s.auto_quit = auto_quit;
        s
    }

    /// Whether the run should end.
    pub fn should_quit(&self) -> (r: bool)
        ensures
            r == self.quitting(),
    {
        self.should_quit
    }

    /// The number of tasks that finished.
    pub fn finished(&self) -> (r: usize)
        ensures
            r == self.finished_count(),
    {
        self.finished
    }

    fn find(&self, k: &TaskId) -> (r: Option<usize>)
        requires
            self.wf(),
        ensures
            match r {
                Some(i) => i < self.slots@.len() && self.slots@[i as int].id@ == k@ && slot_index(self.slots@, k@) == i,
                None => !has_slot(self.slots@, k@),
            },
    {
        let mut i: usize = 0;
        while i < self.slots.len()
            invariant
                self.wf(),
                i <= self.slots@.len(),
                forall|a: int| 0 <= a < i ==> self.slots@[a].id@ != k@,
            decreases self.slots@.len() - i,
        {
            if self.slots[i].id.same(k) {
                proof {
                    lemma_slot_index(self.slots@, i as int);
                }
                return Some(i);
            }
            i = i + 1;
        }
        None
    }

    /// The slot of task `k`, made if there is none yet.
    fn slot_for(&mut self, k: &TaskId) -> (r: usize)
        requires
            old(self).wf(),
        ensures
            final(self).wf(),
            r < final(self).slots@.len(),
            final(self).slots@[r as int].id@ == k@,
            slot_index(final(self).slots@, k@) == r,
            final(self).same_but(&*old(self), k@),
            final(self).status(k@) == old(self).status(k@),
            final(self).is_running(k@) == old(self).is_running(k@),
            final(self).is_pending(k@) == old(self).is_pending(k@),
            final(self).finished == old(self).finished,
            final(self).should_quit == old(self).should_quit,
    {
        match self.find(k) {
            Some(i) => i,
            None => {
                let s = Slot { id: k.clone(), status: TaskStatus::Waiting, running: false, pending_restart: false };
                proof {
                    lemma_push_slot(self.slots@, s);
                }
                self.slots.push(s);
                proof {
                    lemma_slot_index(self.slots@, self.slots@.len() - 1);
                }
                self.slots.len() - 1
            },
        }
    }

    /// Sets what is known of the task in slot `i`.
    fn set_slot(&mut self, i: usize, status: TaskStatus, running: bool, pending: bool)
        requires
            old(self).wf(),
            i < old(self).slots@.len(),
        ensures
            final(self).wf(),
            ({
                let k = old(self).slots@[i as int].id@;
                &&& final(self).same_but(&*old(self), k)
                &&& final(self).status(k) == status@
                &&& final(self).is_running(k) == running
                &&& final(self).is_pending(k) == pending
            }),
            final(self).finished == old(self).finished,
            final(self).should_quit == old(self).should_quit,
    {
        let id = self.slots[i].id.clone();
        let s = Slot { id, status, running, pending_restart: pending };
        proof {
            lemma_update_slot(self.slots@, i as int, s);
        }
        self.slots.set(i, s);
    }

    /// Counts a finished task, and ends the run when it ends by itself and
    /// every task finished.
    fn mark_finished(&mut self)
        ensures
            final(self).finished == if old(self).finished < usize::MAX {
                (old(self).finished + 1) as usize
            } else {
                old(self).finished
            },
            final(self).should_quit == (old(self).should_quit || (old(self).auto_quit && final(self).finished
                >= old(self).total_tasks)),
            final(self).slots == old(self).slots,
            final(self).task_ids == old(self).task_ids,
            final(self).total_tasks == old(self).total_tasks,
            final(self).auto_quit == old(self).auto_quit,
    {
        if self.finished < usize::MAX {
            self.finished = self.finished + 1;
        }
        if self.auto_quit && self.finished >= self.total_tasks {
            self.should_quit = true;
        }
    }

    /// The status of every task of the run, in order; `Waiting` for a task
    /// with no news yet.
    pub fn snapshot(&self) -> (r: Vec<(TaskId, TaskStatus)>)
        requires
            self.wf(),
        ensures
            r@.len() == self.ids().len(),
            forall|i: int| 0 <= i < r@.len() ==> (#[trigger] r@[i]).0@ == self.ids()[i]@ && r@[i].1@ == self.status(
                self.ids()[i]@,
            ),
    {
        let mut r: Vec<(TaskId, TaskStatus)> = Vec::new();
        for i in 0..self.task_ids.len()
            invariant
                self.wf(),
                r@.len() == i,
                forall|a: int| 0 <= a < i ==> (#[trigger] r@[a]).0@ == self.task_ids@[a]@ && r@[a].1@ == status_in(
                    self.slots@,
                    self.task_ids@[a]@,
                ),
        {
            let id = &self.task_ids[i];
            let status = match self.find(id) {
                Some(j) => self.slots[j].status.copy(),
                None => TaskStatus::Waiting,
            };
            r.push((id.clone(), status));
        }
        r
    }
}

/// The ids of a list of task ids.
pub open spec fn id_list(v: Seq<TaskId>) -> Seq<(Seq<char>, Seq<char>)> {
    v.map_values(|t: TaskId| t@)
}

/// The view of an optional text.
pub open spec fn opt_text(o: Option<String>) -> Option<Seq<char>> {
    match o {
        Some(s) => Some(s@),
        None => None,
    }
}

impl Orchestrator {
    /// Nothing changed between `other` and `self`.
    pub open spec fn unchanged(&self, other: &Orchestrator) -> bool {
        &&& self.ids() == other.ids()
        &&& self.total() == other.total()
        &&& self.quits_when_done() == other.quits_when_done()
        &&& self.finished_count() == other.finished_count()
        &&& self.quitting() == other.quitting()
        &&& forall|j: (Seq<char>, Seq<char>)| {
            &&& #[trigger] self.status(j) == other.status(j)
            &&& self.is_running(j) == other.is_running(j)
            &&& self.is_pending(j) == other.is_pending(j)
        }
    }

    /// The finished count after one more task finished, and whether the run
    /// then ends.
    pub open spec fn counted_finish(&self, other: &Orchestrator) -> bool {
        &&& self.finished_count() == if other.finished_count() < usize::MAX {
            other.finished_count() + 1
        } else {
            other.finished_count()
        }
        &&& self.quitting() == (other.quitting() || (other.quits_when_done() && self.finished_count() >= other.total()))
    }

    /// Handles one event and says what the caller does next.
    ///
    /// A log line is passed on. A spawned task runs. A task that completes
    /// or fails stops running; if it was waiting to be restarted it is
    /// restarted, otherwise its final status is recorded and it counts as
    /// finished. A changed file of a running task that is not already
    /// waiting for a restart kills it and marks it for restart. `q` kills
    /// every running task and ends the run; `j`/down and `k`/up move the
    /// selection, `u`/`d` and the wheel scroll the log by three lines.
    pub fn handle_event(&mut self, event: Event) -> (a: Action)
        requires
            old(self).wf(),
        ensures
            final(self).wf(),
            old(self).quitting() ==> final(self).quitting(),
            old(self).finished_count() <= final(self).finished_count(),
            final(self).ids() == old(self).ids(),
            match event {
                Event::TaskLog { task_id, stream, line } => {
                    &&& final(self).unchanged(&*old(self))
                    &&& a matches Action::PushLog { task_id: t, line: l, stream: st } && t@ == task_id@ && l@ == line@ && st == stream
                },
                Event::TaskSpawned { task_id } => {
                    let k = task_id@;
                    &&& a is Nothing
                    &&& final(self).same_but(&*old(self), k)
                    &&& final(self).status(k) == StatusView::Running
                    &&& final(self).is_running(k)
                    &&& final(self).is_pending(k) == old(self).is_pending(k)
                    &&& final(self).finished_count() == old(self).finished_count()
                    &&& final(self).quitting() == old(self).quitting()
                },
                Event::TaskComplete { task_id } => {
                    let k = task_id@;
                    &&& final(self).same_but(&*old(self), k)
                    &&& !final(self).is_running(k)
                    &&& !final(self).is_pending(k)
                    &&& if old(self).is_pending(k) {
                        &&& a matches Action::Restart(t) && t@ == k
                        &&& final(self).status(k) == old(self).status(k)
                        &&& final(self).finished_count() == old(self).finished_count()
                        &&& final(self).quitting() == old(self).quitting()
                    } else {
                        &&& a is Nothing
                        &&& final(self).status(k) == StatusView::Complete
                        &&& final(self).counted_finish(&*old(self))
                    }
                },
                Event::TaskFailed { task_id, exit_code, error } => {
                    let k = task_id@;
                    &&& final(self).same_but(&*old(self), k)
                    &&& !final(self).is_running(k)
                    &&& !final(self).is_pending(k)
                    &&& if old(self).is_pending(k) {
                        &&& a matches Action::Restart(t) && t@ == k
                        &&& final(self).status(k) == old(self).status(k)
                        &&& final(self).finished_count() == old(self).finished_count()
                        &&& final(self).quitting() == old(self).quitting()
                    } else {
                        &&& a is Nothing
                        &&& final(self).status(k) == (StatusView::Failed { code: exit_code, error: opt_text(error) })
                        &&& final(self).counted_finish(&*old(self))
                    }
                },
                Event::FileChanged { task_id } => {
                    let k = task_id@;
                    if old(self).is_pending(k) || !old(self).is_running(k) {
                        a is Nothing && final(self).unchanged(&*old(self))
                    } else {
                        &&& a matches Action::Kill(t) && t@ == k
                        &&& final(self).same_but(&*old(self), k)
                        &&& final(self).status(k) == StatusView::Restarting
                        &&& final(self).is_running(k)
                        &&& final(self).is_pending(k)
                        &&& final(self).finished_count() == old(self).finished_count()
                        &&& final(self).quitting() == old(self).quitting()
                    }
                },
                Event::KeyPress(Key::Char('q')) => {
                    &&& a matches Action::KillAll(v) && forall|k: (Seq<char>, Seq<char>)|
                        id_list(v@).contains(k) <==> #[trigger] old(self).is_running(k)
                    &&& final(self).quitting()
                    &&& final(self).ids() == old(self).ids()
                    &&& final(self).total() == old(self).total()
                    &&& final(self).finished_count() == old(self).finished_count()
                    &&& forall|k: (Seq<char>, Seq<char>)| !(#[trigger] final(self).is_running(k))
                    &&& forall|k: (Seq<char>, Seq<char>)| #[trigger] final(self).status(k) == old(self).status(k)
                    &&& forall|k: (Seq<char>, Seq<char>)| #[trigger] final(self).is_pending(k) == old(self).is_pending(k)
                },
                Event::KeyPress(Key::Char('j')) | Event::KeyPress(Key::Down) =>
                    a is NavigateNext && final(self).unchanged(&*old(self)),
                Event::KeyPress(Key::Char('k')) | Event::KeyPress(Key::Up) =>
                    a is NavigatePrevious && final(self).unchanged(&*old(self)),
                Event::KeyPress(Key::Char('u')) | Event::MouseScroll(ScrollDirection::Up) =>
                    a == Action::ScrollUp(3) && final(self).unchanged(&*old(self)),
                Event::KeyPress(Key::Char('d')) | Event::MouseScroll(ScrollDirection::Down) =>
                    a == Action::ScrollDown(3) && final(self).unchanged(&*old(self)),
                _ => a is Nothing && final(self).unchanged(&*old(self)),
            },
    {
        let ghost s0 = *self;
        match event {
            Event::TaskLog { task_id, stream, line } => {
                let a = Action::PushLog { task_id, line, stream };
                proof {
                    assert(self.unchanged(&*old(self)));
                }
                a
            },
            Event::TaskSpawned { task_id } => {
                let i = self.slot_for(&task_id);
                let ghost s1 = *self;
                let pending = self.slots[i].pending_restart;
                self.set_slot(i, TaskStatus::Running, true, pending);
                proof {
                    lemma_same_but_trans(&*self, &s1, &s0, task_id@);
                }
                Action::Nothing
            },
            Event::TaskComplete { task_id } => {
                let i = self.slot_for(&task_id);
                let ghost s1 = *self;
                if self.slots[i].pending_restart {
                    let status = self.slots[i].status.copy();
                    self.set_slot(i, status, false, false);
                    proof {
                        lemma_same_but_trans(&*self, &s1, &s0, task_id@);
                    }
                    Action::Restart(task_id)
                } else {
                    self.set_slot(i, TaskStatus::Complete, false, false);
                    let ghost s2 = *self;
                    self.mark_finished();
                    proof {
                        lemma_marked_same(&*self, &s2);
                        lemma_same_but_trans(&s2, &s1, &s0, task_id@);
                        lemma_same_but_trans(&*self, &s2, &s0, task_id@);
                    }
                    Action::Nothing
                }
            },
            Event::TaskFailed { task_id, exit_code, error } => {
                let i = self.slot_for(&task_id);
                let ghost s1 = *self;
                if self.slots[i].pending_restart {
                    let status = self.slots[i].status.copy();
                    self.set_slot(i, status, false, false);
                    proof {
                        lemma_same_but_trans(&*self, &s1, &s0, task_id@);
                    }
                    Action::Restart(task_id)
                } else {
                    self.set_slot(i, TaskStatus::Failed { code: exit_code, error }, false, false);
                    let ghost s2 = *self;
                    self.mark_finished();
                    proof {
                        lemma_marked_same(&*self, &s2);
                        lemma_same_but_trans(&s2, &s1, &s0, task_id@);
                        lemma_same_but_trans(&*self, &s2, &s0, task_id@);
                    }
                    Action::Nothing
                }
            },
            Event::FileChanged { task_id } => {
                match self.find(&task_id) {
                    None => Action::Nothing,
                    Some(i) => {
                        if self.slots[i].pending_restart || !self.slots[i].running {
                            Action::Nothing
                        } else {
                            self.set_slot(i, TaskStatus::Restarting, true, true);
                            Action::Kill(task_id)
                        }
                    },
                }
            },
            Event::KeyPress(key) => {
                match key {
                    Key::Char(c) => {
                        if c == 'q' {
                            self.quit()
                        } else if c == 'j' {
                            Action::NavigateNext
                        } else if c == 'k' {
                            Action::NavigatePrevious
                        } else if c == 'u' {
                            Action::ScrollUp(3)
                        } else if c == 'd' {
                            Action::ScrollDown(3)
                        } else {
                            Action::Nothing
                        }
                    },
                    Key::Down => Action::NavigateNext,
                    Key::Up => Action::NavigatePrevious,
                    Key::Other => Action::Nothing,
                }
            },
            Event::MouseScroll(direction) => match direction {
                ScrollDirection::Up => Action::ScrollUp(3),
                ScrollDirection::Down => Action::ScrollDown(3),
            },
            Event::Tick => Action::Nothing,
        }
    }

    /// Stops every running task and ends the run.
    fn quit(&mut self) -> (a: Action)
        requires
            old(self).wf(),
        ensures
            final(self).wf(),
            a matches Action::KillAll(v) && forall|k: (Seq<char>, Seq<char>)|
                id_list(v@).contains(k) <==> #[trigger] old(self).is_running(k),
            final(self).quitting(),
            final(self).ids() == old(self).ids(),
            final(self).total() == old(self).total(),
            final(self).finished_count() == old(self).finished_count(),
            forall|k: (Seq<char>, Seq<char>)| !(#[trigger] final(self).is_running(k)),
            forall|k: (Seq<char>, Seq<char>)| #[trigger] final(self).status(k) == old(self).status(k),
            forall|k: (Seq<char>, Seq<char>)| #[trigger] final(self).is_pending(k) == old(self).is_pending(k),
    {
        let ghost old_slots = self.slots@;
        let mut killed: Vec<TaskId> = Vec::new();
        let n = self.slots.len();
        for i in 0..n
            invariant
                n == old_slots.len(),
                self.wf(),
                self.slots@.len() == old_slots.len(),
                forall|a: int| 0 <= a < self.slots@.len() ==> (#[trigger] self.slots@[a]).id@ == old_slots[a].id@
                    && self.slots@[a].status@ == old_slots[a].status@ && self.slots@[a].pending_restart
                    == old_slots[a].pending_restart,
                forall|a: int| 0 <= a < i ==> !(#[trigger] self.slots@[a]).running,
                forall|a: int| i <= a < self.slots@.len() ==> (#[trigger] self.slots@[a]).running == old_slots[a].running,
                forall|k: (Seq<char>, Seq<char>)| id_list(killed@).contains(k) <==> exists|a: int|
                    0 <= a < i && (#[trigger] old_slots[a]).id@ == k && old_slots[a].running,
                self.task_ids == old(self).task_ids,
                self.total_tasks == old(self).total_tasks,
                self.finished == old(self).finished,
        {
            if self.slots[i].running {
                let ghost before = id_list(killed@);
                killed.push(self.slots[i].id.clone());
                let status = self.slots[i].status.copy();
                let pending = self.slots[i].pending_restart;
                let id = self.slots[i].id.clone();
                proof {
                    lemma_update_slot(self.slots@, i as int, Slot { id, status, running: false, pending_restart: pending });
                    assert(id_list(killed@) =~= before.push(old_slots[i as int].id@));
                    assert forall|k: (Seq<char>, Seq<char>)| id_list(killed@).contains(k) <==> exists|a: int|
                        0 <= a < i + 1 && (#[trigger] old_slots[a]).id@ == k && old_slots[a].running by {
                        if id_list(killed@).contains(k) && k != old_slots[i as int].id@ {
                            let b = choose|b: int| 0 <= b < id_list(killed@).len() && id_list(killed@)[b] == k;
                            assert(before[b] == k);
                            assert(before.contains(k));
                            let a = choose|a: int| 0 <= a < i && (#[trigger] old_slots[a]).id@ == k && old_slots[a].running;
                            assert(0 <= a < i + 1 && old_slots[a].id@ == k && old_slots[a].running);
                        }
                        if id_list(killed@).contains(k) && k == old_slots[i as int].id@ {
                            assert(0 <= i < i + 1 && old_slots[i as int].id@ == k && old_slots[i as int].running);
                        }
                        if exists|a: int| 0 <= a < i && (#[trigger] old_slots[a]).id@ == k && old_slots[a].running {
                            let a = choose|a: int| 0 <= a < i && (#[trigger] old_slots[a]).id@ == k && old_slots[a].running;
                            assert(before.contains(k));
                            let b = choose|b: int| 0 <= b < before.len() && before[b] == k;
                            assert(id_list(killed@)[b] == k);
                        }
                        if k == old_slots[i as int].id@ {
                            assert(id_list(killed@)[before.len() as int] == k);
                        }
                    }
                }
                self.slots.set(i, Slot { id, status, running: false, pending_restart: pending });
            }
        }
        self.should_quit = true;
        proof {
            assert forall|k: (Seq<char>, Seq<char>)|
                #![trigger self.is_running(k)]
                #![trigger self.status(k)]
                #![trigger self.is_pending(k)]
                {
                &&& !self.is_running(k)
                &&& self.status(k) == old(self).status(k)
                &&& self.is_pending(k) == old(self).is_pending(k)
            } by {
                assert forall|x: (Seq<char>, Seq<char>)| #[trigger] has_slot(self.slots@, x) == has_slot(old_slots, x) by {
                    if has_slot(old_slots, x) {
                        let j = choose|j: int| 0 <= j < old_slots.len() && old_slots[j].id@ == x;
                        assert(self.slots@[j].id@ == x);
                    }
                    if has_slot(self.slots@, x) {
                        let j = choose|j: int| 0 <= j < self.slots@.len() && self.slots@[j].id@ == x;
                        assert(old_slots[j].id@ == x);
                    }
                }
                if has_slot(old_slots, k) {
                    let j = slot_index(old_slots, k);
                    lemma_slot_index(old_slots, j);
                    lemma_slot_index(self.slots@, j);
                    assert(!self.slots@[j].running);
                }
            }
            assert forall|k: (Seq<char>, Seq<char>)| id_list(killed@).contains(k) <==> #[trigger] old(self).is_running(k) by {
                if old(self).is_running(k) {
                    let j = slot_index(old_slots, k);
                    assert(old_slots[j].id@ == k && old_slots[j].running);
                }
                if exists|a: int| 0 <= a < old_slots.len() && (#[trigger] old_slots[a]).id@ == k && old_slots[a].running {
                    let a = choose|a: int| 0 <= a < old_slots.len() && (#[trigger] old_slots[a]).id@ == k && old_slots[a].running;
                    lemma_slot_index(old_slots, a);
                }
            }
        }
        Action::KillAll(killed)
    }

    /// Records how a restart went: the task runs again, or it failed, which
    /// is logged and counts it as finished.
    pub fn restart_result(&mut self, task_id: &TaskId, outcome: Result<(), String>) -> (a: Action)
        requires
            old(self).wf(),
        ensures
            final(self).wf(),
            old(self).quitting() ==> final(self).quitting(),
            old(self).finished_count() <= final(self).finished_count(),
            final(self).same_but(&*old(self), task_id@),
            final(self).is_pending(task_id@) == old(self).is_pending(task_id@),
            match outcome {
                Ok(()) => {
                    &&& a is Nothing
                    &&& final(self).status(task_id@) == StatusView::Running
                    &&& final(self).is_running(task_id@)
                    &&& final(self).finished_count() == old(self).finished_count()
                    &&& final(self).quitting() == old(self).quitting()
                },
                Err(e) => {
                    &&& a matches Action::PushLog { task_id: t, line, stream } && t@ == task_id@ && line@ == "restart failed: "@
                        + e@ && stream == LogStream::Stderr
                    &&& final(self).status(task_id@) == (StatusView::Failed { code: -1i32, error: Some(e@) })
                    &&& final(self).is_running(task_id@) == old(self).is_running(task_id@)
                    &&& final(self).counted_finish(&*old(self))
                },
            },
    {
        let ghost start = *self;
        let i = self.slot_for(task_id);
        let ghost mid = *self;
        let pending = self.slots[i].pending_restart;
        match outcome {
            Ok(()) => {
                self.set_slot(i, TaskStatus::Running, true, pending);
                proof {
                    lemma_same_but_trans(&*self, &mid, &start, task_id@);
                }
                Action::Nothing
            },
            Err(e) => {
                let running = self.slots[i].running;
                let line = String::from_str("restart failed: ").concat(e.as_str());
                self.set_slot(i, TaskStatus::Failed { code: -1, error: Some(e) }, running, pending);
                let ghost s2 = *self;
                self.mark_finished();
                proof {
                    lemma_marked_same(&*self, &s2);
                    lemma_same_but_trans(&s2, &mid, &start, task_id@);
                    lemma_same_but_trans(&*self, &s2, &start, task_id@);
                }
                Action::PushLog { task_id: task_id.clone(), line, stream: LogStream::Stderr }
            },
        }
    }
}

/// `same_but` is transitive.
proof fn lemma_same_but_trans(a: &Orchestrator, b: &Orchestrator, c: &Orchestrator, k: (Seq<char>, Seq<char>))
    requires
        a.same_but(b, k),
        b.same_but(c, k),
    ensures
        a.same_but(c, k),
{
    assert forall|j: (Seq<char>, Seq<char>)| j != k implies {
        &&& #[trigger] a.status(j) == c.status(j)
        &&& a.is_running(j) == c.is_running(j)
        &&& a.is_pending(j) == c.is_pending(j)
    } by {
        assert(a.status(j) == b.status(j));
        assert(b.status(j) == c.status(j));
    }
}

/// Counting a finished task changes no task's state.
proof fn lemma_marked_same(a: &Orchestrator, b: &Orchestrator)
    requires
        a.slots == b.slots,
        a.task_ids == b.task_ids,
        a.total_tasks == b.total_tasks,
        a.auto_quit == b.auto_quit,
    ensures
        forall|k: (Seq<char>, Seq<char>)| a.same_but(b, k),
        forall|k: (Seq<char>, Seq<char>)| #[trigger] a.status(k) == b.status(k) && a.is_running(k) == b.is_running(k)
            && a.is_pending(k) == b.is_pending(k),
{
}

} // verus!
