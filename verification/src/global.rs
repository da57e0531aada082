//! The state a run shares: the process ids of the running tasks, and
//! whether a shutdown signal arrived and with which exit code.
use vstd::prelude::*;

use crate::task_id::TaskId;

verus! {

/// The exit code reported after an interrupt (`SIGINT`).
pub const EXIT_SIGINT: i32 = 130;

/// The exit code reported after a termination request (`SIGTERM`).
pub const EXIT_SIGTERM: i32 = 143;

/// The signals that end a run.
#[derive(Debug, Clone, Copy, PartialEq, Eq, Structural)]
pub enum ShutdownSignal {
    Interrupt,
    Terminate,
}

/// The process id of each running task.
#[derive(Debug, Clone)]
pub struct PidRegistry {
    pids: Vec<(TaskId, u32)>,
}

impl View for PidRegistry {
    type V = Map<(Seq<char>, Seq<char>), u32>;

    closed spec fn view(&self) -> Map<(Seq<char>, Seq<char>), u32> {
        Map::new(
            |k: (Seq<char>, Seq<char>)| exists|i: int| 0 <= i < self.pids@.len() && self.pids@[i].0@ == k,
            |k: (Seq<char>, Seq<char>)| self.pids@[choose|i: int| 0 <= i < self.pids@.len() && self.pids@[i].0@ == k].1,
        )
    }
}

impl PidRegistry {
    /// Well formed: one entry per task.
    pub closed spec fn wf(&self) -> bool {
        forall|i: int, j: int| 0 <= i < self.pids@.len() && 0 <= j < self.pids@.len() && i != j ==> self.pids@[i].0@ != self.pids@[j].0@
    }

    /// The number of entries equals the number of tasks in the view.
    pub closed spec fn count(&self) -> nat {
        self.pids@.len()
    }

    /// An empty registry.
    pub fn new() -> (r: PidRegistry)
        ensures
            r.wf(),
            r@ == Map::<(Seq<char>, Seq<char>), u32>::empty(),
    {
        let r = PidRegistry { pids: Vec::new() };
        assert(r@ =~= Map::<(Seq<char>, Seq<char>), u32>::empty());
        r
    }

    proof fn lemma_at(&self, i: int)
        requires
            self.wf(),
            0 <= i < self.pids@.len(),
        ensures
            self@.contains_key(self.pids@[i].0@),
            self@[self.pids@[i].0@] == self.pids@[i].1,
    {
        let k = self.pids@[i].0@;
        assert(exists|j: int| 0 <= j < self.pids@.len() && self.pids@[j].0@ == k);
        let j = choose|j: int| 0 <= j < self.pids@.len() && self.pids@[j].0@ == k;
        assert(i == j);
    }

    fn position(&self, k: &TaskId) -> (r: Option<usize>)
        requires
            self.wf(),
        ensures
            match r {
                Some(i) => i < self.pids@.len() && self.pids@[i as int].0@ == k@,
                None => !self@.contains_key(k@),
            },
    {
        let mut i: usize = 0;
        while i < self.pids.len()
            invariant
                i <= self.pids@.len(),
                forall|a: int| 0 <= a < i ==> self.pids@[a].0@ != k@,
            decreases self.pids@.len() - i,
        {
            if self.pids[i].0.same(k) {
                return Some(i);
            }
            i = i + 1;
        }
        None
    }
}

/// Records the process id of a running task, replacing an earlier one.
pub fn register_pid(registry: &mut PidRegistry, task_id: TaskId, pid: u32)
    requires
        old(registry).wf(),
    ensures
        final(registry).wf(),
        final(registry)@ == old(registry)@.insert(task_id@, pid),
{
    let ghost k = task_id@;
    let ghost m0 = registry@;
    let ghost s0 = registry.pids@;
    match registry.position(&task_id) {
        Some(i) => {
            registry.pids.set(i, (task_id, pid));
            proof {
                let s1 = registry.pids@;
                assert forall|a: int, b: int| 0 <= a < s1.len() && 0 <= b < s1.len() && a != b implies s1[a].0@ != s1[b].0@ by {
                    assert(s1[a].0@ == s0[a].0@);
                    assert(s1[b].0@ == s0[b].0@);
                }
                assert(registry@ =~= m0.insert(k, pid)) by {
                    assert forall|x: (Seq<char>, Seq<char>)| registry@.contains_key(x) <==> m0.insert(k, pid).contains_key(x) by {
                        if registry@.contains_key(x) {
                            let a = choose|a: int| 0 <= a < s1.len() && s1[a].0@ == x;
                            assert(s0[a].0@ == x);
                        }
                        if m0.contains_key(x) {
                            let a = choose|a: int| 0 <= a < s0.len() && s0[a].0@ == x;
                            assert(s1[a].0@ == x);
                        }
                        if x == k {
                            assert(s1[i as int].0@ == x);
                        }
                    }
                    assert forall|x: (Seq<char>, Seq<char>)| #[trigger] registry@.contains_key(x) implies registry@[x] == m0.insert(k, pid)[x] by {
                        let a = choose|a: int| 0 <= a < s1.len() && s1[a].0@ == x;
                        registry.lemma_at(a);
                        if a != i {
                            assert(s0[a] == s1[a]);
                            assert(m0.contains_key(x));
                            let b = choose|b: int| 0 <= b < s0.len() && s0[b].0@ == x;
                            assert(b == a);
                        }
                    }
                }
            }
        },
        None => {
            registry.pids.push((task_id, pid));
            proof {
                let s1 = registry.pids@;
                assert forall|a: int, b: int| 0 <= a < s1.len() && 0 <= b < s1.len() && a != b implies s1[a].0@ != s1[b].0@ by {
                    if a < s0.len() && b < s0.len() {
                        assert(s1[a] == s0[a]);
                        assert(s1[b] == s0[b]);
                    } else if a < s0.len() {
                        assert(s1[a] == s0[a]);
                        assert(!m0.contains_key(k));
                        if s0[a].0@ == k {
                            assert(m0.contains_key(k));
                        }
                    } else if b < s0.len() {
                        assert(s1[b] == s0[b]);
                        if s0[b].0@ == k {
                            assert(m0.contains_key(k));
                        }
                    }
                }
                assert(registry@ =~= m0.insert(k, pid)) by {
                    assert forall|x: (Seq<char>, Seq<char>)| registry@.contains_key(x) <==> m0.insert(k, pid).contains_key(x) by {
                        if registry@.contains_key(x) && x != k {
                            let a = choose|a: int| 0 <= a < s1.len() && s1[a].0@ == x;
                            assert(a < s0.len());
                            assert(s0[a].0@ == x);
                        }
                        if m0.contains_key(x) {
                            let a = choose|a: int| 0 <= a < s0.len() && s0[a].0@ == x;
                            assert(s1[a].0@ == x);
                        }
                        if x == k {
                            assert(s1[s0.len() as int].0@ == x);
                        }
                    }
                    assert forall|x: (Seq<char>, Seq<char>)| #[trigger] registry@.contains_key(x) implies registry@[x] == m0.insert(k, pid)[x] by {
                        let a = choose|a: int| 0 <= a < s1.len() && s1[a].0@ == x;
                        registry.lemma_at(a);
                        if a < s0.len() {
                            assert(s0[a] == s1[a]);
                            let b = choose|b: int| 0 <= b < s0.len() && s0[b].0@ == x;
                            assert(b == a);
                        }
                    }
                }
            }
        },
    }
}

/// Forgets the process id of a task that stopped.
pub fn unregister_pid(registry: &mut PidRegistry, task_id: &TaskId)
    requires
        old(registry).wf(),
    ensures
        final(registry).wf(),
        final(registry)@ == old(registry)@.remove(task_id@),
{
    let ghost k = task_id@;
    let ghost m0 = registry@;
    let ghost s0 = registry.pids@;
    match registry.position(task_id) {
        None => {
            assert(registry@ =~= m0.remove(k));
        },
        Some(i) => {
            registry.pids.remove(i);
            proof {
                let s1 = registry.pids@;
                assert(s1 =~= s0.remove(i as int));
                assert forall|a: int, b: int| 0 <= a < s1.len() && 0 <= b < s1.len() && a != b implies s1[a].0@ != s1[b].0@ by {
                    let a0 = if a < i { a } else { a + 1 };
                    let b0 = if b < i { b } else { b + 1 };
                    assert(s1[a] == s0[a0]);
                    assert(s1[b] == s0[b0]);
                }
                assert(registry@ =~= m0.remove(k)) by {
                    assert forall|x: (Seq<char>, Seq<char>)| registry@.contains_key(x) <==> m0.remove(k).contains_key(x) by {
                        if registry@.contains_key(x) {
                            let a = choose|a: int| 0 <= a < s1.len() && s1[a].0@ == x;
                            let a0 = if a < i { a } else { a + 1 };
                            assert(s0[a0].0@ == x);
                            assert(a0 != i);
                        }
                        if m0.contains_key(x) && x != k {
                            let a = choose|a: int| 0 <= a < s0.len() && s0[a].0@ == x;
                            assert(a != i);
                            let a1 = if a < i { a } else { a - 1 };
                            assert(s1[a1].0@ == x);
                        }
                    }
                    assert forall|x: (Seq<char>, Seq<char>)| #[trigger] registry@.contains_key(x) implies registry@[x] == m0.remove(k)[x] by {
                        let a = choose|a: int| 0 <= a < s1.len() && s1[a].0@ == x;
                        registry.lemma_at(a);
                        let a0 = if a < i { a } else { a + 1 };
                        assert(s0[a0] == s1[a]);
                        let b = choose|b: int| 0 <= b < s0.len() && s0[b].0@ == x;
                        assert(b == a0);
                    }
                }
            }
        },
    }
}

/// The process ids of the running tasks.
pub fn running_pids(registry: &PidRegistry) -> (r: Vec<u32>)
    requires
        registry.wf(),
    ensures
        forall|p: u32| r@.contains(p) <==> exists|k: (Seq<char>, Seq<char>)| #[trigger] registry@.contains_key(k) && registry@[k] == p,
        r@.len() == registry@.dom().len(),
{
    let mut r: Vec<u32> = Vec::new();
    for i in 0..registry.pids.len()
        invariant
            registry.wf(),
            r@.len() == i,
            forall|a: int| 0 <= a < i ==> r@[a] == registry.pids@[a].1,
    {
        r.push(registry.pids[i].1);
    }
    proof {
        let s = registry.pids@;
        assert forall|p: u32| r@.contains(p) <==> exists|k: (Seq<char>, Seq<char>)| #[trigger] registry@.contains_key(k) && registry@[k] == p by {
            if r@.contains(p) {
                let a = choose|a: int| 0 <= a < r@.len() && r@[a] == p;
                registry.lemma_at(a);
                assert(registry@.contains_key(s[a].0@));
            }
            if exists|k: (Seq<char>, Seq<char>)| #[trigger] registry@.contains_key(k) && registry@[k] == p {
                let k = choose|k: (Seq<char>, Seq<char>)| #[trigger] registry@.contains_key(k) && registry@[k] == p;
                let a = choose|a: int| 0 <= a < s.len() && s[a].0@ == k;
                registry.lemma_at(a);
                assert(r@[a] == p);
            }
        }
        let keys = s.map_values(|e: (TaskId, u32)| e.0@);
        assert(registry@.dom() =~= keys.to_set()) by {
            assert forall|k: (Seq<char>, Seq<char>)| registry@.dom().contains(k) <==> keys.to_set().contains(k) by {
                if registry@.dom().contains(k) {
                    let a = choose|a: int| 0 <= a < s.len() && s[a].0@ == k;
                    assert(keys[a] == k);
                }
                if keys.contains(k) {
                    let a = choose|a: int| 0 <= a < keys.len() && keys[a] == k;
                    assert(s[a].0@ == k);
                }
            }
        }
        assert(keys.no_duplicates()) by {
            assert forall|a: int, b: int| 0 <= a < keys.len() && 0 <= b < keys.len() && a != b implies keys[a] != keys[b] by {
                assert(keys[a] == s[a].0@);
                assert(keys[b] == s[b].0@);
            }
        }
        keys.unique_seq_to_set();
    }
    r
}

/// Whether a shutdown was asked for, and the exit code to end with. The
/// fields are private: a state starts with no shutdown, and the only change
/// is `signal_received`, which sets the flag, so once set it stays set.
#[derive(Debug, Clone, Copy, PartialEq, Eq, Structural)]
pub struct ShutdownState {
    shutting_down: bool,
    code: i32,
}

/// The exit code a run ends with after a signal.
pub open spec fn signal_code(signal: ShutdownSignal) -> i32 {
    match signal {
        ShutdownSignal::Interrupt => EXIT_SIGINT,
        ShutdownSignal::Terminate => EXIT_SIGTERM,
    }
}

impl ShutdownState {
    /// Whether a signal arrived.
    pub closed spec fn down(&self) -> bool {
        self.shutting_down
    }

    /// The exit code to end with.
    pub closed spec fn exit_code(&self) -> i32 {
        self.code
    }

    /// No shutdown asked for; exit code 0.
    pub fn new() -> (r: ShutdownState)
        ensures
            !r.down(),
            r.exit_code() == 0,
    {
        ShutdownState { shutting_down: false, code: 0 }
    }

    /// A signal arrived: the run shuts down with the signal's exit code,
    /// whatever the state was.
    pub fn signal_received(&mut self, signal: ShutdownSignal)
        ensures
            final(self).down(),
            final(self).exit_code() == signal_code(signal),
    {
        self.code = match signal {
            ShutdownSignal::Interrupt => EXIT_SIGINT,
            ShutdownSignal::Terminate => EXIT_SIGTERM,
        };
        self.shutting_down = true;
    }
}

/// Whether a shutdown signal arrived.
pub fn is_shutting_down(state: &ShutdownState) -> (r: bool)
    ensures
        r == state.down(),
{
    state.shutting_down
}

/// The exit code to end with once the shutdown completes.
pub fn shutdown_code(state: &ShutdownState) -> (r: i32)
    ensures
        r == state.exit_code(),
{
    state.code
}

/// Law: registering the process of a task that had none and then
/// unregistering it leaves the registry as it was; once unregistered, a
/// task has no process id whatever it had before.
pub proof fn law_unregister_undoes_register(
    m: Map<(Seq<char>, Seq<char>), u32>,
    k: (Seq<char>, Seq<char>),
    pid: u32,
)
    ensures
        !m.contains_key(k) ==> m.insert(k, pid).remove(k) == m,
        !m.remove(k).contains_key(k),
{
    if !m.contains_key(k) {
        assert(m.insert(k, pid).remove(k) =~= m);
    }
}

} // verus!
