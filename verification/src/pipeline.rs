//! The decisions of a cached run, level by level: which tasks are skipped
//! because a dependency failed, when a task's hash is computed, restored
//! from the cache or run, and what is said about it.
//!
//! The caller walks the levels: for each task it asks `start`, computes the
//! hash and asks the cache provider when told to, reports back with
//! `hashed` and `restored`, spawns the tasks to run, and once each has
//! ended reports with `finished` and, after saving, `saved`.
use vstd::prelude::*;

use crate::strings::{chars_of, substring};
use crate::task_id::{id_text, TaskId};

verus! {

/// What to do with a task as its level starts.
#[derive(Debug, Clone)]
pub enum Start {
    /// A dependency failed: report the task as failed with this message.
    Skip { message: String },
    /// The task is cached: compute its hash.
    ComputeHash,
    /// Spawn the task; nothing will be saved for it.
    Spawn,
}

/// What to do once a cached task's hash is known.
#[derive(Debug, Clone)]
pub enum AfterHash {
    /// The hash could not be computed: report the task as failed.
    Fail { message: String },
    /// A run with this hash was saved: restore it.
    Restore { hash: String },
    /// Nothing saved: spawn the task and save its outputs under this hash.
    Spawn { hash: String },
}

/// What to do once a restore was attempted.
#[derive(Debug, Clone)]
pub enum AfterRestore {
    /// The outputs are back: report this line and the cache hit; the task
    /// does not run.
    CacheHit { message: String },
    /// Report this warning, then spawn the task and save under the hash.
    Spawn { hash: String, warning: String },
}

/// What to do once a spawned task ended.
#[derive(Debug, Clone)]
pub enum AfterRun {
    /// The task failed.
    Failed,
    /// Nothing to save.
    Done,
    /// Save the task's outputs under this hash.
    Save { hash: String },
}

/// The tasks that failed so far, or were skipped because of a failure.
#[derive(Debug, Clone)]
pub struct Pipeline {
    failed: Vec<TaskId>,
}

/// At most the first twelve characters of a hash, as it is shown.
pub open spec fn short_hash(h: Seq<char>) -> Seq<char> {
    if h.len() <= 12 {
        h
    } else {
        h.take(12)
    }
}

/// At most the first twelve characters of a hash.
pub fn short_hash_text(h: &str) -> (r: String)
    ensures
        r@ == short_hash(h@),
{
    let v = chars_of(h);
    if v.len() <= 12 {
        String::from_str(h)
    } else {
        let r = substring(h, 0, 12);
        proof {
            assert(h@.subrange(0, 12) =~= h@.take(12));
        }
        r
    }
}

impl Pipeline {
    /// The ids of the failed tasks.
    pub closed spec fn failed_ids(&self) -> Set<(Seq<char>, Seq<char>)> {
        Set::new(|k: (Seq<char>, Seq<char>)| exists|i: int| 0 <= i < self.failed@.len() && self.failed@[i]@ == k)
    }

    /// Nothing failed yet.
    pub fn new() -> (r: Pipeline)
        ensures
            r.failed_ids() == Set::<(Seq<char>, Seq<char>)>::empty(),
    {
        let r = Pipeline { failed: Vec::new() };
        assert(r.failed_ids() =~= Set::<(Seq<char>, Seq<char>)>::empty());
        r
    }

    /// Whether task `k` failed.
    pub fn has_failed(&self, k: &TaskId) -> (r: bool)
        ensures
            r == self.failed_ids().contains(k@),
    {
        let mut i: usize = 0;
        while i < self.failed.len()
            invariant
                i <= self.failed@.len(),
                forall|a: int| 0 <= a < i ==> self.failed@[a]@ != k@,
            decreases self.failed@.len() - i,
        {
            if self.failed[i].same(k) {
                return true;
            }
            i = i + 1;
        }
        false
    }

    fn mark_failed(&mut self, k: &TaskId)
        ensures
            final(self).failed_ids() == old(self).failed_ids().insert(k@),
    {
        self.failed.push(k.clone());
        proof {
            assert forall|x: (Seq<char>, Seq<char>)| #[trigger] final(self).failed_ids().contains(x) <==> old(self).failed_ids().insert(k@).contains(x) by {
                if old(self).failed_ids().contains(x) {
                    let i = choose|i: int| 0 <= i < old(self).failed@.len() && old(self).failed@[i]@ == x;
                    assert(self.failed@[i]@ == x);
                }
                if x == k@ {
                    assert(self.failed@[self.failed@.len() - 1]@ == x);
                }
                if final(self).failed_ids().contains(x) && x != k@ {
                    let i = choose|i: int| 0 <= i < self.failed@.len() && self.failed@[i]@ == x;
                    assert(i < old(self).failed@.len());
                    assert(old(self).failed@[i]@ == x);
                }
            }
            assert(final(self).failed_ids() =~= old(self).failed_ids().insert(k@));
        }
    }

    /// Decides what to do with task `k` as its level starts: a task with a
    /// failed dependency is skipped and counts as failed itself; a cached
    /// task has its hash computed; any other task is spawned.
    pub fn start(&mut self, k: &TaskId, deps: &Vec<TaskId>, cache: bool) -> (r: Start)
        ensures
            ({
                let blocked = exists|j: int| 0 <= j < deps@.len() && old(self).failed_ids().contains(#[trigger] deps@[j]@);
                if blocked {
                    &&& r matches Start::Skip { message } && message@ == "skipped: a dependency of "@ + id_text(k@)
                        + " failed"@
                    &&& final(self).failed_ids() == old(self).failed_ids().insert(k@)
                } else {
                    &&& final(self).failed_ids() == old(self).failed_ids()
                    &&& if cache {
                        r is ComputeHash
                    } else {
                        r is Spawn
                    }
                }
            }),
    {
        let mut blocked = false;
        for j in 0..deps.len()
            invariant
                blocked == exists|a: int| 0 <= a < j && self.failed_ids().contains(#[trigger] deps@[a]@),
        {
            if self.has_failed(&deps[j]) {
                blocked = true;
            }
        }
        if blocked {
            self.mark_failed(k);
            let message = String::from_str("skipped: a dependency of ").concat(k.to_string().as_str()).concat(" failed");
            Start::Skip { message }
        } else if cache {
            Start::ComputeHash
        } else {
            Start::Spawn
        }
    }

    /// Decides what to do once the hash of cached task `k` was computed;
    /// `saved` says whether the cache holds a run with that hash.
    pub fn hashed(&mut self, k: &TaskId, hash: Result<String, String>, saved: bool) -> (r: AfterHash)
        ensures
            match hash {
                Err(e) => {
                    &&& r matches AfterHash::Fail { message } && message@ == "cache: failed to compute hash: "@ + e@
                    &&& final(self).failed_ids() == old(self).failed_ids().insert(k@)
                },
                Ok(h) => {
                    &&& final(self).failed_ids() == old(self).failed_ids()
                    &&& if saved {
                        r matches AfterHash::Restore { hash: x } && x@ == h@
                    } else {
                        r matches AfterHash::Spawn { hash: x } && x@ == h@
                    }
                },
            },
    {
        match hash {
            Err(e) => {
                self.mark_failed(k);
                AfterHash::Fail { message: String::from_str("cache: failed to compute hash: ").concat(e.as_str()) }
            },
            Ok(h) => {
                if saved {
                    AfterHash::Restore { hash: h }
                } else {
                    AfterHash::Spawn { hash: h }
                }
            },
        }
    }

    /// Decides what to do once the outputs saved under `hash` were to be
    /// restored: a restore that worked is a cache hit; otherwise the task
    /// runs after a warning.
    pub fn restored(&self, hash: &String, outcome: Result<bool, String>) -> (r: AfterRestore)
        ensures
            match outcome {
                Ok(true) => r matches AfterRestore::CacheHit { message } && message@ == "cache hit ["@ + short_hash(hash@)
                    + "] — skipping execution"@,
                Ok(false) => r matches AfterRestore::Spawn { hash: x, warning } && x@ == hash@ && warning@
                    == "cache: restore returned false, re-running task"@,
                Err(e) => r matches AfterRestore::Spawn { hash: x, warning } && x@ == hash@ && warning@
                    == "cache: restore failed ("@ + e@ + "), re-running task"@,
            },
    {
        match outcome {
            Ok(true) => AfterRestore::CacheHit {
                message: String::from_str("cache hit [").concat(short_hash_text(hash.as_str()).as_str()).concat(
                    "] — skipping execution",
                ),
            },
            Ok(false) => AfterRestore::Spawn {
                hash: hash.clone(),
                warning: String::from_str("cache: restore returned false, re-running task"),
            },
            Err(e) => AfterRestore::Spawn {
                hash: hash.clone(),
                warning: String::from_str("cache: restore failed (").concat(e.as_str()).concat("), re-running task"),
            },
        }
    }

    /// The message for a task that could not be spawned. Such a task is not
    /// counted as failed: its dependents still run.
    pub fn spawn_failed(&self, k: &TaskId, error: &str) -> (r: String)
        ensures
            r@ == "Failed to spawn task "@ + id_text(k@) + ": "@ + error@,
    {
        String::from_str("Failed to spawn task ").concat(k.to_string().as_str()).concat(": ").concat(error)
    }

    /// Decides what to do once spawned task `k` ended: a failure is
    /// recorded; a success is saved under its hash, if it has one.
    pub fn finished(&mut self, k: &TaskId, success: bool, hash: String) -> (r: AfterRun)
        ensures
            !success ==> r is Failed && final(self).failed_ids() == old(self).failed_ids().insert(k@),
            success ==> final(self).failed_ids() == old(self).failed_ids() && if hash@.len() == 0 {
                r is Done
            } else {
                r matches AfterRun::Save { hash: x } && x@ == hash@
            },
    {
        if !success {
            self.mark_failed(k);
            AfterRun::Failed
        } else if hash.unicode_len() == 0 {
            AfterRun::Done
        } else {
            AfterRun::Save { hash }
        }
    }

    /// What is said once the outputs were saved under `hash`, and whether it
    /// goes to standard output (`true`) or standard error.
    pub fn saved(&self, hash: &String, outcome: Result<(), String>) -> (r: (bool, String))
        ensures
            match outcome {
                Ok(()) => r.0 && r.1@ == "cache saved ["@ + short_hash(hash@) + "]"@,
                Err(e) => !r.0 && r.1@ == "cache: failed to save ("@ + e@ + ")"@,
            },
    {
        match outcome {
            Ok(()) => (true, String::from_str("cache saved [").concat(short_hash_text(hash.as_str()).as_str()).concat("]")),
            Err(e) => (false, String::from_str("cache: failed to save (").concat(e.as_str()).concat(")")),
        }
    }
}

} // verus!
