//! The dependency graph between tasks: building it, finding cycles, and
//! ordering a set of tasks into levels that can run concurrently.
use vstd::prelude::*;
use vstd::set_lib::{lemma_int_range, lemma_len_subset, set_int_range};

use crate::error::{GraphError, GraphErrorView};
use crate::strings::{chars_of, find_char_from, first_index_of, substring};
use crate::task_id::{id_text, TaskId};
use crate::tasks::{has_key, lemma_tasks_map_at, task_key, task_keys, tasks_map, tasks_wf, Task, TaskMap, TaskView};

verus! {

/// The graph as the contracts see it: node `i` is the task `ids[i]`, and
/// `deps[i]` lists the nodes it depends on, in the order they were declared.
pub ghost struct GraphModel {
    pub ids: Seq<(Seq<char>, Seq<char>)>,
    pub deps: Seq<Seq<int>>,
}

impl GraphModel {
    /// Ids are unique and every dependency is a node of the graph.
    pub open spec fn wf(self) -> bool {
        &&& self.deps.len() == self.ids.len()
        &&& forall|i: int, j: int| 0 <= i < j < self.ids.len() ==> self.ids[i] != self.ids[j]
        &&& forall|i: int, j: int|
            0 <= i < self.deps.len() && 0 <= j < self.deps[i].len() ==> 0 <= #[trigger] self.deps[i][j]
                < self.ids.len()
    }

    /// Node `a` depends directly on node `b`.
    pub open spec fn edge(self, a: int, b: int) -> bool {
        0 <= a < self.deps.len() && self.deps[a].contains(b)
    }

    /// `p` is a chain of at least one dependency edge.
    pub open spec fn is_path(self, p: Seq<int>) -> bool {
        &&& p.len() >= 2
        &&& forall|k: int| 0 <= k < p.len() - 1 ==> self.edge(#[trigger] p[k], p[k + 1])
    }

    /// `b` can be reached from `a` by following one or more dependency edges.
    pub open spec fn reach(self, a: int, b: int) -> bool {
        exists|p: Seq<int>| #[trigger] self.is_path(p) && p[0] == a && p.last() == b
    }

    /// No task depends, directly or through others, on itself.
    pub open spec fn acyclic(self) -> bool {
        forall|a: int| !#[trigger] self.reach(a, a)
    }

    /// The requested nodes and every node they depend on, directly or not.
    pub open spec fn closure(self, req: Set<int>) -> Set<int> {
        Set::new(|x: int| req.contains(x) || exists|r: int| req.contains(r) && #[trigger] self.reach(r, x))
    }

    /// The nodes of `rel` placed in the first `k` levels: level `k` holds the
    /// nodes of `rel` not placed yet whose dependencies are all placed.
    pub open spec fn placed_before(self, rel: Set<int>, k: nat) -> Set<int>
        decreases k,
    {
        if k == 0 {
            Set::empty()
        } else {
            let p = self.placed_before(rel, (k - 1) as nat);
            p.union(
                Set::new(
                    |i: int|
                        rel.contains(i) && !p.contains(i) && 0 <= i < self.deps.len() && forall|j: int|
                            0 <= j < self.deps[i].len() ==> p.contains(#[trigger] self.deps[i][j]),
                ),
            )
        }
    }

    /// The nodes of level `k`.
    pub open spec fn level(self, rel: Set<int>, k: nat) -> Set<int> {
        let p = self.placed_before(rel, k);
        Set::new(
            |i: int|
                rel.contains(i) && !p.contains(i) && 0 <= i < self.deps.len() && forall|j: int|
                    0 <= j < self.deps[i].len() ==> p.contains(#[trigger] self.deps[i][j]),
        )
    }

    /// The node whose id is `id`.
    pub open spec fn node_of(self, id: (Seq<char>, Seq<char>)) -> int {
        choose|i: int| 0 <= i < self.ids.len() && self.ids[i] == id
    }
}

/// Where a dependency `dep` of a task in `project` points: `project:task`
/// is split at its first `:`, and a bare name is a task of the same project.
pub open spec fn resolve_dep(project: Seq<char>, dep: Seq<char>) -> (Seq<char>, Seq<char>) {
    let i = first_index_of(dep, ':');
    if i < dep.len() {
        (dep.take(i), dep.skip(i + 1))
    } else {
        (project, dep)
    }
}

/// The id that dependency `j` of task `t` points to.
pub open spec fn dep_key(t: Task, j: int) -> (Seq<char>, Seq<char>) {
    resolve_dep(t.project_name@, t.depends_on@[j]@)
}

/// What is wrong with dependency `j` of task `i`, if anything.
pub open spec fn dep_problem(ts: Seq<Task>, i: int, j: int) -> Option<GraphErrorView> {
    let id = task_key(ts[i]);
    let d = dep_key(ts[i], j);
    if d == id {
        Some(GraphErrorView::SelfDependency(id_text(id)))
    } else if !has_key(ts, d) {
        Some(GraphErrorView::MissingDependency { dependent: id_text(id), dependency: id_text(d) })
    } else {
        None
    }
}

/// `(i, j)` names a dependency of the tasks `ts`.
pub open spec fn dep_slot(ts: Seq<Task>, i: int, j: int) -> bool {
    0 <= i < ts.len() && 0 <= j < ts[i].depends_on@.len()
}

/// The state of a node during the search for cycles.
#[derive(Debug, Clone, Copy, PartialEq, Eq, Structural)]
pub enum VisitState {
    Unvisited,
    Visiting,
    Done,
}

/// The task graph: each task and the tasks it depends on.
#[derive(Debug, Clone)]
pub struct TaskGraph {
    ids: Vec<TaskId>,
    deps: Vec<Vec<usize>>,
}

impl View for TaskGraph {
    type V = GraphModel;

    closed spec fn view(&self) -> GraphModel {
        GraphModel {
            ids: self.ids@.map_values(|t: TaskId| t@),
            deps: self.deps@.map_values(|v: Vec<usize>| v@.map_values(|x: usize| x as int)),
        }
    }
}

proof fn lemma_edge_path(g: GraphModel, a: int, b: int)
    requires
        g.edge(a, b),
    ensures
        g.reach(a, b),
{
    let p = seq![a, b];
    assert(g.is_path(p));
}

proof fn lemma_path_suffix(g: GraphModel, p: Seq<int>, k: int)
    requires
        g.is_path(p),
        0 <= k < p.len() - 1,
    ensures
        g.is_path(p.subrange(k, p.len() as int)),
        g.reach(p[k], p.last()),
{
    let q = p.subrange(k, p.len() as int);
    assert forall|m: int| 0 <= m < q.len() - 1 implies g.edge(#[trigger] q[m], q[m + 1]) by {
        assert(q[m] == p[k + m]);
        assert(q[m + 1] == p[k + m + 1]);
    }
    assert(q[0] == p[k]);
    assert(q.last() == p.last());
}

/// Everything reachable from a finished node is finished, when every
/// finished node's dependencies are finished.
proof fn lemma_done_closed(g: GraphModel, st: Seq<VisitState>, p: Seq<int>, k: int)
    requires
        g.wf(),
        st.len() == g.ids.len(),
        forall|x: int|
            0 <= x < st.len() && st[x] == VisitState::Done ==> forall|j: int|
                0 <= j < g.deps[x].len() ==> st[#[trigger] g.deps[x][j]] == VisitState::Done,
        g.is_path(p),
        0 <= p[0] < st.len(),
        st[p[0]] == VisitState::Done,
        0 <= k < p.len(),
    ensures
        0 <= p[k] < st.len(),
        st[p[k]] == VisitState::Done,
    decreases k,
{
    if k > 0 {
        lemma_done_closed(g, st, p, k - 1);
        assert(g.edge(p[k - 1], p[k]));
        let j = choose|j: int| 0 <= j < g.deps[p[k - 1]].len() && #[trigger] g.deps[p[k - 1]][j] == p[k];
    }
}

/// The invariant of the depth-first search for cycles: nodes being visited
/// form the current chain `stack`, and finished nodes only depend on finished
/// nodes and lie on no cycle.
pub open spec fn dfs_inv(g: GraphModel, st: Seq<VisitState>, stack: Seq<int>) -> bool {
    &&& g.wf()
    &&& st.len() == g.ids.len()
    &&& stack.no_duplicates()
    &&& forall|k: int| 0 <= k < stack.len() ==> 0 <= #[trigger] stack[k] < st.len()
    &&& forall|v: int| 0 <= v < st.len() ==> (st[v] == VisitState::Visiting <==> stack.contains(v))
    &&& forall|k: int| 0 <= k < stack.len() - 1 ==> g.edge(#[trigger] stack[k], stack[k + 1])
    &&& forall|x: int|
        0 <= x < st.len() && st[x] == VisitState::Done ==> forall|j: int|
            0 <= j < g.deps[x].len() ==> st[#[trigger] g.deps[x][j]] == VisitState::Done
    &&& forall|x: int| 0 <= x < st.len() && st[x] == VisitState::Done ==> !g.reach(x, x)
}

proof fn lemma_stack_short(stack: Seq<int>, n: int, u: int)
    requires
        stack.no_duplicates(),
        forall|k: int| 0 <= k < stack.len() ==> 0 <= #[trigger] stack[k] < n,
        0 <= u < n,
        !stack.contains(u),
    ensures
        stack.len() < n,
{
    stack.unique_seq_to_set();
    let range = set_int_range(0, n).remove(u);
    lemma_int_range(0, n);
    assert(stack.to_set().subset_of(range)) by {
        assert forall|x: int| stack.to_set().contains(x) implies range.contains(x) by {
            let k = choose|k: int| 0 <= k < stack.len() && stack[k] == x;
        }
    }
    lemma_len_subset(stack.to_set(), range);
}

impl TaskGraph {
    /// The number of tasks in the graph.
    pub fn len(&self) -> (r: usize)
        ensures
            r == self@.ids.len(),
    {
        self.ids.len()
    }

    /// Builds the graph of a task map. Dependencies are resolved in the
    /// map's order; the first one that points at its own task or at a task
    /// that does not exist is reported.
    pub fn new(task_map: &TaskMap) -> (r: Result<TaskGraph, GraphError>)
        requires
            task_map.wf(),
        ensures
            r is Ok <==> forall|i: int, j: int|
                dep_slot(task_map@, i, j) ==> (#[trigger] dep_problem(task_map@, i, j)) is None,
            r matches Ok(g) ==> {
                &&& g@.wf()
                &&& g@.ids == task_keys(task_map@)
                &&& forall|i: int|
                    0 <= i < task_map@.len() ==> (#[trigger] g@.deps[i]).len()
                        == task_map@[i].depends_on@.len()
                &&& forall|i: int, j: int|
                    dep_slot(task_map@, i, j) ==> task_key(task_map@[#[trigger] g@.deps[i][j]])
                        == dep_key(task_map@[i], j)
            },
            r matches Err(e) ==> exists|i: int, j: int|
                #![trigger dep_problem(task_map@, i, j)]
                dep_slot(task_map@, i, j) && dep_problem(task_map@, i, j) == Some(e@) && forall|
                    i2: int,
                    j2: int,
                |
                    dep_slot(task_map@, i2, j2) && (i2 < i || (i2 == i && j2 < j))
                        ==> (#[trigger] dep_problem(task_map@, i2, j2)) is None,
    {
        let tasks = task_map.tasks();
        let ghost ts = task_map@;
        let ids = task_map.keys();
        let mut deps: Vec<Vec<usize>> = Vec::new();
        let mut i: usize = 0;
        while i < tasks.len()
            invariant
                tasks@ == ts,
                task_map@ == ts,
                tasks_wf_local(ts),
                ids@.len() == ts.len(),
                forall|k: int| 0 <= k < ids@.len() ==> (#[trigger] ids@[k])@ == task_key(ts[k]),
                i <= ts.len(),
                deps@.len() == i,
                forall|a: int, b: int|
                    dep_slot(ts, a, b) && a < i ==> (#[trigger] dep_problem(ts, a, b)) is None,
                forall|a: int|
                    0 <= a < i ==> (#[trigger] deps@[a])@.len() == ts[a].depends_on@.len(),
                forall|a: int, b: int|
                    0 <= a < i && 0 <= b < deps@[a]@.len() ==> (#[trigger] deps@[a]@[b]) < ts.len()
                        && task_key(ts[deps@[a]@[b] as int]) == dep_key(ts[a], b),
            decreases ts.len() - i,
        {
            let task = &tasks[i];
            let id = &ids[i];
            let mut row: Vec<usize> = Vec::new();
            let mut j: usize = 0;
            while j < task.depends_on.len()
                invariant
                    tasks@ == ts,
                    task_map@ == ts,
                    *task == ts[i as int],
                    id@ == task_key(ts[i as int]),
                    i < ts.len(),
                    j <= task.depends_on@.len(),
                    row@.len() == j,
                    forall|b: int| 0 <= b < j ==> (#[trigger] dep_problem(ts, i as int, b)) is None,
                    forall|a: int, b: int|
                        dep_slot(ts, a, b) && a < i ==> (#[trigger] dep_problem(ts, a, b)) is None,
                    forall|b: int|
                        0 <= b < j ==> (#[trigger] row@[b]) < ts.len() && task_key(
                            ts[row@[b] as int],
                        ) == dep_key(ts[i as int], b),
                decreases task.depends_on@.len() - j,
            {
                let dep_id = resolve_dep_exec(&task.project_name, &task.depends_on[j]);
                if dep_id.same(id) {
                    proof {
                        assert(dep_problem(ts, i as int, j as int) is Some);
                    }
                    let ghost e = GraphErrorView::SelfDependency(id_text(id@));
                    let err = GraphError::SelfDependency(id.to_string());
                    proof {
                        assert(dep_slot(ts, i as int, j as int));
                        assert(dep_problem(ts, i as int, j as int) == Some(e));
                    }
                    return Err(err);
                }
                match task_map.index_of(&dep_id) {
                    Some(k) => {
                        row.push(k);
                    },
                    None => {
                        let err = GraphError::MissingDependency {
                            dependent: id.to_string(),
                            dependency: dep_id.to_string(),
                        };
                        proof {
                            assert(dep_slot(ts, i as int, j as int));
                            assert(dep_id@ == dep_key(ts[i as int], j as int));
                            assert(dep_id@ != task_key(ts[i as int]));
                            assert(!has_key(ts, dep_id@));
                            assert(err@ == GraphErrorView::MissingDependency {
                                dependent: id_text(task_key(ts[i as int])),
                                dependency: id_text(dep_id@),
                            });
                            assert(dep_problem(ts, i as int, j as int) == Some(err@));
                        }
                        return Err(err);
                    },
                }
                j = j + 1;
            }
            deps.push(row);
            i = i + 1;
        }
        let g = TaskGraph { ids, deps };
        proof {
            let m = g@;
            assert(m.ids =~= task_keys(ts));
            assert forall|a: int, b: int|
                0 <= a < m.deps.len() && 0 <= b < m.deps[a].len() implies 0 <= #[trigger] m.deps[a][b]
                < m.ids.len() by {
                assert(m.deps[a][b] == deps@[a]@[b] as int);
            }
            assert forall|a: int, b: int| 0 <= a < b < m.ids.len() implies m.ids[a] != m.ids[b] by {
                assert(m.ids[a] == task_key(ts[a]));
                assert(m.ids[b] == task_key(ts[b]));
            }
            assert forall|a: int| 0 <= a < ts.len() implies (#[trigger] m.deps[a]).len()
                == ts[a].depends_on@.len() by {
                assert(m.deps[a].len() == deps@[a]@.len());
            }
            assert forall|a: int, b: int| dep_slot(ts, a, b) implies task_key(
                ts[#[trigger] m.deps[a][b]],
            ) == dep_key(ts[a], b) by {
                assert(m.deps[a][b] == deps@[a]@[b] as int);
            }
        }
        Ok(g)
    }
}

proof fn lemma_reach_prepend(g: GraphModel, a: int, b: int, c: int)
    requires
        g.edge(a, b),
        b == c || g.reach(b, c),
    ensures
        g.reach(a, c),
{
    if b == c {
        lemma_edge_path(g, a, b);
    } else {
        let p = choose|p: Seq<int>| #[trigger] g.is_path(p) && p[0] == b && p.last() == c;
        let q = seq![a] + p;
        assert forall|k: int| 0 <= k < q.len() - 1 implies g.edge(#[trigger] q[k], q[k + 1]) by {
            if k > 0 {
                assert(q[k] == p[k - 1]);
                assert(q[k + 1] == p[k]);
            }
        }
        assert(g.is_path(q));
        assert(q.last() == c);
    }
}

/// Node `a` lies on a cycle of dependencies, or depends, directly or not,
/// on a node that does.
pub open spec fn leads_to_cycle(g: GraphModel, a: int) -> bool {
    exists|c: int| #[trigger] g.reach(c, c) && (c == a || g.reach(a, c))
}

/// A finished node leads into no cycle: everything it reaches is finished,
/// and no finished node lies on a cycle.
proof fn lemma_done_leads_nowhere(g: GraphModel, st: Seq<VisitState>, stack: Seq<int>, x: int)
    requires
        dfs_inv(g, st, stack),
        0 <= x < st.len(),
        st[x] == VisitState::Done,
    ensures
        !leads_to_cycle(g, x),
{
    if leads_to_cycle(g, x) {
        let c = choose|c: int| #[trigger] g.reach(c, c) && (c == x || g.reach(x, c));
        if c != x {
            let p = choose|p: Seq<int>| #[trigger] g.is_path(p) && p[0] == x && p.last() == c;
            lemma_done_closed(g, st, p, p.len() - 1);
        }
        assert(st[c] == VisitState::Done);
    }
}

impl TaskGraph {
    /// Depth-first search from `node` for a chain of dependencies that leads
    /// back to a node still being visited. `stack` is the chain of nodes being
    /// visited, the last of which depends on `node`. Every node it finishes is
    /// left `Done`.
    fn has_cycle(&self, node: usize, states: &mut Vec<VisitState>, Ghost(stack): Ghost<Seq<int>>) -> (r: bool)
        requires
            dfs_inv(self@, old(states)@, stack),
            node < self@.ids.len(),
            stack.len() > 0 ==> self@.edge(stack.last(), node as int),
        ensures
            final(states)@.len() == old(states)@.len(),
            r ==> leads_to_cycle(self@, node as int),
            !r ==> dfs_inv(self@, final(states)@, stack),
            !r ==> final(states)@[node as int] == VisitState::Done,
            !r ==> forall|x: int|
                0 <= x < old(states)@.len() && old(states)@[x] == VisitState::Done
                    ==> #[trigger] final(states)@[x] == VisitState::Done,
        decreases self@.ids.len() - stack.len(),
    {
        let g = Ghost(self@);
        match states[node] {
            VisitState::Visiting => {
                proof {
                    let st = states@;
                    assert(stack.contains(node as int));
                    let j = choose|j: int| 0 <= j < stack.len() && stack[j] == node as int;
                    let q = stack.subrange(j, stack.len() as int).push(node as int);
                    assert(g@.is_path(q)) by {
                        assert forall|m: int| 0 <= m < q.len() - 1 implies g@.edge(#[trigger] q[m], q[m + 1]) by {
                            if m < q.len() - 2 {
                                assert(q[m] == stack[j + m]);
                                assert(q[m + 1] == stack[j + m + 1]);
                            } else {
                                assert(q[m] == stack.last());
                            }
                        }
                    }
                    assert(q[0] == node as int);
                    assert(g@.reach(node as int, node as int));
                    assert(leads_to_cycle(g@, node as int));
                }
                return true;
            },
            VisitState::Done => {
                return false;
            },
            VisitState::Unvisited => {},
        }
        proof {
            lemma_stack_short(stack, self@.ids.len() as int, node as int);
        }
        let ghost before = states@;
        states.set(node, VisitState::Visiting);
        let ghost stack2 = stack.push(node as int);
        proof {
            let st = states@;
            assert(dfs_inv(g@, st, stack2)) by {
                assert forall|v: int| 0 <= v < st.len() implies (st[v] == VisitState::Visiting
                    <==> stack2.contains(v)) by {
                    if v != node {
                        if stack.contains(v) {
                            let k = choose|k: int| 0 <= k < stack.len() && stack[k] == v;
                            assert(stack2[k] == v);
                        }
                        if stack2.contains(v) {
                            let k = choose|k: int| 0 <= k < stack2.len() && stack2[k] == v;
                            assert(stack[k] == v);
                        }
                    } else {
                        assert(stack2[stack2.len() - 1] == v);
                    }
                }
                assert forall|k: int| 0 <= k < stack2.len() - 1 implies g@.edge(#[trigger] stack2[k], stack2[k + 1]) by {
                    if k < stack.len() - 1 {
                        assert(stack2[k] == stack[k]);
                        assert(stack2[k + 1] == stack[k + 1]);
                    }
                }
                assert forall|x: int| 0 <= x < st.len() && st[x] == VisitState::Done implies forall|j: int|
                    0 <= j < g@.deps[x].len() ==> st[#[trigger] g@.deps[x][j]] == VisitState::Done by {
                    assert(before[x] == VisitState::Done);
                    assert forall|j: int| 0 <= j < g@.deps[x].len() implies st[#[trigger] g@.deps[x][j]] == VisitState::Done by {
                        assert(before[g@.deps[x][j]] == VisitState::Done);
                    }
                }
            }
        }
        let nd = self.deps[node].len();
        let mut i: usize = 0;
        while i < nd
            invariant
                g@ == self@,
                node < g@.ids.len(),
                nd == g@.deps[node as int].len(),
                i <= nd,
                stack2 == stack.push(node as int),
                stack.len() < g@.ids.len(),
                dfs_inv(g@, states@, stack2),
                states@[node as int] == VisitState::Visiting,
                forall|k: int| 0 <= k < i ==> states@[#[trigger] g@.deps[node as int][k]] == VisitState::Done,
                forall|x: int|
                    0 <= x < before.len() && before[x] == VisitState::Done
                        ==> #[trigger] states@[x] == VisitState::Done,
                before.len() == states@.len(),
                states@.len() == old(states)@.len(),
            decreases nd - i,
        {
            let d = self.deps[node][i];
            proof {
                assert(g@.deps[node as int][i as int] == d as int);
                assert(g@.edge(node as int, d as int));
            }
            let ghost mid = states@;
            if self.has_cycle(d, states, Ghost(stack2)) {
                states.set(node, VisitState::Done);
                proof {
                    let c = choose|c: int| #[trigger] g@.reach(c, c) && (c == d as int || g@.reach(d as int, c));
                    lemma_reach_prepend(g@, node as int, d as int, c);
                    assert(leads_to_cycle(g@, node as int));
                }
                return true;
            }
            proof {
                assert forall|k: int| 0 <= k < i + 1 implies states@[#[trigger] g@.deps[node as int][k]] == VisitState::Done by {
                    if k < i {
                        assert(mid[g@.deps[node as int][k]] == VisitState::Done);
                    }
                }
            }
            i = i + 1;
        }
        let ghost st1 = states@;
        states.set(node, VisitState::Done);
        proof {
            let st = states@;
            let u = node as int;
            assert(st1[u] == VisitState::Visiting);
            assert forall|j: int| 0 <= j < g@.deps[u].len() implies st1[#[trigger] g@.deps[u][j]] == VisitState::Done by {
            }
            assert(!g@.reach(u, u)) by {
                if g@.reach(u, u) {
                    let p = choose|p: Seq<int>| #[trigger] g@.is_path(p) && p[0] == u && p.last() == u;
                    assert(g@.edge(p[0], p[1]));
                    let j = choose|j: int| 0 <= j < g@.deps[u].len() && #[trigger] g@.deps[u][j] == p[1];
                    assert(st1[p[1]] == VisitState::Done);
                    if p.len() == 2 {
                        assert(p[1] == u);
                    } else {
                        lemma_path_suffix(g@, p, 1);
                        let q = p.subrange(1, p.len() as int);
                        lemma_done_closed(g@, st1, q, q.len() - 1);
                        assert(q.last() == u);
                    }
                }
            }
            assert(dfs_inv(g@, st, stack)) by {
                assert forall|v: int| 0 <= v < st.len() implies (st[v] == VisitState::Visiting
                    <==> stack.contains(v)) by {
                    if v != u {
                        if stack.contains(v) {
                            let k = choose|k: int| 0 <= k < stack.len() && stack[k] == v;
                            assert(stack2[k] == v);
                        }
                        if stack2.contains(v) {
                            let k = choose|k: int| 0 <= k < stack2.len() && stack2[k] == v;
                            assert(stack[k] == v);
                        }
                    } else {
                        assert(!stack.contains(u));
                    }
                }
                assert forall|x: int| 0 <= x < st.len() && st[x] == VisitState::Done implies forall|j: int|
                    0 <= j < g@.deps[x].len() ==> st[#[trigger] g@.deps[x][j]] == VisitState::Done by {
                    if x != u {
                        assert(st1[x] == VisitState::Done);
                        assert forall|j: int| 0 <= j < g@.deps[x].len() implies st[#[trigger] g@.deps[x][j]] == VisitState::Done by {
                            assert(st1[g@.deps[x][j]] == VisitState::Done);
                        }
                    } else {
                        assert forall|j: int| 0 <= j < g@.deps[x].len() implies st[#[trigger] g@.deps[x][j]] == VisitState::Done by {
                            assert(st1[g@.deps[x][j]] == VisitState::Done);
                        }
                    }
                }
                assert forall|x: int| 0 <= x < st.len() && st[x] == VisitState::Done implies !g@.reach(x, x) by {
                    if x != u {
                        assert(st1[x] == VisitState::Done);
                    }
                }
            }
        }
        false
    }

    /// Checks that no task depends, directly or through others, on itself;
    /// otherwise names the first task, in the graph's order, that lies on a
    /// cycle or depends on one.
    pub fn validate(&self) -> (r: Result<(), GraphError>)
        requires
            self@.wf(),
        ensures
            r is Ok <==> self@.acyclic(),
            r matches Err(e) ==> exists|i: int|
                0 <= i < self@.ids.len() && e@ == GraphErrorView::CycleDetected(id_text(self@.ids[i]))
                    && leads_to_cycle(self@, i) && forall|j: int| 0 <= j < i ==> !leads_to_cycle(self@, j),
    {
        let n = self.ids.len();
        let mut states: Vec<VisitState> = Vec::new();
        for k in 0..n
            invariant
                states@.len() == k,
                forall|x: int| 0 <= x < k ==> states@[x] == VisitState::Unvisited,
        {
            states.push(VisitState::Unvisited);
        }
        proof {
            assert(dfs_inv(self@, states@, Seq::<int>::empty())) by {
                assert forall|v: int| 0 <= v < states@.len() implies (states@[v] == VisitState::Visiting
                    <==> Seq::<int>::empty().contains(v)) by {
                }
            }
        }
        for i in 0..n
            invariant
                n == self@.ids.len(),
                dfs_inv(self@, states@, Seq::<int>::empty()),
                forall|x: int| 0 <= x < i ==> #[trigger] states@[x] == VisitState::Done,
        {
            if states[i] != VisitState::Done {
                let ghost before = states@;
                if self.has_cycle(i, &mut states, Ghost(Seq::<int>::empty())) {
                    let err = GraphError::CycleDetected(self.ids[i].to_string());
                    proof {
                        assert(self@.ids[i as int] == self.ids@[i as int]@);
                        let c = choose|c: int| #[trigger] self@.reach(c, c) && (c == i as int || self@.reach(i as int, c));
                        assert(!self@.acyclic());
                        assert forall|j: int| 0 <= j < i implies !leads_to_cycle(self@, j) by {
                            assert(before[j] == VisitState::Done);
                            lemma_done_leads_nowhere(self@, before, Seq::<int>::empty(), j);
                        }
                    }
                    return Err(err);
                }
                proof {
                    assert forall|x: int| 0 <= x < i + 1 implies #[trigger] states@[x] == VisitState::Done by {
                        if x < i {
                            assert(before[x] == VisitState::Done);
                        }
                    }
                }
            }
        }
        proof {
            assert forall|a: int| !#[trigger] self@.reach(a, a) by {
                if self@.reach(a, a) {
                    let p = choose|p: Seq<int>| #[trigger] self@.is_path(p) && p[0] == a && p.last() == a;
                    assert(self@.edge(p[0], p[1]));
                    assert(states@[a] == VisitState::Done);
                }
            }
        }
        Ok(())
    }
}

/// The number of `true` entries.
pub open spec fn count_true(s: Seq<bool>) -> nat
    decreases s.len(),
{
    if s.len() == 0 {
        0
    } else {
        count_true(s.drop_last()) + if s.last() {
            1nat
        } else {
            0nat
        }
    }
}

/// At most every entry is `true`.
pub proof fn lemma_count_true_le(s: Seq<bool>)
    ensures
        count_true(s) <= s.len(),
    decreases s.len(),
{
    if s.len() > 0 {
        lemma_count_true_le(s.drop_last());
    }
}

/// No entry is `true` when all are `false`.
pub proof fn lemma_count_true_all_false(s: Seq<bool>)
    requires
        forall|x: int| 0 <= x < s.len() ==> !s[x],
    ensures
        count_true(s) == 0,
    decreases s.len(),
{
    if s.len() > 0 {
        lemma_count_true_all_false(s.drop_last());
    }
}

/// Setting a `false` entry to `true` adds one.
pub proof fn lemma_count_true_set(s: Seq<bool>, i: int)
    requires
        0 <= i < s.len(),
        !s[i],
    ensures
        count_true(s.update(i, true)) == count_true(s) + 1,
    decreases s.len(),
{
    let t = s.update(i, true);
    if i < s.len() - 1 {
        assert(t.drop_last() =~= s.drop_last().update(i, true));
        lemma_count_true_set(s.drop_last(), i);
    } else {
        assert(t.drop_last() =~= s.drop_last());
    }
}

/// The nodes whose ids are among `ts`.
pub open spec fn requested_nodes(g: GraphModel, ts: Seq<TaskId>) -> Set<int> {
    Set::new(|i: int| 0 <= i < g.ids.len() && exists|t: int| 0 <= t < ts.len() && ts[t]@ == #[trigger] g.ids[i])
}

/// The ids of a list of task ids.
pub open spec fn id_views(v: Seq<TaskId>) -> Seq<(Seq<char>, Seq<char>)> {
    v.map_values(|t: TaskId| t@)
}

proof fn lemma_reach_push(g: GraphModel, a: int, b: int, c: int)
    requires
        g.reach(a, b),
        g.edge(b, c),
    ensures
        g.reach(a, c),
{
    let p = choose|p: Seq<int>| #[trigger] g.is_path(p) && p[0] == a && p.last() == b;
    let q = p.push(c);
    assert forall|k: int| 0 <= k < q.len() - 1 implies g.edge(#[trigger] q[k], q[k + 1]) by {
        if k < p.len() - 1 {
            assert(q[k] == p[k]);
            assert(q[k + 1] == p[k + 1]);
        }
    }
    assert(g.is_path(q));
}

proof fn lemma_closure_step(g: GraphModel, req: Set<int>, x: int, c: int)
    requires
        g.closure(req).contains(x),
        g.edge(x, c),
    ensures
        g.closure(req).contains(c),
{
    if req.contains(x) {
        lemma_edge_path(g, x, c);
    } else {
        let r = choose|r: int| req.contains(r) && #[trigger] g.reach(r, x);
        lemma_reach_push(g, r, x, c);
    }
}

proof fn lemma_path_marked(g: GraphModel, marked: Seq<bool>, p: Seq<int>, k: int)
    requires
        g.wf(),
        marked.len() == g.ids.len(),
        forall|x: int|
            0 <= x < marked.len() && marked[x] ==> forall|j: int|
                0 <= j < g.deps[x].len() ==> marked[#[trigger] g.deps[x][j]],
        g.is_path(p),
        0 <= p[0] < marked.len(),
        marked[p[0]],
        0 <= k < p.len(),
    ensures
        0 <= p[k] < marked.len(),
        marked[p[k]],
    decreases k,
{
    if k > 0 {
        lemma_path_marked(g, marked, p, k - 1);
        assert(g.edge(p[k - 1], p[k]));
        let j = choose|j: int| 0 <= j < g.deps[p[k - 1]].len() && #[trigger] g.deps[p[k - 1]][j] == p[k];
    }
}

proof fn lemma_closure_in_range(g: GraphModel, req: Set<int>, x: int)
    requires
        g.wf(),
        forall|r: int| req.contains(r) ==> 0 <= r < g.ids.len(),
        g.closure(req).contains(x),
    ensures
        0 <= x < g.ids.len(),
{
    if !req.contains(x) {
        let r = choose|r: int| req.contains(r) && #[trigger] g.reach(r, x);
        let p = choose|p: Seq<int>| #[trigger] g.is_path(p) && p[0] == r && p.last() == x;
        assert(g.edge(p[p.len() - 2], p[p.len() - 1]));
        let j = choose|j: int|
            0 <= j < g.deps[p[p.len() - 2]].len() && #[trigger] g.deps[p[p.len() - 2]][j] == p[p.len() - 1];
    }
}

proof fn lemma_placed_in_rel(g: GraphModel, rel: Set<int>, k: nat, x: int)
    requires
        g.placed_before(rel, k).contains(x),
    ensures
        rel.contains(x),
        0 <= x < g.deps.len(),
    decreases k,
{
    if k > 0 {
        if g.placed_before(rel, (k - 1) as nat).contains(x) {
            lemma_placed_in_rel(g, rel, (k - 1) as nat, x);
        }
    }
}

proof fn lemma_placed_mono(g: GraphModel, rel: Set<int>, k1: nat, k2: nat, x: int)
    requires
        k1 <= k2,
        g.placed_before(rel, k1).contains(x),
    ensures
        g.placed_before(rel, k2).contains(x),
    decreases k2,
{
    if k1 < k2 {
        lemma_placed_mono(g, rel, k1, (k2 - 1) as nat, x);
    }
}

/// Each placed node belongs to exactly one earlier level.
proof fn lemma_placed_has_level(g: GraphModel, rel: Set<int>, k: nat, x: int) -> (k2: nat)
    requires
        g.placed_before(rel, k).contains(x),
    ensures
        k2 < k,
        g.level(rel, k2).contains(x),
    decreases k,
{
    let km = (k - 1) as nat;
    if g.placed_before(rel, km).contains(x) {
        lemma_placed_has_level(g, rel, km, x)
    } else {
        km
    }
}

/// One entry of an execution plan: a task of level `k` with its dependencies.
pub open spec fn entry_ok(g: GraphModel, rel: Set<int>, k: int, entry: (TaskId, Vec<TaskId>)) -> bool {
    let i = g.node_of(entry.0@);
    &&& 0 <= i < g.ids.len()
    &&& g.ids[i] == entry.0@
    &&& g.level(rel, k as nat).contains(i)
    &&& id_views(entry.1@) == g.deps[i].map_values(|d: int| g.ids[d])
}

/// `levels` lists, level by level, the nodes of `rel` in increasing node
/// order, each with its dependencies, until a level comes out empty; that
/// empty level is not listed, nor is any other.
pub open spec fn levels_match(g: GraphModel, rel: Set<int>, levels: Seq<Vec<(TaskId, Vec<TaskId>)>>) -> bool {
    &&& forall|i: int| !g.level(rel, levels.len() as nat).contains(i)
    &&& forall|k: int| 0 <= k < levels.len() ==> (#[trigger] levels[k])@.len() > 0
    &&& forall|k: int, e: int|
        0 <= k < levels.len() && 0 <= e < levels[k]@.len() ==> entry_ok(g, rel, k, #[trigger] levels[k]@[e])
    &&& forall|k: int, i: int|
        0 <= k < levels.len() && #[trigger] g.level(rel, k as nat).contains(i) ==> exists|e: int|
            0 <= e < levels[k]@.len() && (#[trigger] levels[k]@[e]).0@ == g.ids[i]
    &&& forall|k: int, e1: int, e2: int|
        0 <= k < levels.len() && 0 <= e1 < e2 < levels[k]@.len() ==> g.node_of(
            (#[trigger] levels[k]@[e1]).0@,
        ) < g.node_of((#[trigger] levels[k]@[e2]).0@)
}

proof fn lemma_node_of(g: GraphModel, i: int)
    requires
        g.wf(),
        0 <= i < g.ids.len(),
    ensures
        g.node_of(g.ids[i]) == i,
{
    let j = g.node_of(g.ids[i]);
    assert(0 <= j < g.ids.len() && g.ids[j] == g.ids[i]);
}

impl TaskGraph {
    /// The id of node `i`.
    fn id_at(&self, i: usize) -> (r: TaskId)
        requires
            i < self@.ids.len(),
        ensures
            r@ == self@.ids[i as int],
    {
        self.ids[i].clone()
    }

    /// Orders the given tasks and everything they depend on into levels:
    /// each level holds the tasks whose dependencies all lie in earlier
    /// levels, listed with those dependencies. A task on or behind a cycle is
    /// left out.
    pub fn get_orders(&self, tasks: &[TaskId]) -> (r: Result<Vec<Vec<(TaskId, Vec<TaskId>)>>, GraphError>)
        requires
            self@.wf(),
        ensures
            r is Err <==> exists|t: int| 0 <= t < tasks@.len() && !self@.ids.contains(#[trigger] tasks@[t]@),
            r matches Err(e) ==> exists|t: int|
                0 <= t < tasks@.len() && !self@.ids.contains(#[trigger] tasks@[t]@) && e@
                    == GraphErrorView::TaskNotFound(id_text(tasks@[t]@)) && forall|t2: int|
                    0 <= t2 < t ==> self@.ids.contains(#[trigger] tasks@[t2]@),
            r matches Ok(levels) ==> levels_match(
                self@,
                self@.closure(requested_nodes(self@, tasks@)),
                levels@,
            ),
    {
        let ghost g = self@;
        let n = self.ids.len();
        // The nodes of the requested tasks.
        let mut req: Vec<usize> = Vec::new();
        for t in 0..tasks.len()
            invariant
                g == self@,
                n == g.ids.len(),
                g.wf(),
                req@.len() == t,
                forall|q: int| 0 <= q < t ==> #[trigger] req@[q] < n && g.ids[req@[q] as int] == tasks@[q]@,
        {
            let mut i: usize = 0;
            while i < n && !self.ids[i].same(&tasks[t])
                invariant
                    g == self@,
                    n == g.ids.len(),
                    i <= n,
                    t < tasks@.len(),
                    forall|j: int| 0 <= j < i ==> g.ids[j] != tasks@[t as int]@,
                decreases n - i,
            {
                proof {
                    assert(g.ids[i as int] == self.ids@[i as int]@);
                }
                i = i + 1;
            }
            if i == n {
                let err = GraphError::TaskNotFound(tasks[t].to_string());
                proof {
                    assert(!g.ids.contains(tasks@[t as int]@));
                    assert forall|t2: int| 0 <= t2 < t implies g.ids.contains(#[trigger] tasks@[t2]@) by {
                        assert(g.ids[req@[t2] as int] == tasks@[t2]@);
                    }
                }
                return Err(err);
            }
            proof {
                assert(g.ids[i as int] == self.ids@[i as int]@);
            }
            req.push(i);
        }
        let ghost reqset = requested_nodes(g, tasks@);
        proof {
            assert forall|x: int| reqset.contains(x) <==> exists|q: int| 0 <= q < req@.len() && req@[q] == x by {
                if reqset.contains(x) {
                    let t = choose|t: int| 0 <= t < tasks@.len() && tasks@[t]@ == #[trigger] g.ids[x];
                    assert(g.ids[req@[t] as int] == g.ids[x]);
                    assert(req@[t] == x);
                }
                if exists|q: int| 0 <= q < req@.len() && req@[q] == x {
                    let q = choose|q: int| 0 <= q < req@.len() && req@[q] == x;
                    assert(tasks@[q]@ == g.ids[x]);
                }
            }
            assert forall|t: int| 0 <= t < tasks@.len() implies g.ids.contains(#[trigger] tasks@[t]@) by {
                assert(g.ids[req@[t] as int] == tasks@[t]@);
            }
        }
        let ghost rel = g.closure(reqset);
        // The closure of the requested nodes.
        let mut relevant: Vec<bool> = Vec::new();
        for k in 0..n
            invariant
                relevant@.len() == k,
                forall|x: int| 0 <= x < k ==> !relevant@[x],
        {
            relevant.push(false);
        }
        let mut stack: Vec<usize> = req.clone();
        proof {
            lemma_count_true_all_false(relevant@);
        }
        while stack.len() > 0
            invariant
                g == self@,
                g.wf(),
                n == g.ids.len(),
                rel == g.closure(reqset),
                forall|x: int| reqset.contains(x) <==> exists|q: int| 0 <= q < req@.len() && req@[q] == x,
                forall|q: int| 0 <= q < req@.len() ==> #[trigger] req@[q] < n,
                relevant@.len() == n,
                forall|x: int| 0 <= x < n && relevant@[x] ==> rel.contains(x),
                forall|k: int| 0 <= k < stack@.len() ==> #[trigger] stack@[k] < n && rel.contains(stack@[k] as int),
                forall|x: int|
                    0 <= x < n && relevant@[x] ==> forall|j: int|
                        0 <= j < g.deps[x].len() ==> relevant@[#[trigger] g.deps[x][j]] || stack@.contains(
                            g.deps[x][j] as usize,
                        ),
                forall|q: int| 0 <= q < req@.len() ==> relevant@[#[trigger] req@[q] as int] || stack@.contains(req@[q]),
            decreases n - count_true(relevant@), stack@.len(),
        {
            let ghost old_stack = stack@;
            let x = stack.pop().unwrap();
            proof {
                assert(old_stack == stack@.push(x));
                lemma_count_true_le(relevant@);
            }
            if !relevant[x] {
                let ghost before = relevant@;
                relevant.set(x, true);
                proof {
                    lemma_count_true_set(before, x as int);
                    lemma_count_true_le(relevant@);
                }
                let nd = self.deps[x].len();
                for j in 0..nd
                    invariant
                        g == self@,
                        g.wf(),
                        n == g.ids.len(),
                        x < n,
                        nd == g.deps[x as int].len(),
                        rel == g.closure(reqset),
                        rel.contains(x as int),
                        relevant@.len() == n,
                        relevant@[x as int],
                        forall|k: int| 0 <= k < stack@.len() ==> #[trigger] stack@[k] < n && rel.contains(stack@[k] as int),
                        forall|k: int| 0 <= k < j ==> stack@.contains(#[trigger] g.deps[x as int][k] as usize),
                        forall|k: int| 0 <= k < old_stack.len() - 1 ==> stack@.contains(#[trigger] old_stack[k]),
                        stack@.len() >= old_stack.len() - 1,
                {
                    let d = self.deps[x][j];
                    proof {
                        assert(g.deps[x as int][j as int] == d as int);
                        assert(g.edge(x as int, d as int));
                        lemma_closure_step(g, reqset, x as int, d as int);
                    }
                    let ghost s0 = stack@;
                    stack.push(d);
                    proof {
                        assert(stack@[stack@.len() - 1] == d);
                        assert forall|k: int| 0 <= k < j + 1 implies stack@.contains(#[trigger] g.deps[x as int][k] as usize) by {
                            if k < j {
                                let m = choose|m: int| 0 <= m < s0.len() && s0[m] == g.deps[x as int][k] as usize;
                                assert(stack@[m] == s0[m]);
                            }
                        }
                        assert forall|k: int| 0 <= k < old_stack.len() - 1 implies stack@.contains(#[trigger] old_stack[k]) by {
                            let m = choose|m: int| 0 <= m < s0.len() && s0[m] == old_stack[k];
                            assert(stack@[m] == s0[m]);
                        }
                    }
                }
                proof {
                    assert forall|y: int|
                        0 <= y < n && relevant@[y] implies forall|j: int|
                            0 <= j < g.deps[y].len() ==> relevant@[#[trigger] g.deps[y][j]] || stack@.contains(
                                g.deps[y][j] as usize,
                            ) by {
                        assert forall|j: int| 0 <= j < g.deps[y].len() implies relevant@[#[trigger] g.deps[y][j]] || stack@.contains(
                                g.deps[y][j] as usize) by {
                            if y != x {
                                assert(before[y]);
                                let d = g.deps[y][j];
                                if !relevant@[d] {
                                    assert(old_stack.contains(d as usize));
                                    let m = choose|m: int| 0 <= m < old_stack.len() && old_stack[m] == d as usize;
                                    if m == old_stack.len() - 1 {
                                        assert(d == x);
                                    }
                                }
                            }
                        }
                    }
                    assert forall|q: int| 0 <= q < req@.len() implies relevant@[#[trigger] req@[q] as int] || stack@.contains(req@[q]) by {
                        if !relevant@[req@[q] as int] {
                            assert(old_stack.contains(req@[q]));
                            let m = choose|m: int| 0 <= m < old_stack.len() && old_stack[m] == req@[q];
                            if m == old_stack.len() - 1 {
                                assert(req@[q] == x);
                            }
                        }
                    }
                }
            } else {
                proof {
                    assert forall|y: int|
                        0 <= y < n && relevant@[y] implies forall|j: int|
                            0 <= j < g.deps[y].len() ==> relevant@[#[trigger] g.deps[y][j]] || stack@.contains(
                                g.deps[y][j] as usize,
                            ) by {
                        assert forall|j: int| 0 <= j < g.deps[y].len() implies relevant@[#[trigger] g.deps[y][j]] || stack@.contains(
                                g.deps[y][j] as usize) by {
                            let d = g.deps[y][j];
                            if !relevant@[d] {
                                let m = choose|m: int| 0 <= m < old_stack.len() && old_stack[m] == d as usize;
                                if m < old_stack.len() - 1 {
                                    assert(stack@[m] == old_stack[m]);
                                }
                            }
                        }
                    }
                    assert forall|q: int| 0 <= q < req@.len() implies relevant@[#[trigger] req@[q] as int] || stack@.contains(req@[q]) by {
                        if !relevant@[req@[q] as int] {
                            let m = choose|m: int| 0 <= m < old_stack.len() && old_stack[m] == req@[q];
                            if m < old_stack.len() - 1 {
                                assert(stack@[m] == old_stack[m]);
                            }
                        }
                    }
                }
            }
        }
        proof {
            assert forall|x: int| 0 <= x < n implies (relevant@[x] <==> rel.contains(x)) by {
                if rel.contains(x) {
                    if reqset.contains(x) {
                        let q = choose|q: int| 0 <= q < req@.len() && req@[q] == x;
                        assert(relevant@[req@[q] as int]);
                    } else {
                        let r = choose|r: int| reqset.contains(r) && #[trigger] g.reach(r, x);
                        let q = choose|q: int| 0 <= q < req@.len() && req@[q] == r;
                        assert(relevant@[req@[q] as int]);
                        let p = choose|p: Seq<int>| #[trigger] g.is_path(p) && p[0] == r && p.last() == x;
                        lemma_path_marked(g, relevant@, p, p.len() - 1);
                    }
                }
            }
            assert forall|x: int| rel.contains(x) implies 0 <= x < n by {
                lemma_closure_in_range(g, reqset, x);
            }
        }
        Ok(self.levels_of(&relevant, Ghost(rel)))
    }

    /// The levels of the nodes marked in `relevant`, a set closed under
    /// dependencies.
    fn levels_of(&self, relevant: &Vec<bool>, Ghost(rel): Ghost<Set<int>>) -> (r: Vec<Vec<(TaskId, Vec<TaskId>)>>)
        requires
            self@.wf(),
            relevant@.len() == self@.ids.len(),
            forall|x: int| 0 <= x < self@.ids.len() ==> (relevant@[x] <==> rel.contains(x)),
            forall|x: int| rel.contains(x) ==> 0 <= x < self@.ids.len(),
        ensures
            levels_match(self@, rel, r@),
    {
        let ghost g = self@;
        let n = self.ids.len();
        let mut placed: Vec<bool> = Vec::new();
        for k in 0..n
            invariant
                placed@.len() == k,
                forall|x: int| 0 <= x < k ==> !placed@[x],
        {
            placed.push(false);
        }
        proof {
            lemma_count_true_all_false(placed@);
        }
        let mut levels: Vec<Vec<(TaskId, Vec<TaskId>)>> = Vec::new();
        let mut finished = false;
        while !finished
            invariant
                g == self@,
                g.wf(),
                n == g.ids.len(),
                relevant@.len() == n,
                forall|x: int| 0 <= x < n ==> (relevant@[x] <==> rel.contains(x)),
                forall|x: int| rel.contains(x) ==> 0 <= x < n,
                placed@.len() == n,
                forall|x: int| 0 <= x < n ==> (placed@[x] <==> g.placed_before(rel, levels@.len() as nat).contains(x)),
                finished ==> forall|i: int| !g.level(rel, levels@.len() as nat).contains(i),
                forall|k: int| 0 <= k < levels@.len() ==> (#[trigger] levels@[k])@.len() > 0,
                forall|k: int, e: int|
                    0 <= k < levels@.len() && 0 <= e < levels@[k]@.len() ==> entry_ok(g, rel, k, #[trigger] levels@[k]@[e]),
                forall|k: int, i: int|
                    0 <= k < levels@.len() && #[trigger] g.level(rel, k as nat).contains(i) ==> exists|e: int|
                        0 <= e < levels@[k]@.len() && (#[trigger] levels@[k]@[e]).0@ == g.ids[i],
                forall|k: int, e1: int, e2: int|
                    0 <= k < levels@.len() && 0 <= e1 < e2 < levels@[k]@.len() ==> g.node_of(
                        (#[trigger] levels@[k]@[e1]).0@,
                    ) < g.node_of((#[trigger] levels@[k]@[e2]).0@),
            decreases n - count_true(placed@), if finished { 0int } else { 1int },
        {
            let ghost k = levels@.len() as nat;
            let ghost pk = g.placed_before(rel, k);
            let ghost lk = g.level(rel, k);
            // The nodes of this level, in increasing order.
            let mut lv: Vec<usize> = Vec::new();
            for i in 0..n
                invariant
                    g == self@,
                    g.wf(),
                    n == g.ids.len(),
                    relevant@.len() == n,
                    placed@.len() == n,
                    forall|x: int| 0 <= x < n ==> (relevant@[x] <==> rel.contains(x)),
                    forall|x: int| 0 <= x < n ==> (placed@[x] <==> pk.contains(x)),
                    lk == g.level(rel, k),
                    pk == g.placed_before(rel, k),
                    forall|a: int| 0 <= a < lv@.len() ==> #[trigger] lv@[a] < i && lk.contains(lv@[a] as int),
                    forall|a: int, b: int| 0 <= a < b < lv@.len() ==> lv@[a] < lv@[b],
                    forall|x: int| 0 <= x < i && lk.contains(x) ==> lv@.contains(x as usize),
            {
                let ghost old_lv = lv@;
                if relevant[i] && !placed[i] {
                    let nd = self.deps[i].len();
                    let mut ok = true;
                    let mut j: usize = 0;
                    while j < nd
                        invariant
                            g == self@,
                            g.wf(),
                            i < n,
                            n == g.ids.len(),
                            placed@.len() == n,
                            forall|x: int| 0 <= x < n ==> (placed@[x] <==> pk.contains(x)),
                            nd == g.deps[i as int].len(),
                            j <= nd,
                            ok == forall|m: int| 0 <= m < j ==> pk.contains(#[trigger] g.deps[i as int][m]),
                        decreases nd - j,
                    {
                        let d = self.deps[i][j];
                        proof {
                            assert(g.deps[i as int][j as int] == d as int);
                        }
                        if !placed[d] {
                            ok = false;
                        }
                        j = j + 1;
                    }
                    if ok {
                        lv.push(i);
                        proof {
                            assert(lk.contains(i as int));
                        }
                    } else {
                        proof {
                            assert(!lk.contains(i as int));
                        }
                    }
                } else {
                    proof {
                        assert(!lk.contains(i as int));
                    }
                }
                proof {
                    assert forall|x: int| 0 <= x < i + 1 && lk.contains(x) implies lv@.contains(x as usize) by {
                        if x == i {
                            assert(lv@[lv@.len() - 1] == i);
                        } else {
                            assert(old_lv.contains(x as usize));
                            let m = choose|m: int| 0 <= m < old_lv.len() && old_lv[m] == x as usize;
                            assert(lv@[m] == old_lv[m]);
                        }
                    }
                }
            }
            if lv.len() == 0 {
                finished = true;
                proof {
                    assert forall|i: int| !lk.contains(i) by {
                        if lk.contains(i) {
                            assert(0 <= i < n);
                            assert(lv@.contains(i as usize));
                        }
                    }
                }
            } else {
                let ghost before_placed = placed@;
                let mut level: Vec<(TaskId, Vec<TaskId>)> = Vec::new();
                for a in 0..lv.len()
                    invariant
                        g == self@,
                        g.wf(),
                        n == g.ids.len(),
                        placed@.len() == n,
                        before_placed.len() == n,
                        forall|x: int| 0 <= x < n ==> (before_placed[x] <==> pk.contains(x)),
                        lk == g.level(rel, k),
                        pk == g.placed_before(rel, k),
                        forall|c: int| 0 <= c < lv@.len() ==> #[trigger] lv@[c] < n && lk.contains(lv@[c] as int),
                        forall|c: int, d: int| 0 <= c < d < lv@.len() ==> lv@[c] < lv@[d],
                        forall|x: int|
                            0 <= x < n ==> (placed@[x] <==> (pk.contains(x) || exists|c: int|
                                0 <= c < a && lv@[c] == x)),
                        count_true(placed@) == count_true(before_placed) + a,
                        level@.len() == a,
                        forall|e: int|
                            0 <= e < a ==> (#[trigger] level@[e]).0@ == g.ids[lv@[e] as int] && id_views(
                                level@[e].1@,
                            ) == g.deps[lv@[e] as int].map_values(|d: int| g.ids[d]),
                {
                    let x = lv[a];
                    proof {
                        assert(lk.contains(x as int));
                        assert(!pk.contains(x as int));
                        assert(!placed@[x as int]) by {
                            if placed@[x as int] {
                                let c = choose|c: int| 0 <= c < a && lv@[c] == x;
                            }
                        }
                        lemma_count_true_set(placed@, x as int);
                    }
                    placed.set(x, true);
                    proof {
                        assert forall|y: int|
                            0 <= y < n implies (placed@[y] <==> (pk.contains(y) || exists|c: int|
                                0 <= c < a + 1 && lv@[c] == y)) by {
                            if y == x {
                                assert(lv@[a as int] == y);
                            }
                        }
                    }
                    let nd = self.deps[x].len();
                    let mut ds: Vec<TaskId> = Vec::new();
                    for j in 0..nd
                        invariant
                            g == self@,
                            g.wf(),
                            x < n,
                            n == g.ids.len(),
                            nd == g.deps[x as int].len(),
                            ds@.len() == j,
                            forall|m: int| 0 <= m < j ==> (#[trigger] ds@[m])@ == g.ids[g.deps[x as int][m]],
                    {
                        let d = self.deps[x][j];
                        proof {
                            assert(g.deps[x as int][j as int] == d as int);
                        }
                        ds.push(self.id_at(d));
                    }
                    proof {
                        assert(id_views(ds@) =~= g.deps[x as int].map_values(|d: int| g.ids[d]));
                    }
                    level.push((self.id_at(x), ds));
                }
                let ghost old_levels = levels@;
                levels.push(level);
                proof {
                    let k1 = (k + 1) as nat;
                    assert(g.placed_before(rel, k1) == pk.union(lk));
                    assert forall|x: int| 0 <= x < n implies (placed@[x] <==> g.placed_before(rel, levels@.len() as nat).contains(x)) by {
                        if placed@[x] && !pk.contains(x) {
                            let c = choose|c: int| 0 <= c < lv@.len() && lv@[c] == x;
                        }
                        if lk.contains(x) {
                            assert(lv@.contains(x as usize));
                            let c = choose|c: int| 0 <= c < lv@.len() && lv@[c] == x as usize;
                        }
                    }
                    assert forall|kk: int, e: int|
                        0 <= kk < levels@.len() && 0 <= e < levels@[kk]@.len() implies entry_ok(g, rel, kk, #[trigger] levels@[kk]@[e]) by {
                        if kk < k {
                            assert(levels@[kk] == old_levels[kk]);
                        } else {
                            let x = lv@[e] as int;
                            lemma_node_of(g, x);
                        }
                    }
                    assert forall|kk: int, i: int|
                        0 <= kk < levels@.len() && #[trigger] g.level(rel, kk as nat).contains(i) implies exists|e: int|
                            0 <= e < levels@[kk]@.len() && (#[trigger] levels@[kk]@[e]).0@ == g.ids[i] by {
                        if kk < k {
                            assert(levels@[kk] == old_levels[kk]);
                            let e = choose|e: int| 0 <= e < old_levels[kk]@.len() && (#[trigger] old_levels[kk]@[e]).0@ == g.ids[i];
                            assert(levels@[kk]@[e] == old_levels[kk]@[e]);
                        } else {
                            assert(0 <= i < n);
                            assert(lv@.contains(i as usize));
                            let c = choose|c: int| 0 <= c < lv@.len() && lv@[c] == i as usize;
                            assert(levels@[kk]@[c].0@ == g.ids[i]);
                        }
                    }
                    assert forall|kk: int, e1: int, e2: int|
                        0 <= kk < levels@.len() && 0 <= e1 < e2 < levels@[kk]@.len() implies g.node_of(
                            (#[trigger] levels@[kk]@[e1]).0@,
                        ) < g.node_of((#[trigger] levels@[kk]@[e2]).0@) by {
                        if kk < k {
                            assert(levels@[kk] == old_levels[kk]);
                        } else {
                            lemma_node_of(g, lv@[e1] as int);
                            lemma_node_of(g, lv@[e2] as int);
                        }
                    }
                    lemma_count_true_le(placed@);
                }
            }
        }
        levels
    }
}

/// A dependency of a node of level `k` lies in an earlier level.
pub proof fn lemma_level_deps_earlier(g: GraphModel, rel: Set<int>, k: nat, i: int, j: int) -> (k2: nat)
    requires
        g.level(rel, k).contains(i),
        0 <= j < g.deps[i].len(),
    ensures
        k2 < k,
        g.level(rel, k2).contains(g.deps[i][j]),
{
    assert(g.placed_before(rel, k).contains(g.deps[i][j]));
    lemma_placed_has_level(g, rel, k, g.deps[i][j])
}

/// No node belongs to two levels.
pub proof fn lemma_levels_disjoint(g: GraphModel, rel: Set<int>, k1: nat, k2: nat, i: int)
    requires
        k1 < k2,
        g.level(rel, k1).contains(i),
    ensures
        !g.level(rel, k2).contains(i),
{
    assert(g.placed_before(rel, k1 + 1).contains(i));
    lemma_placed_mono(g, rel, k1 + 1, k2, i);
}

proof fn lemma_pigeonhole(s: Seq<int>, n: int) -> (r: (int, int))
    requires
        0 <= n < s.len(),
        forall|k: int| 0 <= k < s.len() ==> 0 <= #[trigger] s[k] < n,
    ensures
        0 <= r.0 < r.1 < s.len(),
        s[r.0] == s[r.1],
{
    if s.no_duplicates() {
        s.unique_seq_to_set();
        lemma_int_range(0, n);
        assert(s.to_set().subset_of(set_int_range(0, n))) by {
            assert forall|x: int| s.to_set().contains(x) implies set_int_range(0, n).contains(x) by {
                let k = choose|k: int| 0 <= k < s.len() && s[k] == x;
            }
        }
        lemma_len_subset(s.to_set(), set_int_range(0, n));
        assert(false);
        (0, 1)
    } else {
        let (i, j) = choose|i: int, j: int| 0 <= i < s.len() && 0 <= j < s.len() && i != j && s[i] == s[j];
        if i < j {
            (i, j)
        } else {
            (j, i)
        }
    }
}

/// A walk of `m` steps from `x` that never leaves `u`, when every node of
/// `u` has a dependency in `u`.
spec fn walk(g: GraphModel, u: Set<int>, x: int, m: nat) -> Seq<int>
    decreases m,
{
    if m == 0 {
        seq![x]
    } else {
        let w = walk(g, u, x, (m - 1) as nat);
        w.push(choose|d: int| u.contains(d) && g.edge(w.last(), d))
    }
}

proof fn lemma_walk(g: GraphModel, u: Set<int>, x: int, m: nat)
    requires
        u.contains(x),
        forall|y: int| u.contains(y) ==> exists|d: int| u.contains(d) && #[trigger] g.edge(y, d),
    ensures
        walk(g, u, x, m).len() == m + 1,
        walk(g, u, x, m)[0] == x,
        forall|k: int| 0 <= k < walk(g, u, x, m).len() ==> u.contains(#[trigger] walk(g, u, x, m)[k]),
        forall|k: int| 0 <= k < m ==> g.edge(#[trigger] walk(g, u, x, m)[k], walk(g, u, x, m)[k + 1]),
    decreases m,
{
    if m > 0 {
        lemma_walk(g, u, x, (m - 1) as nat);
        let w = walk(g, u, x, (m - 1) as nat);
        assert(u.contains(w.last()));
        let d = choose|d: int| u.contains(d) && g.edge(w.last(), d);
        let w2 = walk(g, u, x, m);
        assert(w2 == w.push(d));
        assert forall|k: int| 0 <= k < w2.len() implies u.contains(#[trigger] w2[k]) by {
            if k < w.len() {
                assert(w2[k] == w[k]);
            }
        }
        assert forall|k: int| 0 <= k < m implies g.edge(#[trigger] w2[k], w2[k + 1]) by {
            if k < m - 1 {
                assert(w2[k] == w[k]);
                assert(w2[k + 1] == w[k + 1]);
            } else {
                assert(w2[k] == w.last());
            }
        }
    }
}

/// In a graph without cycles, every node of a set closed under dependencies
/// is placed in some level before the first empty one.
pub proof fn lemma_acyclic_levels_cover(g: GraphModel, rel: Set<int>, l: nat, x: int) -> (k: nat)
    requires
        g.wf(),
        g.acyclic(),
        forall|y: int| rel.contains(y) ==> 0 <= y < g.ids.len(),
        forall|y: int, j: int|
            rel.contains(y) && 0 <= j < g.deps[y].len() ==> rel.contains(#[trigger] g.deps[y][j]),
        forall|i: int| !g.level(rel, l).contains(i),
        rel.contains(x),
    ensures
        k < l,
        g.level(rel, k).contains(x),
{
    let p = g.placed_before(rel, l);
    if p.contains(x) {
        lemma_placed_has_level(g, rel, l, x)
    } else {
        let u = rel.difference(p);
        assert forall|y: int| u.contains(y) implies exists|d: int| u.contains(d) && #[trigger] g.edge(y, d) by {
            assert(!g.level(rel, l).contains(y));
            let j = choose|j: int| 0 <= j < g.deps[y].len() && !p.contains(#[trigger] g.deps[y][j]);
            let d = g.deps[y][j];
            assert(u.contains(d));
            assert(g.edge(y, d));
        }
        let n = g.ids.len() as int;
        lemma_walk(g, u, x, n as nat);
        let w = walk(g, u, x, n as nat);
        let (i, j) = lemma_pigeonhole(w, n);
        let q = w.subrange(i, j + 1);
        assert(g.is_path(q)) by {
            assert forall|m: int| 0 <= m < q.len() - 1 implies g.edge(#[trigger] q[m], q[m + 1]) by {
                assert(q[m] == w[i + m]);
                assert(q[m + 1] == w[i + m + 1]);
            }
        }
        assert(q[0] == w[i]);
        assert(q.last() == w[j]);
        assert(g.reach(w[i], w[i]));
        0
    }
}

/// Law: in a plan, every dependency of a task comes in an earlier level.
pub proof fn law_plan_dependencies_come_first(
    g: GraphModel,
    rel: Set<int>,
    levels: Seq<Vec<(TaskId, Vec<TaskId>)>>,
    k: int,
    e: int,
    j: int,
)
    requires
        g.wf(),
        levels_match(g, rel, levels),
        0 <= k < levels.len(),
        0 <= e < levels[k]@.len(),
        0 <= j < levels[k]@[e].1@.len(),
    ensures
        exists|k2: int, e2: int|
            0 <= k2 < k && 0 <= e2 < levels[k2]@.len() && (#[trigger] levels[k2]@[e2]).0@
                == levels[k]@[e].1@[j]@,
{
    let entry = levels[k]@[e];
    assert(entry_ok(g, rel, k, entry));
    let i = g.node_of(entry.0@);
    assert(id_views(entry.1@).len() == entry.1@.len());
    assert(g.deps[i].map_values(|d: int| g.ids[d]).len() == g.deps[i].len());
    assert(id_views(entry.1@)[j] == entry.1@[j]@);
    assert(id_views(entry.1@)[j] == g.deps[i].map_values(|d: int| g.ids[d])[j]);
    let d = g.deps[i][j];
    assert(g.deps[i].map_values(|d: int| g.ids[d])[j] == g.ids[d]);
    assert(levels[k]@[e].1@[j]@ == g.ids[d]);
    let k2 = lemma_level_deps_earlier(g, rel, k as nat, i, j);
    let k2i = k2 as int;
    assert(0 <= k2i < levels.len());
    assert(g.level(rel, k2i as nat).contains(d));
    assert(exists|e2: int| 0 <= e2 < levels[k2i]@.len() && (#[trigger] levels[k2i]@[e2]).0@ == g.ids[d]);
    let e2 = choose|e2: int| 0 <= e2 < levels[k2i]@.len() && (#[trigger] levels[k2i]@[e2]).0@ == g.ids[d];
    assert(levels[k2i]@[e2].0@ == levels[k]@[e].1@[j]@);
}

/// Law: a task appears in a plan at most once.
pub proof fn law_plan_lists_each_task_once(
    g: GraphModel,
    rel: Set<int>,
    levels: Seq<Vec<(TaskId, Vec<TaskId>)>>,
    k1: int,
    e1: int,
    k2: int,
    e2: int,
)
    requires
        g.wf(),
        levels_match(g, rel, levels),
        0 <= k1 < levels.len(),
        0 <= e1 < levels[k1]@.len(),
        0 <= k2 < levels.len(),
        0 <= e2 < levels[k2]@.len(),
        k1 != k2 || e1 != e2,
    ensures
        levels[k1]@[e1].0@ != levels[k2]@[e2].0@,
{
    let a = levels[k1]@[e1];
    let b = levels[k2]@[e2];
    assert(entry_ok(g, rel, k1, a));
    assert(entry_ok(g, rel, k2, b));
    if a.0@ == b.0@ {
        let i = g.node_of(a.0@);
        if k1 < k2 {
            lemma_levels_disjoint(g, rel, k1 as nat, k2 as nat, i);
        } else if k2 < k1 {
            lemma_levels_disjoint(g, rel, k2 as nat, k1 as nat, i);
        } else if e1 < e2 {
        } else {
        }
    }
}

/// Law: when the graph has no cycle, the plan for a set of tasks lists every
/// one of them and every task they depend on, directly or not.
pub proof fn law_plan_complete_when_acyclic(
    g: GraphModel,
    tasks: Seq<TaskId>,
    levels: Seq<Vec<(TaskId, Vec<TaskId>)>>,
    x: int,
)
    requires
        g.wf(),
        g.acyclic(),
        levels_match(g, g.closure(requested_nodes(g, tasks)), levels),
        g.closure(requested_nodes(g, tasks)).contains(x),
    ensures
        exists|k: int, e: int|
            0 <= k < levels.len() && 0 <= e < levels[k]@.len() && (#[trigger] levels[k]@[e]).0@ == g.ids[x],
{
    let req = requested_nodes(g, tasks);
    let rel = g.closure(req);
    assert forall|y: int| rel.contains(y) implies 0 <= y < g.ids.len() by {
        lemma_closure_in_range(g, req, y);
    }
    assert forall|y: int, j: int|
        rel.contains(y) && 0 <= j < g.deps[y].len() implies rel.contains(#[trigger] g.deps[y][j]) by {
        assert(g.edge(y, g.deps[y][j]));
        lemma_closure_step(g, req, y, g.deps[y][j]);
    }
    let k = lemma_acyclic_levels_cover(g, rel, levels.len() as nat, x);
    let ki = k as int;
    assert(0 <= ki < levels.len());
    assert(g.level(rel, ki as nat).contains(x));
    assert(exists|e: int| 0 <= e < levels[ki]@.len() && (#[trigger] levels[ki]@[e]).0@ == g.ids[x]);
    let e = choose|e: int| 0 <= e < levels[k as int]@.len() && (#[trigger] levels[k as int]@[e]).0@ == g.ids[x];
}

/// Law: a plan lists only the requested tasks and what they depend on.
pub proof fn law_plan_only_closure(
    g: GraphModel,
    rel: Set<int>,
    levels: Seq<Vec<(TaskId, Vec<TaskId>)>>,
    k: int,
    e: int,
)
    requires
        g.wf(),
        levels_match(g, rel, levels),
        0 <= k < levels.len(),
        0 <= e < levels[k]@.len(),
    ensures
        rel.contains(g.node_of(levels[k]@[e].0@)),
{
    assert(entry_ok(g, rel, k, levels[k]@[e]));
}

/// A node of level `k > 0` depends on a node of level `k - 1`, and so on
/// down: a chain of `k + 1` nodes, one per level, from level `k` to level 0.
proof fn lemma_chain_down(g: GraphModel, rel: Set<int>, k: nat, i: int) -> (p: Seq<int>)
    requires
        g.level(rel, k).contains(i),
    ensures
        p.len() == k + 1,
        p[0] == i,
        forall|m: int| 0 <= m < p.len() ==> #[trigger] g.level(rel, (k - m) as nat).contains(p[m]),
        forall|m: int| 0 <= m < p.len() - 1 ==> g.edge(#[trigger] p[m], p[m + 1]),
    decreases k,
{
    if k == 0 {
        seq![i]
    } else {
        let k1 = (k - 1) as nat;
        let pk1 = g.placed_before(rel, k1);
        assert(g.placed_before(rel, k) == pk1.union(g.level(rel, k1)));
        assert(!pk1.contains(i));
        assert(!g.level(rel, k1).contains(i));
        assert(!(forall|j: int| 0 <= j < g.deps[i].len() ==> pk1.contains(#[trigger] g.deps[i][j])));
        let j = choose|j: int| 0 <= j < g.deps[i].len() && !pk1.contains(#[trigger] g.deps[i][j]);
        let d = g.deps[i][j];
        assert(g.placed_before(rel, k).contains(d));
        assert(g.level(rel, k1).contains(d));
        assert(g.deps[i].contains(d));
        let q = lemma_chain_down(g, rel, k1, d);
        let p = seq![i] + q;
        assert forall|m: int| 0 <= m < p.len() implies #[trigger] g.level(rel, (k - m) as nat).contains(p[m]) by {
            if m > 0 {
                assert(p[m] == q[m - 1]);
                assert((k1 - (m - 1)) as nat == (k - m) as nat);
            }
        }
        assert forall|m: int| 0 <= m < p.len() - 1 implies g.edge(#[trigger] p[m], p[m + 1]) by {
            if m > 0 {
                assert(p[m] == q[m - 1]);
                assert(p[m + 1] == q[m]);
            }
        }
        p
    }
}

/// Along a chain whose nodes all lie in `rel`, the node at position `m` sits
/// in a level at least as high as the number of nodes after it.
proof fn lemma_path_depth(g: GraphModel, rel: Set<int>, l: nat, p: Seq<int>, m: int) -> (k: nat)
    requires
        g.wf(),
        g.acyclic(),
        forall|y: int| rel.contains(y) ==> 0 <= y < g.ids.len(),
        forall|y: int, j: int|
            rel.contains(y) && 0 <= j < g.deps[y].len() ==> rel.contains(#[trigger] g.deps[y][j]),
        forall|i: int| !g.level(rel, l).contains(i),
        forall|a: int| 0 <= a < p.len() - 1 ==> g.edge(#[trigger] p[a], p[a + 1]),
        forall|a: int| 0 <= a < p.len() ==> rel.contains(#[trigger] p[a]),
        0 <= m < p.len(),
    ensures
        k < l,
        g.level(rel, k).contains(p[m]),
        k >= p.len() - 1 - m,
    decreases p.len() - m,
{
    assert(rel.contains(p[m]));
    let k = lemma_acyclic_levels_cover(g, rel, l, p[m]);
    if m < p.len() - 1 {
        let k1 = lemma_path_depth(g, rel, l, p, m + 1);
        assert(g.edge(p[m], p[m + 1]));
        let j = choose|j: int| 0 <= j < g.deps[p[m]].len() && g.deps[p[m]][j] == p[m + 1];
        let k2 = lemma_level_deps_earlier(g, rel, k, p[m], j);
        if k2 < k1 {
            lemma_levels_disjoint(g, rel, k2, k1, p[m + 1]);
        } else if k1 < k2 {
            lemma_levels_disjoint(g, rel, k1, k2, p[m + 1]);
        }
    }
    k
}

/// Law: when the graph has no cycle, a plan has as many levels as the
/// longest chain of dependencies among the tasks it covers has tasks (one
/// more than its number of edges): no chain from a covered task is longer,
/// and, with two levels or more, one chain is exactly that long. So each
/// task sits in the earliest level its dependencies allow, and no valid
/// plan has fewer levels.
pub proof fn law_plan_levels_are_longest_chain(
    g: GraphModel,
    tasks: Seq<TaskId>,
    levels: Seq<Vec<(TaskId, Vec<TaskId>)>>,
)
    requires
        g.wf(),
        g.acyclic(),
        levels_match(g, g.closure(requested_nodes(g, tasks)), levels),
    ensures
        forall|p: Seq<int>|
            #[trigger] g.is_path(p) && g.closure(requested_nodes(g, tasks)).contains(p[0]) ==> p.len() <= levels.len(),
        levels.len() >= 2 ==> exists|p: Seq<int>|
            #[trigger] g.is_path(p) && g.closure(requested_nodes(g, tasks)).contains(p[0]) && p.len() == levels.len(),
{
    let req = requested_nodes(g, tasks);
    let rel = g.closure(req);
    let l = levels.len() as nat;
    assert forall|y: int| rel.contains(y) implies 0 <= y < g.ids.len() by {
        lemma_closure_in_range(g, req, y);
    }
    assert forall|y: int, j: int|
        rel.contains(y) && 0 <= j < g.deps[y].len() implies rel.contains(#[trigger] g.deps[y][j]) by {
        assert(g.edge(y, g.deps[y][j]));
        lemma_closure_step(g, req, y, g.deps[y][j]);
    }
    assert forall|p: Seq<int>| #[trigger] g.is_path(p) && rel.contains(p[0]) implies p.len() <= levels.len() by {
        assert forall|a: int| 0 <= a < p.len() implies rel.contains(#[trigger] p[a]) by {
            lemma_path_in_closure(g, req, p, a);
        }
        let k = lemma_path_depth(g, rel, l, p, 0);
    }
    if levels.len() >= 2 {
        let top = (l - 1) as nat;
        assert(levels[top as int]@.len() > 0);
        assert(entry_ok(g, rel, top as int, levels[top as int]@[0]));
        let i = g.node_of(levels[top as int]@[0].0@);
        let p = lemma_chain_down(g, rel, top, i);
        assert(g.is_path(p));
        assert(g.level(rel, top).contains(p[0]));
        assert(rel.contains(p[0]));
    }
}

/// Every node of a chain that starts in the closure lies in it.
proof fn lemma_path_in_closure(g: GraphModel, req: Set<int>, p: Seq<int>, a: int)
    requires
        forall|b: int| 0 <= b < p.len() - 1 ==> g.edge(#[trigger] p[b], p[b + 1]),
        g.closure(req).contains(p[0]),
        0 <= a < p.len(),
    ensures
        g.closure(req).contains(p[a]),
    decreases a,
{
    if a > 0 {
        lemma_path_in_closure(g, req, p, a - 1);
        assert(g.edge(p[a - 1], p[a]));
        lemma_closure_step(g, req, p[a - 1], p[a]);
    }
}

// ---------------------------------------------------------------------------
// Dependencies between tasks taken by id, whatever order the tasks are kept in.

/// What is wrong with dependency `j` of the task with id `k` among the tasks
/// `m`, if anything: it points at its own task, or at no task of `m`.
pub open spec fn id_dep_problem(m: Map<(Seq<char>, Seq<char>), TaskView>, k: (Seq<char>, Seq<char>), j: int) -> Option<GraphErrorView> {
    let d = resolve_dep(k.0, m[k].depends_on[j]);
    if d == k {
        Some(GraphErrorView::SelfDependency(id_text(k)))
    } else if !m.contains_key(d) {
        Some(GraphErrorView::MissingDependency { dependent: id_text(k), dependency: id_text(d) })
    } else {
        None
    }
}

/// `(k, j)` names dependency `j` of the task with id `k` among `m`.
pub open spec fn id_dep_slot(m: Map<(Seq<char>, Seq<char>), TaskView>, k: (Seq<char>, Seq<char>), j: int) -> bool {
    m.contains_key(k) && 0 <= j < m[k].depends_on.len()
}

/// Every dependency of every task of `m` points at another task of `m`.
pub open spec fn deps_resolve(m: Map<(Seq<char>, Seq<char>), TaskView>) -> bool {
    forall|k: (Seq<char>, Seq<char>), j: int| id_dep_slot(m, k, j) ==> (#[trigger] id_dep_problem(m, k, j)) is None
}

/// The task with id `a` lists a dependency that points at `b`.
pub open spec fn depends_directly(m: Map<(Seq<char>, Seq<char>), TaskView>, a: (Seq<char>, Seq<char>), b: (Seq<char>, Seq<char>)) -> bool {
    &&& m.contains_key(a)
    &&& exists|j: int| 0 <= j < m[a].depends_on.len() && #[trigger] resolve_dep(a.0, m[a].depends_on[j]) == b
}

/// `p` is a chain of at least one direct dependency.
pub open spec fn is_dep_chain(m: Map<(Seq<char>, Seq<char>), TaskView>, p: Seq<(Seq<char>, Seq<char>)>) -> bool {
    &&& p.len() >= 2
    &&& forall|k: int| 0 <= k < p.len() - 1 ==> depends_directly(m, #[trigger] p[k], p[k + 1])
}

/// No task of `m` depends, directly or through others, on itself.
pub open spec fn deps_acyclic(m: Map<(Seq<char>, Seq<char>), TaskView>) -> bool {
    forall|p: Seq<(Seq<char>, Seq<char>)>| #[trigger] is_dep_chain(m, p) ==> p[0] != p.last()
}

/// A graph built by `TaskGraph::new` from the tasks `ts`.
pub open spec fn built_from(g: GraphModel, ts: Seq<Task>) -> bool {
    &&& g.wf()
    &&& g.ids == task_keys(ts)
    &&& forall|i: int| 0 <= i < ts.len() ==> (#[trigger] g.deps[i]).len() == ts[i].depends_on@.len()
    &&& forall|i: int, j: int|
        dep_slot(ts, i, j) ==> task_key(ts[#[trigger] g.deps[i][j]]) == dep_key(ts[i], j)
}

proof fn lemma_key_index(ts: Seq<Task>, k: (Seq<char>, Seq<char>)) -> (i: int)
    requires
        tasks_wf(ts),
        tasks_map(ts).contains_key(k),
    ensures
        0 <= i < ts.len(),
        task_key(ts[i]) == k,
        tasks_map(ts)[k] == ts[i]@,
{
    let i = choose|i: int| 0 <= i < ts.len() && task_key(ts[i]) == k;
    lemma_tasks_map_at(ts, i);
    i
}

/// Dependency `j` of task `i` is the same dependency of the same task by id.
pub proof fn lemma_slot_matches(ts: Seq<Task>, i: int, j: int)
    requires
        tasks_wf(ts),
        dep_slot(ts, i, j),
    ensures
        id_dep_slot(tasks_map(ts), task_key(ts[i]), j),
        resolve_dep(task_key(ts[i]).0, tasks_map(ts)[task_key(ts[i])].depends_on[j]) == dep_key(ts[i], j),
        dep_problem(ts, i, j) == id_dep_problem(tasks_map(ts), task_key(ts[i]), j),
{
    lemma_tasks_map_at(ts, i);
    let d = dep_key(ts[i], j);
    assert(has_key(ts, d) == tasks_map(ts).contains_key(d));
}

/// The dependencies of a list of tasks have no problem exactly when those of
/// the same tasks by id have none.
pub proof fn lemma_deps_resolve(ts: Seq<Task>)
    requires
        tasks_wf(ts),
    ensures
        (forall|i: int, j: int| dep_slot(ts, i, j) ==> (#[trigger] dep_problem(ts, i, j)) is None)
            <==> deps_resolve(tasks_map(ts)),
{
    let m = tasks_map(ts);
    if forall|i: int, j: int| dep_slot(ts, i, j) ==> (#[trigger] dep_problem(ts, i, j)) is None {
        assert forall|k: (Seq<char>, Seq<char>), j: int| id_dep_slot(m, k, j) implies (#[trigger] id_dep_problem(m, k, j)) is None by {
            let i = lemma_key_index(ts, k);
            assert(ts[i]@.depends_on.len() == ts[i].depends_on@.len());
            lemma_slot_matches(ts, i, j);
        }
    }
    if deps_resolve(m) {
        assert forall|i: int, j: int| dep_slot(ts, i, j) implies (#[trigger] dep_problem(ts, i, j)) is None by {
            lemma_slot_matches(ts, i, j);
        }
    }
}

/// An edge of the built graph is a direct dependency between the ids.
proof fn lemma_edge_to_ids(g: GraphModel, ts: Seq<Task>, a: int, b: int)
    requires
        tasks_wf(ts),
        built_from(g, ts),
        g.edge(a, b),
    ensures
        0 <= a < ts.len(),
        0 <= b < ts.len(),
        depends_directly(tasks_map(ts), task_key(ts[a]), task_key(ts[b])),
{
    let j = choose|j: int| 0 <= j < g.deps[a].len() && g.deps[a][j] == b;
    assert(dep_slot(ts, a, j));
    assert(task_key(ts[g.deps[a][j]]) == dep_key(ts[a], j));
    lemma_slot_matches(ts, a, j);
    let m = tasks_map(ts);
    assert(resolve_dep(task_key(ts[a]).0, m[task_key(ts[a])].depends_on[j]) == task_key(ts[b]));
}

/// A direct dependency between ids is an edge of the built graph, when every
/// dependency points at a task.
proof fn lemma_ids_to_edge(g: GraphModel, ts: Seq<Task>, a: int, kb: (Seq<char>, Seq<char>)) -> (b: int)
    requires
        tasks_wf(ts),
        built_from(g, ts),
        deps_resolve(tasks_map(ts)),
        0 <= a < ts.len(),
        depends_directly(tasks_map(ts), task_key(ts[a]), kb),
    ensures
        0 <= b < ts.len(),
        task_key(ts[b]) == kb,
        g.edge(a, b),
{
    let m = tasks_map(ts);
    let ka = task_key(ts[a]);
    lemma_tasks_map_at(ts, a);
    let j = choose|j: int| 0 <= j < m[ka].depends_on.len() && #[trigger] resolve_dep(ka.0, m[ka].depends_on[j]) == kb;
    lemma_slot_matches(ts, a, j);
    let b = g.deps[a][j];
    assert(g.deps[a].contains(b));
    b
}

/// Task `a` depends on task `b` through a chain of one or more direct
/// dependencies, by id.
pub open spec fn id_reaches(m: Map<(Seq<char>, Seq<char>), TaskView>, a: (Seq<char>, Seq<char>), b: (Seq<char>, Seq<char>)) -> bool {
    exists|p: Seq<(Seq<char>, Seq<char>)>| #[trigger] is_dep_chain(m, p) && p[0] == a && p.last() == b
}

/// Task `a` lies on a cycle of dependencies, or depends, directly or not,
/// on a task that does.
pub open spec fn id_leads_to_cycle(m: Map<(Seq<char>, Seq<char>), TaskView>, a: (Seq<char>, Seq<char>)) -> bool {
    exists|c: (Seq<char>, Seq<char>)| #[trigger] id_reaches(m, c, c) && (c == a || id_reaches(m, a, c))
}

/// A chain of edges of the built graph is a chain of direct dependencies
/// between the ids.
proof fn lemma_reach_to_ids(g: GraphModel, ts: Seq<Task>, a: int, b: int)
    requires
        tasks_wf(ts),
        built_from(g, ts),
        g.reach(a, b),
    ensures
        0 <= a < ts.len(),
        0 <= b < ts.len(),
        id_reaches(tasks_map(ts), task_key(ts[a]), task_key(ts[b])),
{
    let m = tasks_map(ts);
    let p = choose|p: Seq<int>| #[trigger] g.is_path(p) && p[0] == a && p.last() == b;
    assert(g.edge(p[0], p[1]));
    assert(g.edge(p[p.len() - 2], p[p.len() - 1]));
    let q = Seq::new(p.len(), |k: int| task_key(ts[p[k]]));
    assert forall|k: int| 0 <= k < q.len() - 1 implies depends_directly(m, #[trigger] q[k], q[k + 1]) by {
        assert(g.edge(p[k], p[k + 1]));
        lemma_edge_to_ids(g, ts, p[k], p[k + 1]);
    }
    assert(is_dep_chain(m, q));
}

/// A node of the built graph that leads into a cycle is a task that does,
/// by id.
pub proof fn lemma_leads_to_cycle_by_ids(g: GraphModel, ts: Seq<Task>, a: int)
    requires
        tasks_wf(ts),
        built_from(g, ts),
        leads_to_cycle(g, a),
    ensures
        id_leads_to_cycle(tasks_map(ts), task_key(ts[a])),
{
    let c = choose|c: int| #[trigger] g.reach(c, c) && (c == a || g.reach(a, c));
    lemma_reach_to_ids(g, ts, c, c);
    if c != a {
        lemma_reach_to_ids(g, ts, a, c);
    } else {
        let p = choose|p: Seq<int>| #[trigger] g.is_path(p) && p[0] == c && p.last() == c;
        assert(g.edge(p[0], p[1]));
    }
    assert(id_reaches(tasks_map(ts), task_key(ts[c]), task_key(ts[c])));
}

/// The built graph has no cycle exactly when no task depends on itself by id.
pub proof fn lemma_acyclic_by_ids(g: GraphModel, ts: Seq<Task>)
    requires
        tasks_wf(ts),
        built_from(g, ts),
        deps_resolve(tasks_map(ts)),
    ensures
        g.acyclic() <==> deps_acyclic(tasks_map(ts)),
{
    let m = tasks_map(ts);
    if !g.acyclic() {
        let a = choose|a: int| g.reach(a, a);
        lemma_reach_to_ids(g, ts, a, a);
        let q = choose|q: Seq<(Seq<char>, Seq<char>)>| #[trigger] is_dep_chain(m, q) && q[0] == task_key(ts[a]) && q.last() == task_key(ts[a]);
        assert(is_dep_chain(m, q));
    }
    if !deps_acyclic(m) {
        let q = choose|q: Seq<(Seq<char>, Seq<char>)>| #[trigger] is_dep_chain(m, q) && q[0] == q.last();
        assert(depends_directly(m, q[0], q[1]));
        let a0 = lemma_key_index(ts, q[0]);
        let idx = |k: (Seq<char>, Seq<char>)| choose|i: int| 0 <= i < ts.len() && task_key(ts[i]) == k;
        assert forall|k: int| 0 <= k < q.len() implies 0 <= #[trigger] idx(q[k]) < ts.len() && task_key(ts[idx(q[k])]) == q[k] by {
            if k < q.len() - 1 {
                assert(depends_directly(m, q[k], q[k + 1]));
            }
            let i = lemma_key_index(ts, q[k]);
        }
        let p = Seq::new(q.len(), |k: int| idx(q[k]));
        assert forall|k: int| 0 <= k < p.len() - 1 implies g.edge(#[trigger] p[k], p[k + 1]) by {
            assert(0 <= idx(q[k]) < ts.len() && task_key(ts[idx(q[k])]) == q[k]);
            assert(0 <= idx(q[k + 1]) < ts.len() && task_key(ts[idx(q[k + 1])]) == q[k + 1]);
            assert(depends_directly(m, q[k], q[k + 1]));
            let b = lemma_ids_to_edge(g, ts, p[k], q[k + 1]);
            assert(b == p[k + 1]);
        }
        assert(g.is_path(p));
        assert(g.reach(p[0], p[0]));
    }
}

/// The ids of `ts` are unique (the part of `tasks_wf` the graph needs).
pub open spec fn tasks_wf_local(ts: Seq<Task>) -> bool {
    forall|i: int, j: int| 0 <= i < j < ts.len() ==> task_key(ts[i]) != task_key(ts[j])
}

/// The id that dependency text `dep` of a task in project `project` points to.
pub fn resolve_dep_exec(project: &String, dep: &String) -> (r: TaskId)
    ensures
        r@ == resolve_dep(project@, dep@),
{
    let v = chars_of(dep.as_str());
    let i = find_char_from(&v, ':', 0);
    proof {
        assert(v@.subrange(0, v@.len() as int) =~= v@);
    }
    if i < v.len() {
        let p = substring(dep.as_str(), 0, i);
        let t = substring(dep.as_str(), i + 1, v.len());
        proof {
            assert(dep@.subrange(0, i as int) =~= dep@.take(i as int));
            assert(dep@.subrange(i + 1, dep@.len() as int) =~= dep@.skip(i + 1));
        }
        TaskId::from_parts(p, t)
    } else {
        TaskId::from_parts(project.clone(), dep.clone())
    }
}

} // verus!
