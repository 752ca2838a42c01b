//! The dependency resolver: expands a requested list of tasks into a
//! deduplicated, dependency-ordered execution plan.
//!
//! Tasks are addressed by index into an arena ([`TaskGraph`]).  The plan
//! is built by depth-first pre-order expansion: for each requested task,
//! its dependencies are expanded in declared order before the task itself
//! is appended, and a visited set keeps every task at the position of its
//! first discovery.  The resulting order is a topological order of the
//! reachable subgraph that is stable for independent tasks.
//!
//! The graph is assumed acyclic; validating that is the caller's
//! responsibility, stated here as the [`TaskGraph::acyclic`] precondition.

use vstd::prelude::*;
use vstd::pervasive::VecAdditionalExecFns;
use vstd::seq_lib::*;

verus! {

broadcast use vstd::set::group_set_axioms;

/// A dependency graph over tasks addressed by index: task `i` has name
/// `names[i]` and depends, in declared order, on the tasks in `deps[i]`.
pub struct TaskGraph {
    pub names: Vec<String>,
    pub deps: Vec<Vec<usize>>,
}

impl TaskGraph {
    pub open spec fn task_count(self) -> int {
        self.names@.len() as int
    }

    pub open spec fn dep_count(self, t: int) -> int {
        self.deps@[t]@.len() as int
    }

    pub open spec fn dep_of(self, t: int, j: int) -> int {
        self.deps@[t]@[j] as int
    }

    /// Every task's dependency list exists and refers to valid tasks.
    pub open spec fn wf(self) -> bool {
        &&& self.deps@.len() == self.names@.len()
        &&& forall|t: int, j: int|
            0 <= t < self.task_count() && 0 <= j < self.dep_count(t) ==> 0 <= #[trigger] self.dep_of(
                t,
                j,
            ) < self.task_count()
    }

    /// `rank` witnesses acyclicity: it strictly decreases along every
    /// dependency edge.
    pub open spec fn rank_ok(self, rank: Map<int, nat>) -> bool {
        &&& forall|t: int| 0 <= t < self.task_count() ==> rank.dom().contains(t)
        &&& forall|t: int, j: int|
            0 <= t < self.task_count() && 0 <= j < self.dep_count(t) ==> rank[
                #[trigger] self.dep_of(t, j)
            ] < rank[t]
    }

    /// The graph has no dependency cycle.
    pub open spec fn acyclic(self) -> bool {
        exists|rank: Map<int, nat>| self.rank_ok(rank)
    }

    /// `s` is closed under dependencies: it holds every dependency of
    /// every task in it.
    pub open spec fn dep_closed(self, s: Set<int>) -> bool {
        forall|t: int, j: int|
            s.contains(t) && 0 <= t < self.task_count() && 0 <= j < self.dep_count(t)
                ==> s.contains(#[trigger] self.dep_of(t, j))
    }
}

/// Whether task index `t` occurs in `plan`.
pub open spec fn seq_has(plan: Seq<usize>, t: int) -> bool {
    exists|m: int| 0 <= m < plan.len() && plan[m] as int == t
}

/// Every dependency of every plan element occurs earlier in the plan.
pub open spec fn plan_ordered(g: TaskGraph, plan: Seq<usize>) -> bool {
    forall|i: int, j: int|
        #![trigger g.dep_of(plan[i] as int, j)]
        0 <= i < plan.len() && 0 <= j < g.dep_count(plan[i] as int) ==> seq_has(
            plan.take(i),
            g.dep_of(plan[i] as int, j),
        )
}

/// Index of the first occurrence of task `t` in `plan`.
pub open spec fn index_of_task(plan: Seq<usize>, t: int) -> int
    decreases plan.len(),
{
    if plan.len() == 0 {
        0
    } else if plan[0] as int == t {
        0
    } else {
        1 + index_of_task(plan.skip(1), t)
    }
}

pub proof fn lemma_index_of_task(plan: Seq<usize>, t: int)
    requires
        seq_has(plan, t),
    ensures
        0 <= index_of_task(plan, t) < plan.len(),
        plan[index_of_task(plan, t)] as int == t,
    decreases plan.len(),
{
    if plan.len() > 0 && plan[0] as int != t {
        let m = choose|m: int| 0 <= m < plan.len() && plan[m] as int == t;
        assert(plan.skip(1)[m - 1] as int == t);
        assert(seq_has(plan.skip(1), t));
        lemma_index_of_task(plan.skip(1), t);
        assert(plan[1 + index_of_task(plan.skip(1), t)] == plan.skip(1)[index_of_task(
            plan.skip(1),
            t,
        )]);
    }
}

proof fn lemma_index_of_task_extend(p1: Seq<usize>, p2: Seq<usize>, t: int)
    requires
        p1.is_prefix_of(p2),
        seq_has(p1, t),
    ensures
        index_of_task(p2, t) == index_of_task(p1, t),
    decreases p1.len(),
{
    assert(p1.len() > 0) by {
        let m = choose|m: int| 0 <= m < p1.len() && p1[m] as int == t;
    }
    assert(p1[0] == p2[0]);
    if p1[0] as int != t {
        let m = choose|m: int| 0 <= m < p1.len() && p1[m] as int == t;
        assert(p1.skip(1)[m - 1] as int == t);
        assert(seq_has(p1.skip(1), t));
        assert(p1.skip(1).is_prefix_of(p2.skip(1))) by {
            assert(p1.skip(1) =~= p2.skip(1).subrange(0, p1.len() - 1));
        }
        lemma_index_of_task_extend(p1.skip(1), p2.skip(1), t);
    }
}

/// The plan as mathematical task indices.
pub open spec fn plan_ints(plan: Seq<usize>) -> Seq<int> {
    plan.map_values(|x: usize| x as int)
}

/// How many tasks are still unvisited.
pub open spec fn unvisited_count(vis: Seq<bool>) -> int
    decreases vis.len(),
{
    if vis.len() == 0 {
        0
    } else {
        unvisited_count(vis.drop_last()) + if vis.last() {
            0int
        } else {
            1int
        }
    }
}

proof fn lemma_unvisited_bounds(vis: Seq<bool>)
    ensures
        0 <= unvisited_count(vis) <= vis.len(),
    decreases vis.len(),
{
    if vis.len() > 0 {
        lemma_unvisited_bounds(vis.drop_last());
    }
}

proof fn lemma_unvisited_update(vis: Seq<bool>, i: int)
    requires
        0 <= i < vis.len(),
        !vis[i],
    ensures
        unvisited_count(vis.update(i, true)) == unvisited_count(vis) - 1,
    decreases vis.len(),
{
    let u = vis.update(i, true);
    if i == vis.len() - 1 {
        assert(u.drop_last() =~= vis.drop_last());
    } else {
        assert(u.drop_last() =~= vis.drop_last().update(i, true));
        assert(u.last() == vis.last());
        lemma_unvisited_update(vis.drop_last(), i);
    }
}

proof fn lemma_unvisited_monotone(v1: Seq<bool>, v2: Seq<bool>)
    requires
        v1.len() == v2.len(),
        forall|i: int| 0 <= i < v1.len() && v1[i] ==> v2[i],
    ensures
        unvisited_count(v2) <= unvisited_count(v1),
    decreases v1.len(),
{
    if v1.len() > 0 {
        assert forall|i: int| 0 <= i < v1.drop_last().len() && v1.drop_last()[i] implies
            v2.drop_last()[i] by {
            assert(v1[i]);
        }
        lemma_unvisited_monotone(v1.drop_last(), v2.drop_last());
    }
}

/// The depth-first expansion of one task, as a mathematical function:
/// visit the task, then its dependencies in declared order, then append
/// it — exactly the resolver's algorithm.  `fuel` only bounds the
/// recursion; one unit is spent per newly visited task, so any fuel
/// above the number of unvisited tasks gives the untruncated expansion.
pub open spec fn dfs_task(g: TaskGraph, t: int, vis: Seq<bool>, fuel: nat) -> (Seq<bool>, Seq<
    int,
>)
    decreases fuel, 0int, 0int,
{
    if fuel == 0 || !(0 <= t < vis.len()) {
        (vis, Seq::empty())
    } else if vis[t] {
        (vis, Seq::empty())
    } else {
        let r = dfs_deps(g, t, 0, vis.update(t, true), (fuel - 1) as nat);
        (r.0, r.1.push(t))
    }
}

/// Expands the dependencies of `t` from position `j` on, in declared
/// order.
pub open spec fn dfs_deps(g: TaskGraph, t: int, j: int, vis: Seq<bool>, fuel: nat) -> (Seq<
    bool,
>, Seq<int>)
    decreases fuel, 1int, g.dep_count(t) - j,
{
    if j < 0 || j >= g.dep_count(t) {
        (vis, Seq::empty())
    } else {
        let r1 = dfs_task(g, g.dep_of(t, j), vis, fuel);
        let r2 = dfs_deps(g, t, j + 1, r1.0, fuel);
        (r2.0, r1.1 + r2.1)
    }
}

/// Expands the requested tasks from position `k` on, in requested order.
pub open spec fn dfs_requested(g: TaskGraph, requested: Seq<usize>, k: int, vis: Seq<bool>, fuel: nat) -> (
    Seq<bool>,
    Seq<int>,
)
    decreases fuel, 2int, requested.len() - k,
{
    if k < 0 || k >= requested.len() {
        (vis, Seq::empty())
    } else {
        let r1 = dfs_task(g, requested[k] as int, vis, fuel);
        let r2 = dfs_requested(g, requested, k + 1, r1.0, fuel);
        (r2.0, r1.1 + r2.1)
    }
}

/// The execution plan, pinned exactly: the deterministic depth-first
/// pre-order expansion of the requested tasks, dependencies in declared
/// order, each task at the position of its first discovery.
pub open spec fn plan_spec(g: TaskGraph, requested: Seq<usize>) -> Seq<int> {
    dfs_requested(
        g,
        requested,
        0,
        Seq::new(g.task_count() as nat, |i: int| false),
        (g.task_count() + 1) as nat,
    ).1
}

/// The plan facts maintained while expanding: no repeats, only valid
/// visited tasks, and dependencies before dependents.
pub open spec fn plan_inv(g: TaskGraph, visited: Seq<bool>, plan: Seq<usize>) -> bool {
    &&& plan.no_duplicates()
    &&& forall|m: int|
        0 <= m < plan.len() ==> (0 <= ((#[trigger] plan[m]) as int) < g.task_count() && visited[
            plan[m] as int
        ])
    &&& plan_ordered(g, plan)
}

/// Depth-first expansion of one task: marks it visited, expands its
/// dependencies in declared order, then appends it to the plan.  `path`
/// is the set of tasks currently being expanded further up the call
/// chain; `rank` is the acyclicity witness that bounds the recursion.
fn expand(
    g: &TaskGraph,
    visited: &mut Vec<bool>,
    plan: &mut Vec<usize>,
    t: usize,
    Ghost(rank): Ghost<Map<int, nat>>,
    Ghost(path): Ghost<Set<int>>,
    Ghost(fuel): Ghost<nat>,
)
    requires
        g.wf(),
        g.rank_ok(rank),
        (t as int) < g.task_count(),
        old(visited)@.len() == g.task_count(),
        fuel > unvisited_count(old(visited)@),
        plan_inv(*g, old(visited)@, old(plan)@),
        forall|i: int|
            0 <= i < g.task_count() ==> (old(visited)@[i] <==> seq_has(old(plan)@, i)
                || path.contains(i)),
        forall|i: int| seq_has(old(plan)@, i) ==> !path.contains(i),
        forall|p: int| path.contains(p) ==> 0 <= p < g.task_count() && rank[t as int] < rank[p],
    ensures
        final(visited)@.len() == g.task_count(),
        forall|i: int| 0 <= i < g.task_count() && old(visited)@[i] ==> final(visited)@[i],
        final(visited)@[t as int],
        old(plan)@.is_prefix_of(final(plan)@),
        plan_inv(*g, final(visited)@, final(plan)@),
        forall|i: int|
            0 <= i < g.task_count() ==> (final(visited)@[i] <==> seq_has(final(plan)@, i)
                || path.contains(i)),
        forall|i: int| seq_has(final(plan)@, i) ==> !path.contains(i),
        forall|s: Set<int>|
            #[trigger] g.dep_closed(s) && s.contains(t as int) ==> forall|i: int|
                0 <= i < g.task_count() && final(visited)@[i] && !old(visited)@[i] ==> s.contains(
                    i,
                ),
        final(visited)@ == dfs_task(*g, t as int, old(visited)@, fuel).0,
        plan_ints(final(plan)@) == plan_ints(old(plan)@) + dfs_task(
            *g,
            t as int,
            old(visited)@,
            fuel,
        ).1,
    decreases rank[t as int],
{
    proof {
        lemma_unvisited_bounds(old(visited)@);
    }
    if visited[t] {
        proof {
            assert(plan_ints(plan@) =~= plan_ints(old(plan)@) + dfs_task(
                *g,
                t as int,
                old(visited)@,
                fuel,
            ).1);
        }
        return ;
    }
    visited.set(t, true);
    let ghost mid_vis = visited@;
    let ghost f1 = (fuel - 1) as nat;
    proof {
        lemma_unvisited_update(old(visited)@, t as int);
    }
    let dn = g.deps[t].len();
    let ghost path2 = path.insert(t as int);
    let mut j: usize = 0;
    while j < dn
        invariant
            g.wf(),
            g.rank_ok(rank),
            (t as int) < g.task_count(),
            j <= dn,
            dn == g.dep_count(t as int),
            visited@.len() == g.task_count(),
            visited@[t as int],
            forall|i: int| 0 <= i < g.task_count() && old(visited)@[i] ==> visited@[i],
            !old(visited)@[t as int],
            old(plan)@.is_prefix_of(plan@),
            plan_inv(*g, visited@, plan@),
            path2 == path.insert(t as int),
            forall|i: int|
                0 <= i < g.task_count() ==> (visited@[i] <==> seq_has(plan@, i) || path2.contains(
                    i,
                )),
            forall|i: int| seq_has(plan@, i) ==> !path2.contains(i),
            forall|p: int|
                path.contains(p) ==> 0 <= p < g.task_count() && rank[t as int] < rank[p],
            forall|jj: int| 0 <= jj < j ==> seq_has(plan@, g.dep_of(t as int, jj)),
            forall|s: Set<int>|
                #[trigger] g.dep_closed(s) && s.contains(t as int) ==> forall|i: int|
                    0 <= i < g.task_count() && visited@[i] && !old(visited)@[i] ==> s.contains(i),
            mid_vis == old(visited)@.update(t as int, true),
            f1 == (fuel - 1) as nat,
            f1 > unvisited_count(visited@),
            dfs_deps(*g, t as int, 0, mid_vis, f1).0 == dfs_deps(
                *g,
                t as int,
                j as int,
                visited@,
                f1,
            ).0,
            plan_ints(old(plan)@) + dfs_deps(*g, t as int, 0, mid_vis, f1).1 == plan_ints(plan@)
                + dfs_deps(*g, t as int, j as int, visited@, f1).1,
        decreases dn - j,
    {
        let d = g.deps[t][j];
        proof {
            assert(g.dep_of(t as int, j as int) == d as int);
            assert(rank[d as int] < rank[t as int]);
            assert forall|p: int| path2.contains(p) implies 0 <= p < g.task_count()
                && rank[d as int] < rank[p] by {
                if p != t as int {
                    assert(path.contains(p));
                }
            }
        }
        let ghost pre_vis = visited@;
        let ghost pre_plan = plan@;
        expand(g, visited, plan, d, Ghost(rank), Ghost(path2), Ghost(f1));
        proof {
            let r1 = dfs_task(*g, d as int, pre_vis, f1);
            let r2 = dfs_deps(*g, t as int, j + 1, r1.0, f1);
            assert(visited@ == r1.0);
            assert(dfs_deps(*g, t as int, j as int, pre_vis, f1) == (r2.0, r1.1 + r2.1));
            assert(plan_ints(old(plan)@) + dfs_deps(*g, t as int, 0, mid_vis, f1).1 =~= (
            plan_ints(pre_plan) + r1.1) + r2.1);
            assert(plan_ints(old(plan)@) + dfs_deps(*g, t as int, 0, mid_vis, f1).1 == plan_ints(
                plan@,
            ) + dfs_deps(*g, t as int, j + 1, visited@, f1).1);
            lemma_unvisited_monotone(pre_vis, visited@);
            assert forall|jj: int| 0 <= jj < j + 1 implies seq_has(
                plan@,
                g.dep_of(t as int, jj),
            ) by {
                if jj < j {
                    let m = choose|m: int|
                        0 <= m < pre_plan.len() && pre_plan[m] as int == g.dep_of(t as int, jj);
                    assert(plan@[m] as int == g.dep_of(t as int, jj));
                } else {
                    assert(visited@[d as int]);
                    assert(!path2.contains(d as int));
                }
            }
            assert forall|s: Set<int>|
                #[trigger] g.dep_closed(s) && s.contains(t as int) implies forall|i: int|
                0 <= i < g.task_count() && visited@[i] && !old(visited)@[i] ==> s.contains(i) by {
                assert(s.contains(g.dep_of(t as int, j as int)));
                assert forall|i: int|
                    0 <= i < g.task_count() && visited@[i] && !old(visited)@[i] implies s.contains(
                    i,
                ) by {
                    if pre_vis[i] {
                        assert(s.contains(i));
                    } else {
                        assert(s.contains(d as int));
                    }
                }
            }
        }
        j = j + 1;
    }
    let ghost pre_plan = plan@;
    proof {
        assert(path2.contains(t as int));
        assert(!seq_has(pre_plan, t as int));
        assert(dfs_deps(*g, t as int, dn as int, visited@, f1) == (visited@, Seq::<
            int,
        >::empty()));
        assert(dfs_task(*g, t as int, old(visited)@, fuel) == (
            dfs_deps(*g, t as int, 0, mid_vis, f1).0,
            dfs_deps(*g, t as int, 0, mid_vis, f1).1.push(t as int),
        ));
        assert(plan_ints(old(plan)@) + dfs_deps(*g, t as int, 0, mid_vis, f1).1 =~= plan_ints(
            pre_plan,
        ));
    }
    plan.push(t);
    proof {
        assert forall|i: int, m: int|
            0 <= i < plan@.len() && 0 <= m < plan@.len() && i != m implies plan@[i] != plan@[m] by {
            if i < pre_plan.len() && m < pre_plan.len() {
                assert(pre_plan[i] != pre_plan[m]);
            } else if i < pre_plan.len() {
                assert(!seq_has(pre_plan, t as int));
                assert(pre_plan[i] == plan@[i]);
            } else if m < pre_plan.len() {
                assert(!seq_has(pre_plan, t as int));
                assert(pre_plan[m] == plan@[m]);
            }
        }
        assert(plan@.no_duplicates());
        assert forall|i: int, jd: int|
            #![trigger g.dep_of(plan@[i] as int, jd)]
            0 <= i < plan@.len() && 0 <= jd < g.dep_count(plan@[i] as int) implies seq_has(
            plan@.take(i),
            g.dep_of(plan@[i] as int, jd),
        ) by {
            if i < pre_plan.len() {
                assert(plan@[i] == pre_plan[i]);
                assert(plan@.take(i) =~= pre_plan.take(i));
                assert(seq_has(pre_plan.take(i), g.dep_of(pre_plan[i] as int, jd)));
            } else {
                assert(plan@[i] == t);
                assert(plan@.take(i) =~= pre_plan);
                assert(seq_has(pre_plan, g.dep_of(t as int, jd)));
            }
        }
        assert(plan_ordered(*g, plan@));
        assert forall|i: int| 0 <= i < g.task_count() implies (visited@[i] <==> seq_has(plan@, i)
            || path.contains(i)) by {
            if i == t as int {
                assert(plan@[plan@.len() - 1] as int == i);
                assert(seq_has(plan@, i));
            } else {
                if seq_has(plan@, i) {
                    let m = choose|m: int| 0 <= m < plan@.len() && plan@[m] as int == i;
                    assert(pre_plan[m] as int == i);
                    assert(seq_has(pre_plan, i));
                }
                if seq_has(pre_plan, i) {
                    let m = choose|m: int| 0 <= m < pre_plan.len() && pre_plan[m] as int == i;
                    assert(plan@[m] as int == i);
                }
                assert(path2.contains(i) == path.contains(i));
            }
        }
        assert forall|i: int| seq_has(plan@, i) implies !path.contains(i) by {
            if i == t as int {
                assert(rank[t as int] < rank[t as int] ==> false);
                if path.contains(t as int) {
                    assert(rank[t as int] < rank[t as int]);
                }
            } else {
                let m = choose|m: int| 0 <= m < plan@.len() && plan@[m] as int == i;
                assert(pre_plan[m] as int == i);
                assert(!path2.contains(i));
            }
        }
        assert(plan_ints(plan@) =~= plan_ints(pre_plan).push(t as int));
        assert(plan_ints(plan@) =~= plan_ints(old(plan)@) + dfs_task(
            *g,
            t as int,
            old(visited)@,
            fuel,
        ).1);
    }
}

/// The requested tasks before `k2` cannot reach `t`: some
/// dependency-closed set holds all of them but not `t`.
pub open spec fn separable(
    g: TaskGraph,
    requested: Seq<usize>,
    k2: int,
    t: int,
    s: Set<int>,
) -> bool {
    &&& g.dep_closed(s)
    &&& forall|k: int| 0 <= k < k2 ==> s.contains((#[trigger] requested[k]) as int)
    &&& !s.contains(t)
}

/// Builds the execution plan for `requested`: the unique tasks
/// transitively reachable from the requested list, each exactly once, in
/// depth-first pre-order, with every dependency strictly before its
/// dependents.  The plan's element set is exactly the least
/// dependency-closed set containing the requested tasks.
pub fn build_plan(g: &TaskGraph, requested: &Vec<usize>) -> (plan: Vec<usize>)
    requires
        g.wf(),
        g.acyclic(),
        forall|k: int| 0 <= k < requested@.len() ==> ((#[trigger] requested@[k]) as int) < g.task_count(),
    ensures
        plan@.no_duplicates(),
        plan@.len() == plan@.to_set().len(),
        forall|m: int| 0 <= m < plan@.len() ==> 0 <= ((#[trigger] plan@[m]) as int) < g.task_count(),
        forall|k: int| 0 <= k < requested@.len() ==> seq_has(plan@, (#[trigger] requested@[k]) as int),
        plan_ordered(*g, plan@),
        forall|s: Set<int>|
            #[trigger] g.dep_closed(s) && (forall|k: int|
                0 <= k < requested@.len() ==> s.contains((#[trigger] requested@[k]) as int))
                ==> forall|m: int| 0 <= m < plan@.len() ==> s.contains((#[trigger] plan@[m]) as int),
        forall|k1: int, k2: int, s: Set<int>|
            #![trigger separable(*g, requested@, k2, requested@[k2] as int, s), requested@[k1]]
            0 <= k1 < k2 < requested@.len() && separable(*g, requested@, k2, requested@[k2] as int, s)
                ==> index_of_task(plan@, requested@[k1] as int) < index_of_task(
                plan@,
                requested@[k2] as int,
            ),
        plan_ints(plan@) == plan_spec(*g, requested@),
{
    let ghost rank = choose|r: Map<int, nat>| g.rank_ok(r);
    let n = g.names.len();
    let mut visited: Vec<bool> = Vec::new();
    let mut i: usize = 0;
    while i < n
        invariant
            i <= n,
            visited@.len() == i as int,
            forall|m: int| 0 <= m < i ==> !visited@[m],
        decreases n - i,
    {
        visited.push(false);
        i = i + 1;
    }
    let ghost vis0 = visited@;
    let ghost fuel0 = (g.task_count() + 1) as nat;
    proof {
        assert(vis0 =~= Seq::new(g.task_count() as nat, |i2: int| false));
    }
    let mut plan: Vec<usize> = Vec::new();
    proof {
        assert(plan_ints(plan@) =~= Seq::<int>::empty());
        assert(dfs_requested(*g, requested@, 0, vis0, fuel0).1 =~= plan_ints(plan@)
            + dfs_requested(*g, requested@, 0, vis0, fuel0).1);
    }
    let mut ri: usize = 0;
    while ri < requested.len()
        invariant
            g.wf(),
            g.rank_ok(rank),
            ri <= requested@.len(),
            forall|k: int|
                0 <= k < requested@.len() ==> ((#[trigger] requested@[k]) as int) < g.task_count(),
            visited@.len() == g.task_count(),
            plan_inv(*g, visited@, plan@),
            forall|i2: int| 0 <= i2 < g.task_count() ==> (visited@[i2] <==> seq_has(plan@, i2)),
            forall|k: int| 0 <= k < ri ==> seq_has(plan@, (#[trigger] requested@[k]) as int),
            forall|s: Set<int>|
                #[trigger] g.dep_closed(s) && (forall|k: int|
                    0 <= k < ri ==> s.contains((#[trigger] requested@[k]) as int)) ==> forall|
                    i2: int,
                |
                    0 <= i2 < g.task_count() && visited@[i2] ==> s.contains(i2),
            forall|k1: int, k2: int, s: Set<int>|
                #![trigger separable(*g, requested@, k2, requested@[k2] as int, s), requested@[k1]]
                0 <= k1 < k2 < ri && separable(*g, requested@, k2, requested@[k2] as int, s)
                    ==> index_of_task(plan@, requested@[k1] as int) < index_of_task(
                    plan@,
                    requested@[k2] as int,
                ),
            fuel0 == (g.task_count() + 1) as nat,
            dfs_requested(*g, requested@, 0, vis0, fuel0).0 == dfs_requested(
                *g,
                requested@,
                ri as int,
                visited@,
                fuel0,
            ).0,
            dfs_requested(*g, requested@, 0, vis0, fuel0).1 == plan_ints(plan@) + dfs_requested(
                *g,
                requested@,
                ri as int,
                visited@,
                fuel0,
            ).1,
        decreases requested@.len() - ri,
    {
        let r = requested[ri];
        let ghost pre_vis = visited@;
        let ghost pre_plan = plan@;
        proof {
            lemma_unvisited_bounds(pre_vis);
        }
        expand(g, &mut visited, &mut plan, r, Ghost(rank), Ghost(Set::empty()), Ghost(fuel0));
        proof {
            let r1 = dfs_task(*g, r as int, pre_vis, fuel0);
            let r2 = dfs_requested(*g, requested@, ri + 1, r1.0, fuel0);
            assert(visited@ == r1.0);
            assert(dfs_requested(*g, requested@, ri as int, pre_vis, fuel0) == (
                r2.0,
                r1.1 + r2.1,
            ));
            assert(dfs_requested(*g, requested@, 0, vis0, fuel0).1 =~= (plan_ints(pre_plan)
                + r1.1) + r2.1);
            assert(dfs_requested(*g, requested@, 0, vis0, fuel0).1 == plan_ints(plan@)
                + dfs_requested(*g, requested@, ri + 1, visited@, fuel0).1);
            assert forall|i2: int| 0 <= i2 < g.task_count() implies (visited@[i2] <==> seq_has(
                plan@,
                i2,
            )) by {
                assert(!Set::<int>::empty().contains(i2));
            }
            assert forall|k: int| 0 <= k < ri + 1 implies seq_has(
                plan@,
                (#[trigger] requested@[k]) as int,
            ) by {
                if k < ri {
                    let m = choose|m: int|
                        0 <= m < pre_plan.len() && pre_plan[m] as int == requested@[k] as int;
                    assert(pre_plan =~= plan@.subrange(0, pre_plan.len() as int));
                    assert(plan@[m] == pre_plan[m]);
                } else {
                    assert(visited@[r as int]);
                    assert(!Set::<int>::empty().contains(r as int));
                }
            }
            assert forall|s: Set<int>|
                #[trigger] g.dep_closed(s) && (forall|k: int|
                    0 <= k < ri + 1 ==> s.contains((#[trigger] requested@[k]) as int)) implies forall|
                i2: int,
            | 0 <= i2 < g.task_count() && visited@[i2] ==> s.contains(i2) by {
                assert(s.contains(requested@[ri as int] as int));
                assert forall|i2: int|
                    0 <= i2 < g.task_count() && visited@[i2] implies s.contains(i2) by {
                    if pre_vis[i2] {
                    } else {
                        assert(s.contains(r as int));
                    }
                }
            }
            assert forall|k1: int, k2: int, s: Set<int>|
                #![trigger separable(*g, requested@, k2, requested@[k2] as int, s), requested@[k1]]
                0 <= k1 < k2 < ri + 1 && separable(
                    *g,
                    requested@,
                    k2,
                    requested@[k2] as int,
                    s,
                ) implies index_of_task(plan@, requested@[k1] as int) < index_of_task(
                plan@,
                requested@[k2] as int,
            ) by {
                let t1 = requested@[k1] as int;
                let t2 = requested@[k2] as int;
                assert(seq_has(pre_plan, t1));
                lemma_index_of_task_extend(pre_plan, plan@, t1);
                if k2 < ri {
                    assert(seq_has(pre_plan, t2));
                    lemma_index_of_task_extend(pre_plan, plan@, t2);
                } else {
                    assert(!pre_vis[t2]) by {
                        if pre_vis[t2] {
                            assert(s.contains(t2));
                        }
                    }
                    assert(!seq_has(pre_plan, t2));
                    assert(seq_has(plan@, t2));
                    lemma_index_of_task(plan@, t2);
                    lemma_index_of_task(pre_plan, t1);
                    let i2x = index_of_task(plan@, t2);
                    if i2x < pre_plan.len() {
                        assert(pre_plan =~= plan@.subrange(0, pre_plan.len() as int));
                        assert(pre_plan[i2x] == plan@[i2x]);
                        assert(seq_has(pre_plan, t2));
                    }
                }
            }
        }
        ri = ri + 1;
    }
    proof {
        assert forall|s: Set<int>|
            #[trigger] g.dep_closed(s) && (forall|k: int|
                0 <= k < requested@.len() ==> s.contains((#[trigger] requested@[k]) as int))
            implies forall|m: int|
            0 <= m < plan@.len() ==> s.contains((#[trigger] plan@[m]) as int) by {
            assert forall|m: int| 0 <= m < plan@.len() implies s.contains(
                (#[trigger] plan@[m]) as int,
            ) by {
                assert(visited@[plan@[m] as int]);
            }
        }
        plan@.unique_seq_to_set();
        assert(dfs_requested(*g, requested@, requested@.len() as int, visited@, fuel0) == (
            visited@,
            Seq::<int>::empty(),
        ));
        assert(plan_ints(plan@) =~= dfs_requested(*g, requested@, 0, vis0, fuel0).1);
        assert(plan_ints(plan@) == plan_spec(*g, requested@));
    }
    plan
}

} // verus!
