//! The per-task run state machine and the orchestrator state.
//!
//! Tasks move `Pending -> Running -> Passed | Failed`, or directly
//! `Pending -> Skipped` when a direct dependency resolved to `Failed` or
//! `Skipped`.  A [`Runner`] walks the execution plan in order; the caller
//! performs the actual invocation of each non-skipped task and hands the
//! outcome back, so this state — and the TAP text produced from it — is
//! verified for every possible outcome of every task.

use vstd::prelude::*;
use vstd::pervasive::VecAdditionalExecFns;

use crate::plan::TaskGraph;
use crate::plan::build_plan;
use crate::plan::plan_ordered;
use crate::plan::seq_has;
use crate::tap::TapTestResult;
use crate::tap::TapWriter;
use crate::tap::plan_text;
use crate::tap::test_point_text;
use crate::tap::version_text;
use crate::tap::write_plan;
use crate::tap::write_test_point;
use crate::tap::write_version;

verus! {

/// Lifecycle of one task during a run.
#[derive(Clone, Copy, Debug, PartialEq, Eq, Structural)]
pub enum TaskState {
    Pending,
    Running,
    Passed,
    Failed,
    Skipped,
}

/// What the caller observed when invoking one task's command body.
#[allow(inconsistent_fields)]
pub enum ExecOutcome {
    /// The invocation could not even start (for example, a missing
    /// interpreter); the run continues with subsequent tasks.
    SpawnFailed { message: String },
    /// The invocation ran to completion.  `exit_code` is `None` when the
    /// process ended without an exit status; `output` is the combined
    /// captured output, control characters preserved verbatim.
    Completed { exit_code: Option<i32>, message: Option<String>, output: String },
}

/// One emitted test point, as recorded in the run's ghost history.
pub struct Point {
    pub number: int,
    pub plan_pos: int,
    pub task: int,
    pub ok: bool,
}

pub open spec fn resolved(s: TaskState) -> bool {
    s is Passed || s is Failed || s is Skipped
}

/// Some direct dependency of `t` resolved to `Failed` or `Skipped`.
pub open spec fn dep_blocked(g: TaskGraph, states: Seq<TaskState>, t: int) -> bool {
    exists|j: int|
        0 <= j < g.dep_count(t) && ((states[#[trigger] g.dep_of(t, j)] is Failed) || (states[
            g.dep_of(t, j)
        ] is Skipped))
}

pub open spec fn log_has_pos(log: Seq<Point>, k: int) -> bool {
    exists|e: int| 0 <= e < log.len() && (#[trigger] log[e]).plan_pos == k
}

/// Failures recorded in the history.
pub open spec fn count_failures(log: Seq<Point>) -> int
    decreases log.len(),
{
    if log.len() == 0 {
        0
    } else {
        count_failures(log.drop_last()) + if log.last().ok {
            0int
        } else {
            1int
        }
    }
}

pub open spec fn outcome_ok(o: ExecOutcome) -> bool {
    match o {
        ExecOutcome::Completed { exit_code, .. } => exit_code == Some(0i32),
        ExecOutcome::SpawnFailed { .. } => false,
    }
}

pub open spec fn outcome_message(o: ExecOutcome) -> Option<String> {
    match o {
        ExecOutcome::SpawnFailed { message } => Some(message),
        ExecOutcome::Completed { message, .. } => message,
    }
}

pub open spec fn outcome_exit_code(o: ExecOutcome) -> Option<i32> {
    match o {
        ExecOutcome::SpawnFailed { .. } => None,
        ExecOutcome::Completed { exit_code, .. } => exit_code,
    }
}

/// Captured output, with the empty capture treated as no output.
pub open spec fn outcome_output(o: ExecOutcome) -> Option<String> {
    match o {
        ExecOutcome::SpawnFailed { .. } => None,
        ExecOutcome::Completed { output, .. } => if output@.len() == 0 {
            None
        } else {
            Some(output)
        },
    }
}

/// The test point built for a task named `name` completing as point
/// `number` with outcome `o`: error fields are carried only on failure,
/// and empty captured output is dropped.
pub open spec fn point_result(name: String, number: int, o: ExecOutcome) -> TapTestResult {
    TapTestResult {
        number: number as usize,
        name: name,
        ok: outcome_ok(o),
        error_message: if outcome_ok(o) {
            None
        } else {
            outcome_message(o)
        },
        exit_code: if outcome_ok(o) {
            None
        } else {
            outcome_exit_code(o)
        },
        output: outcome_output(o),
    }
}

/// Orchestrator state for one run: the graph, the immutable plan, the
/// cursor into it, every task's lifecycle state, the writer counters, and
/// a ghost history of the test points emitted so far.
pub struct Runner {
    pub graph: TaskGraph,
    pub plan: Vec<usize>,
    pub pos: usize,
    pub states: Vec<TaskState>,
    pub writer: TapWriter,
    pub log: Ghost<Seq<Point>>,
}

impl Runner {
    pub open spec fn log_entry_wf(self, e: int) -> bool {
        let p = self.log@[e];
        &&& p.number == e + 1
        &&& 0 <= p.plan_pos < self.pos
        &&& p.plan_pos < self.plan@.len()
        &&& p.task == self.plan@[p.plan_pos] as int
        &&& 0 <= p.task < self.graph.task_count()
        &&& (p.ok <==> self.states@[p.task] is Passed)
        &&& (self.states@[p.task] is Passed || self.states@[p.task] is Failed)
    }

    /// The task at plan position `pos` may be `Running` before its
    /// outcome is recorded; every other unprocessed task is `Pending`.
    pub open spec fn running_exception(self, i: int) -> bool {
        &&& self.pos < self.plan@.len()
        &&& i == self.plan@[self.pos as int] as int
        &&& self.states@[i] is Running
        &&& !dep_blocked(self.graph, self.states@, i)
    }

    pub open spec fn wf(self) -> bool {
        &&& self.graph.wf()
        &&& self.states@.len() == self.graph.task_count()
        &&& self.plan@.no_duplicates()
        &&& forall|m: int|
            0 <= m < self.plan@.len() ==> 0 <= ((#[trigger] self.plan@[m]) as int)
                < self.graph.task_count()
        &&& plan_ordered(self.graph, self.plan@)
        &&& self.pos <= self.plan@.len()
        &&& forall|k: int|
            0 <= k < self.pos ==> resolved(#[trigger] self.states@[self.plan@[k] as int])
        &&& forall|k: int|
            0 <= k < self.pos ==> ((#[trigger] self.states@[self.plan@[k] as int]) is Skipped
                <==> dep_blocked(self.graph, self.states@, self.plan@[k] as int))
        &&& forall|i: int|
            0 <= i < self.graph.task_count() && !seq_has(self.plan@.take(self.pos as int), i) ==> ((
            #[trigger] self.states@[i]) is Pending || self.running_exception(i))
        &&& self.writer.counter == self.log@.len()
        &&& self.writer.failures == count_failures(self.log@)
        &&& forall|e: int| 0 <= e < self.log@.len() ==> #[trigger] self.log_entry_wf(e)
        &&& forall|e: int|
            0 <= e && e + 1 < self.log@.len() ==> (#[trigger] self.log@[e]).plan_pos < self.log@[
                e + 1
            ].plan_pos
        &&& forall|k: int|
            0 <= k < self.pos && !((#[trigger] self.states@[self.plan@[k] as int]) is Skipped)
                ==> log_has_pos(self.log@, k)
    }

    pub open spec fn current(self) -> int {
        self.plan@[self.pos as int] as int
    }

    /// Starts a run: resolves the plan once and emits the TAP header —
    /// the version line, then the plan line `1..N` where `N` counts every
    /// planned task, including any that are later skipped.
    pub fn new(graph: TaskGraph, requested: &Vec<usize>) -> (r: (Runner, String))
        requires
            graph.wf(),
            graph.acyclic(),
            forall|k: int|
                0 <= k < requested@.len() ==> ((#[trigger] requested@[k]) as int)
                    < graph.task_count(),
        ensures
            r.0.wf(),
            r.0.graph == graph,
            r.0.pos == 0,
            r.0.log@ == Seq::<Point>::empty(),
            r.0.writer.counter == 0,
            r.0.writer.failures == 0,
            forall|i: int| 0 <= i < graph.task_count() ==> (#[trigger] r.0.states@[i]) is Pending,
            r.0.plan@.len() == r.0.plan@.to_set().len(),
            forall|k: int|
                0 <= k < requested@.len() ==> seq_has(r.0.plan@, (#[trigger] requested@[k]) as int),
            forall|s: Set<int>|
                #[trigger] graph.dep_closed(s) && (forall|k: int|
                    0 <= k < requested@.len() ==> s.contains((#[trigger] requested@[k]) as int))
                    ==> forall|m: int|
                    0 <= m < r.0.plan@.len() ==> s.contains((#[trigger] r.0.plan@[m]) as int),
            forall|k1: int, k2: int, s: Set<int>|
                #![trigger crate::plan::separable(graph, requested@, k2, requested@[k2] as int, s), requested@[k1]]
                0 <= k1 < k2 < requested@.len() && crate::plan::separable(
                    graph,
                    requested@,
                    k2,
                    requested@[k2] as int,
                    s,
                ) ==> crate::plan::index_of_task(r.0.plan@, requested@[k1] as int)
                    < crate::plan::index_of_task(r.0.plan@, requested@[k2] as int),
            crate::plan::plan_ints(r.0.plan@) == crate::plan::plan_spec(graph, requested@),
            r.1@ == version_text() + plan_text(r.0.plan@.len() as int),
    {
        let plan = build_plan(&graph, requested);
        let n = graph.names.len();
        let mut states: Vec<TaskState> = Vec::new();
        let mut i: usize = 0;
        while i < n
            invariant
                i <= n,
                states@.len() == i as int,
                forall|m: int| 0 <= m < i ==> (#[trigger] states@[m]) is Pending,
            decreases n - i,
        {
            states.push(TaskState::Pending);
            i = i + 1;
        }
        let mut header = String::new();
        write_version(&mut header);
        write_plan(&mut header, plan.len());
        let runner = Runner {
            graph,
            plan,
            pos: 0,
            states,
            writer: TapWriter::new(),
            log: Ghost(Seq::empty()),
        };
        proof {
            assert(runner.plan@.take(0) =~= Seq::<usize>::empty());
            assert(header@ =~= version_text() + plan_text(runner.plan@.len() as int));
        }
        (runner, header)
    }

    /// All plan positions have been processed.
    pub fn done(&self) -> (b: bool)
        ensures
            b == (self.pos == self.plan@.len()),
    {
        self.pos == self.plan.len()
    }

    /// The task at the current plan position.
    pub fn current_task(&self) -> (t: usize)
        requires
            self.pos < self.plan@.len(),
        ensures
            t as int == self.current(),
    {
        self.plan[self.pos]
    }

    /// Whether the current task must be skipped: true exactly when one of
    /// its direct dependencies resolved to `Failed` or `Skipped`.
    pub fn must_skip(&self) -> (b: bool)
        requires
            self.wf(),
            self.pos < self.plan@.len(),
        ensures
            b == dep_blocked(self.graph, self.states@, self.current()),
    {
        let t = self.plan[self.pos];
        let dn = self.graph.deps[t].len();
        let mut j: usize = 0;
        while j < dn
            invariant
                self.wf(),
                self.pos < self.plan@.len(),
                t as int == self.current(),
                dn == self.graph.dep_count(t as int),
                j <= dn,
                forall|jj: int|
                    0 <= jj < j ==> !((self.states@[#[trigger] self.graph.dep_of(t as int, jj)]
                        is Failed) || (self.states@[self.graph.dep_of(t as int, jj)] is Skipped)),
            decreases dn - j,
        {
            let d = self.graph.deps[t][j];
            proof {
                assert(self.graph.dep_of(t as int, j as int) == d as int);
                assert(0 <= (d as int) < self.graph.task_count());
            }
            let s = self.states[d];
            if s == TaskState::Failed || s == TaskState::Skipped {
                proof {
                    assert(self.graph.dep_of(t as int, j as int) == d as int);
                }
                return true;
            }
            j = j + 1;
        }
        false
    }

    /// Skips the current task: `Pending -> Skipped`.  No test point is
    /// emitted and no test-point number is consumed.
    pub fn skip_current(&mut self)
        requires
            old(self).wf(),
            old(self).pos < old(self).plan@.len(),
            dep_blocked(old(self).graph, old(self).states@, old(self).current()),
        ensures
            final(self).wf(),
            final(self).graph == old(self).graph,
            final(self).plan == old(self).plan,
            final(self).pos == old(self).pos + 1,
            final(self).writer == old(self).writer,
            final(self).log == old(self).log,
            final(self).states@ == old(self).states@.update(
                old(self).current(),
                TaskState::Skipped,
            ),
    {
        let t = self.plan[self.pos];
        self.states.set(t, TaskState::Skipped);
        proof {
            assert(self.plan.len() == self.plan@.len());
        }
        self.pos = self.pos + 1;
        proof {
            lemma_step_wf(*old(self), *self, TaskState::Skipped);
        }
    }

    /// Starts the current task: `Pending -> Running`.  Only a task none
    /// of whose dependencies failed or was skipped may start.
    pub fn begin_current(&mut self)
        requires
            old(self).wf(),
            old(self).pos < old(self).plan@.len(),
            !dep_blocked(old(self).graph, old(self).states@, old(self).current()),
        ensures
            final(self).wf(),
            final(self).graph == old(self).graph,
            final(self).plan == old(self).plan,
            final(self).pos == old(self).pos,
            final(self).writer == old(self).writer,
            final(self).log == old(self).log,
            final(self).states@ == old(self).states@.update(
                old(self).current(),
                TaskState::Running,
            ),
    {
        let t = self.plan[self.pos];
        self.states.set(t, TaskState::Running);
        proof {
            let g = self.graph;
            let plan = self.plan@;
            let s1 = old(self).states@;
            let s2 = self.states@;
            let pos = self.pos as int;
            let tt = plan[pos] as int;
            assert forall|k: int| 0 <= k <= pos && k < plan.len() implies dep_blocked(
                g,
                s2,
                plan[k] as int,
            ) == dep_blocked(g, s1, plan[k] as int) by {
                lemma_blocked_preserved(g, plan, s1, s2, pos, k);
            }
            assert forall|k: int| 0 <= k < pos implies s2[plan[k] as int] == s1[plan[
                k
            ] as int] by {
                assert(plan[k] != plan[pos]);
            }
            assert forall|i: int|
                0 <= i < g.task_count() && !seq_has(plan.take(pos), i) implies ((
            #[trigger] s2[i]) is Pending || self.running_exception(i)) by {
                if i == tt {
                    assert(self.running_exception(i));
                } else {
                    assert(s1[i] == s2[i]);
                    assert(!old(self).running_exception(i));
                }
            }
            assert forall|e: int| 0 <= e < self.log@.len() implies #[trigger] self.log_entry_wf(
                e,
            ) by {
                assert(old(self).log_entry_wf(e));
                let p = self.log@[e];
                assert(plan[p.plan_pos] != plan[pos]);
            }
        }
    }

    /// Records the outcome of the current task, which must be `Running`:
    /// it becomes `Passed` (exit status zero) or `Failed` (anything
    /// else), the test point counter advances, and the returned text is
    /// exactly the task's TAP test point, ready to flush.
    pub fn finish_current(&mut self, outcome: ExecOutcome) -> (out: String)
        requires
            old(self).wf(),
            old(self).pos < old(self).plan@.len(),
            old(self).states@[old(self).current()] is Running,
        ensures
            final(self).wf(),
            final(self).graph == old(self).graph,
            final(self).plan == old(self).plan,
            final(self).pos == old(self).pos + 1,
            final(self).states@ == old(self).states@.update(
                old(self).current(),
                if outcome_ok(outcome) {
                    TaskState::Passed
                } else {
                    TaskState::Failed
                },
            ),
            final(self).writer.counter == old(self).writer.counter + 1,
            final(self).writer.failures == old(self).writer.failures + if outcome_ok(outcome) {
                0int
            } else {
                1int
            },
            final(self).log@ == old(self).log@.push(
                Point {
                    number: old(self).writer.counter + 1,
                    plan_pos: old(self).pos as int,
                    task: old(self).current(),
                    ok: outcome_ok(outcome),
                },
            ),
            out@ == test_point_text(
                point_result(
                    old(self).graph.names@[old(self).current()],
                    old(self).writer.counter + 1,
                    outcome,
                ),
            ),
    {
        proof {
            lemma_counter_le_pos(*old(self));
            lemma_count_failures_bounds(old(self).log@);
        }
        let ghost o = outcome;
        proof {
            assert(self.plan.len() == self.plan@.len());
        }
        let t = self.plan[self.pos];
        let ok = match &outcome {
            ExecOutcome::Completed { exit_code: Some(c), .. } => *c == 0,
            _ => false,
        };
        proof {
            assert(ok == outcome_ok(o));
        }
        let number = self.writer.counter + 1;
        let name = self.graph.names[t].clone();
        let result = match outcome {
            ExecOutcome::SpawnFailed { message } => (TapTestResult {
                number,
                name,
                ok: false,
                error_message: Some(message),
                exit_code: None,
                output: None,
            }),
            ExecOutcome::Completed { exit_code, message, output } => {
                let has_out = !output.as_str().is_empty();
                (TapTestResult {
                    number,
                    name,
                    ok,
                    error_message: if ok {
                        None
                    } else {
                        message
                    },
                    exit_code: if ok {
                        None
                    } else {
                        exit_code
                    },
                    output: if has_out {
                        Some(output)
                    } else {
                        None
                    },
                })
            },
        };
        proof {
            assert(result == point_result(
                old(self).graph.names@[old(self).current()],
                old(self).writer.counter + 1,
                o,
            ));
        }
        let mut out_str = String::new();
        write_test_point(&mut out_str, &result);
        self.states.set(t, if ok { TaskState::Passed } else { TaskState::Failed });
        self.writer.counter = number;
        if !ok {
            self.writer.failures = self.writer.failures + 1;
        }
        self.pos = self.pos + 1;
        let ghost point = Point {
            number: old(self).writer.counter + 1,
            plan_pos: old(self).pos as int,
            task: old(self).current(),
            ok: outcome_ok(o),
        };
        self.log = Ghost(self.log@.push(point));
        proof {
            lemma_step_wf(
                *old(self),
                *self,
                if outcome_ok(o) {
                    TaskState::Passed
                } else {
                    TaskState::Failed
                },
            );
        }
        out_str
    }

    /// The run succeeded exactly when no task failed; any skip implies a
    /// strictly failed ancestor, which already counted as a failure.
    pub fn success(&self) -> (b: bool)
        ensures
            b == (self.writer.failures == 0),
    {
        self.writer.failures == 0
    }
}

/// `d` is a direct dependency of `t`.
pub open spec fn has_dep(g: TaskGraph, t: int, d: int) -> bool {
    exists|j: int| 0 <= j < g.dep_count(t) && #[trigger] g.dep_of(t, j) == d
}

/// `c` walks the dependency graph: each element is a direct dependency
/// of the one before it.
pub open spec fn dep_chain(g: TaskGraph, c: Seq<int>) -> bool {
    &&& c.len() >= 1
    &&& forall|i: int| 0 <= i < c.len() ==> 0 <= #[trigger] c[i] < g.task_count()
    &&& forall|i: int| 0 <= i < c.len() - 1 ==> #[trigger] has_dep(g, c[i], c[i + 1])
}

/// Test-point numbers are contiguous from 1: the `e`-th emitted point
/// carries number `e + 1`, and the counter equals the number of points
/// emitted, so numbers strictly increase by one with no reuse.
pub proof fn lemma_points_numbered_consecutively(r: Runner)
    requires
        r.wf(),
    ensures
        forall|e: int| 0 <= e < r.log@.len() ==> (#[trigger] r.log@[e]).number == e + 1,
        r.writer.counter == r.log@.len(),
{
    assert forall|e: int| 0 <= e < r.log@.len() implies (#[trigger] r.log@[e]).number == e
        + 1 by {
        assert(r.log_entry_wf(e));
    }
}

/// A processed task that was skipped has a failed ancestor: the returned
/// chain of direct dependencies starts at the skipped task and ends at a
/// task that resolved to `Failed`.  Skips therefore never arise without
/// an actual failure upstream.
pub proof fn lemma_skipped_has_failed_ancestor(r: Runner, k: int) -> (c: Seq<int>)
    requires
        r.wf(),
        0 <= k < r.pos,
        r.states@[r.plan@[k] as int] is Skipped,
    ensures
        dep_chain(r.graph, c),
        c.len() >= 2,
        c[0] == r.plan@[k] as int,
        r.states@[c.last()] is Failed,
    decreases k,
{
    let g = r.graph;
    let plan = r.plan@;
    let t = plan[k] as int;
    assert(dep_blocked(g, r.states@, t));
    let j = choose|j: int|
        0 <= j < g.dep_count(t) && ((r.states@[#[trigger] g.dep_of(t, j)] is Failed) || (
        r.states@[g.dep_of(t, j)] is Skipped));
    let d = g.dep_of(t, j);
    assert(has_dep(g, t, d));
    assert(seq_has(plan.take(k), d));
    let m = choose|m: int| 0 <= m < plan.take(k).len() && plan.take(k)[m] as int == d;
    assert(plan[m] as int == d);
    if r.states@[d] is Failed {
        let c = seq![t, d];
        assert(c.last() == d);
        assert forall|i: int| 0 <= i < c.len() - 1 implies #[trigger] has_dep(
            g,
            c[i],
            c[i + 1],
        ) by {
            assert(c[0] == t && c[1] == d);
        }
        c
    } else {
        let rest = lemma_skipped_has_failed_ancestor(r, m);
        let c = seq![t] + rest;
        assert(c[0] == t);
        assert(c.last() == rest.last());
        assert forall|i: int| 0 <= i < c.len() implies 0 <= #[trigger] c[i] < g.task_count() by {
            if i > 0 {
                assert(c[i] == rest[i - 1]);
            }
        }
        assert forall|i: int| 0 <= i < c.len() - 1 implies #[trigger] has_dep(
            g,
            c[i],
            c[i + 1],
        ) by {
            if i == 0 {
                assert(c[0] == t && c[1] == rest[0]);
                assert(rest[0] == d);
            } else {
                let i0 = i - 1;
                assert(has_dep(g, rest[i0], rest[i0 + 1]));
                assert(c[i] == rest[i0] && c[i + 1] == rest[i0 + 1]);
            }
        }
        c
    }
}

/// Failure isolation: a processed task none of whose transitive
/// dependencies failed was not skipped — it executed — and reported a
/// test point.
pub proof fn lemma_isolated_task_reported(r: Runner, k: int)
    requires
        r.wf(),
        0 <= k < r.pos,
        forall|c: Seq<int>|
            #[trigger] dep_chain(r.graph, c) && c.len() >= 2 && c[0] == r.plan@[k] as int ==> !(
            r.states@[c.last()] is Failed),
    ensures
        !(r.states@[r.plan@[k] as int] is Skipped),
        log_has_pos(r.log@, k),
{
    if r.states@[r.plan@[k] as int] is Skipped {
        let c = lemma_skipped_has_failed_ancestor(r, k);
        assert(false);
    }
}

/// Skip propagation: a processed task with a failed transitive
/// dependency is `Skipped` — it gets no line in the history — while the
/// plan length (the TAP plan count) still includes it.
pub proof fn lemma_failed_dependency_skips(r: Runner, k: int, c: Seq<int>)
    requires
        r.wf(),
        0 <= k < r.pos,
        dep_chain(r.graph, c),
        c.len() >= 2,
        c[0] == r.plan@[k] as int,
        r.states@[c.last()] is Failed,
    ensures
        r.states@[r.plan@[k] as int] is Skipped,
        forall|e: int| 0 <= e < r.log@.len() ==> (#[trigger] r.log@[e]).plan_pos != k,
    decreases c.len(),
{
    let g = r.graph;
    let plan = r.plan@;
    let t = plan[k] as int;
    assert(has_dep(g, c[0int], c[0int + 1]));
    assert(has_dep(g, t, c[1]));
    let j = choose|j: int| 0 <= j < g.dep_count(t) && #[trigger] g.dep_of(t, j) == c[1];
    assert(seq_has(plan.take(k), c[1]));
    let m = choose|m: int| 0 <= m < plan.take(k).len() && plan.take(k)[m] as int == c[1];
    assert(plan[m] as int == c[1]);
    if c.len() == 2 {
        assert(c[1] == c.last());
        assert(dep_blocked(g, r.states@, t));
    } else {
        let rest = c.skip(1);
        assert(rest[0] == c[1]);
        assert(rest.last() == c.last());
        assert forall|i: int| 0 <= i < rest.len() - 1 implies #[trigger] has_dep(
            g,
            rest[i],
            rest[i + 1],
        ) by {
            assert(rest[i] == c[i + 1] && rest[i + 1] == c[i + 2]);
            assert(has_dep(g, c[i + 1], c[i + 2]));
        }
        lemma_failed_dependency_skips(r, m, rest);
        assert(r.states@[c[1]] is Skipped);
        assert(dep_blocked(g, r.states@, t));
    }
    assert forall|e: int| 0 <= e < r.log@.len() implies (#[trigger] r.log@[e]).plan_pos != k by {
        assert(r.log_entry_wf(e));
        if r.log@[e].plan_pos == k {
            assert(r.states@[t] is Passed || r.states@[t] is Failed);
        }
    }
}

proof fn lemma_log_pos_increases(r: Runner, e1: int, e2: int)
    requires
        r.wf(),
        0 <= e1 < e2 < r.log@.len(),
    ensures
        r.log@[e1].plan_pos < r.log@[e2].plan_pos,
    decreases e2 - e1,
{
    if e1 + 1 < e2 {
        lemma_log_pos_increases(r, e1 + 1, e2);
    }
}

/// A task reports at most once, however many requested tasks depend on
/// it: distinct test points always belong to distinct tasks.
pub proof fn lemma_task_reported_once(r: Runner, e1: int, e2: int)
    requires
        r.wf(),
        0 <= e1 < r.log@.len(),
        0 <= e2 < r.log@.len(),
        e1 != e2,
    ensures
        r.log@[e1].task != r.log@[e2].task,
{
    assert(r.log_entry_wf(e1));
    assert(r.log_entry_wf(e2));
    if e1 < e2 {
        lemma_log_pos_increases(r, e1, e2);
    } else {
        lemma_log_pos_increases(r, e2, e1);
    }
}

/// A dependency's test point precedes its dependents': the shared
/// dependency of several requested tasks reports before any of them.
pub proof fn lemma_dependency_point_precedes(r: Runner, e1: int, e2: int, j: int)
    requires
        r.wf(),
        0 <= e1 < r.log@.len(),
        0 <= e2 < r.log@.len(),
        0 <= j < r.graph.dep_count(r.log@[e2].task),
        r.log@[e1].task == r.graph.dep_of(r.log@[e2].task, j),
    ensures
        r.log@[e1].number < r.log@[e2].number,
{
    let g = r.graph;
    let plan = r.plan@;
    assert(r.log_entry_wf(e1));
    assert(r.log_entry_wf(e2));
    let p1 = r.log@[e1].plan_pos;
    let p2 = r.log@[e2].plan_pos;
    assert(seq_has(plan.take(p2), g.dep_of(plan[p2] as int, j)));
    let m = choose|m: int|
        0 <= m < plan.take(p2).len() && plan.take(p2)[m] as int == g.dep_of(plan[p2] as int, j);
    assert(plan[m] as int == r.log@[e1].task);
    assert(plan[m] == plan[p1]);
    assert(m == p1);
    if e2 <= e1 {
        if e2 < e1 {
            lemma_log_pos_increases(r, e2, e1);
        }
        assert(false);
    }
}

proof fn lemma_zero_failures_all_ok(log: Seq<Point>)
    requires
        count_failures(log) == 0,
    ensures
        forall|e: int| 0 <= e < log.len() ==> (#[trigger] log[e]).ok,
    decreases log.len(),
{
    if log.len() > 0 {
        lemma_count_failures_bounds(log.drop_last());
        lemma_zero_failures_all_ok(log.drop_last());
        assert forall|e: int| 0 <= e < log.len() implies (#[trigger] log[e]).ok by {
            if e < log.len() - 1 {
                assert(log.drop_last()[e] == log[e]);
            } else {
                assert(log[e] == log.last());
            }
        }
    }
}

/// The exit-status convention: a finished run with no recorded failure
/// had every planned task reach `Passed` — no task failed, and none was
/// skipped, since every skip has a strictly failed ancestor whose own
/// failure would have been counted.
pub proof fn lemma_clean_run_all_passed(r: Runner, k: int)
    requires
        r.wf(),
        r.pos == r.plan@.len(),
        r.writer.failures == 0,
        0 <= k < r.plan@.len(),
    ensures
        r.states@[r.plan@[k] as int] is Passed,
{
    lemma_zero_failures_all_ok(r.log@);
    let plan = r.plan@;
    if r.states@[plan[k] as int] is Failed {
        assert(log_has_pos(r.log@, k));
        let e = choose|e: int| 0 <= e < r.log@.len() && (#[trigger] r.log@[e]).plan_pos == k;
        assert(r.log_entry_wf(e));
        assert(false);
    }
    if r.states@[plan[k] as int] is Skipped {
        let c = lemma_skipped_has_failed_ancestor(r, k);
        let b = c.last();
        // the failed ancestor is itself a processed plan position
        assert(plan.take(r.pos as int) =~= plan);
        assert(!(r.states@[b] is Pending) && !(r.states@[b] is Running));
        assert(seq_has(plan, b));
        let m = choose|m: int| 0 <= m < plan.len() && plan[m] as int == b;
        assert(log_has_pos(r.log@, m));
        let e = choose|e: int| 0 <= e < r.log@.len() && (#[trigger] r.log@[e]).plan_pos == m;
        assert(r.log_entry_wf(e));
        assert(false);
    }
}

/// A passing task with no captured output gets the bare status line and
/// nothing else: no diagnostic block is emitted.
pub proof fn lemma_success_without_output_is_bare(name: String, number: int, o: ExecOutcome)
    requires
        outcome_ok(o),
        outcome_output(o) is None,
    ensures
        test_point_text(point_result(name, number, o)) == crate::tap::point_line_text(
            point_result(name, number, o),
        ),
{
    let r = point_result(name, number, o);
    assert(!crate::tap::spec_has_yaml_block(r));
    assert(test_point_text(r) =~= crate::tap::point_line_text(r));
}

/// Updating the state of the task at plan position `pos` does not change
/// whether any task at position `k <= pos` is blocked: every dependency
/// of such a task sits strictly earlier in the plan.
proof fn lemma_blocked_preserved(
    g: TaskGraph,
    plan: Seq<usize>,
    s1: Seq<TaskState>,
    s2: Seq<TaskState>,
    pos: int,
    k: int,
)
    requires
        g.wf(),
        plan.no_duplicates(),
        forall|m: int|
            0 <= m < plan.len() ==> 0 <= ((#[trigger] plan[m]) as int) < g.task_count(),
        plan_ordered(g, plan),
        0 <= pos < plan.len(),
        0 <= k <= pos,
        s1.len() == g.task_count(),
        s2.len() == g.task_count(),
        forall|i: int| 0 <= i < g.task_count() && i != plan[pos] as int ==> s1[i] == s2[i],
    ensures
        dep_blocked(g, s1, plan[k] as int) == dep_blocked(g, s2, plan[k] as int),
{
    let t = plan[k] as int;
    assert forall|j: int| 0 <= j < g.dep_count(t) implies s1[#[trigger] g.dep_of(t, j)] == s2[
        g.dep_of(t, j)
    ] by {
        assert(seq_has(plan.take(k), g.dep_of(t, j)));
        let m = choose|m: int|
            0 <= m < plan.take(k).len() && plan.take(k)[m] as int == g.dep_of(t, j);
        assert(plan[m] as int == g.dep_of(t, j));
        assert(plan[m] != plan[pos]);
    }
    if dep_blocked(g, s1, t) {
        let j = choose|j: int|
            0 <= j < g.dep_count(t) && ((s1[#[trigger] g.dep_of(t, j)] is Failed) || (s1[g.dep_of(
                t,
                j,
            )] is Skipped));
        assert(dep_blocked(g, s2, t));
    }
    if dep_blocked(g, s2, t) {
        let j = choose|j: int|
            0 <= j < g.dep_count(t) && ((s2[#[trigger] g.dep_of(t, j)] is Failed) || (s2[g.dep_of(
                t,
                j,
            )] is Skipped));
        assert(dep_blocked(g, s1, t));
    }
}

proof fn lemma_log_pos_ge(r: Runner, e: int)
    requires
        r.wf(),
        0 <= e < r.log@.len(),
    ensures
        r.log@[e].plan_pos >= e,
    decreases e,
{
    assert(r.log_entry_wf(e));
    if e > 0 {
        lemma_log_pos_ge(r, e - 1);
        assert(r.log@[e - 1].plan_pos < r.log@[e].plan_pos);
    }
}

/// At most one test point per processed plan position, so the counter
/// never exceeds the cursor.
proof fn lemma_counter_le_pos(r: Runner)
    requires
        r.wf(),
    ensures
        r.log@.len() <= r.pos,
{
    if r.log@.len() > 0 {
        let e = r.log@.len() - 1;
        lemma_log_pos_ge(r, e);
        assert(r.log_entry_wf(e));
    }
}

proof fn lemma_count_failures_bounds(log: Seq<Point>)
    ensures
        0 <= count_failures(log) <= log.len(),
    decreases log.len(),
{
    if log.len() > 0 {
        lemma_count_failures_bounds(log.drop_last());
    }
}

/// Re-establishes the run invariant after the current task resolves to
/// `outcome_state` (one of `Passed`, `Failed`, `Skipped`) and the cursor
/// advances, with the test point — when one is emitted — appended to the
/// history.
proof fn lemma_step_wf(pre: Runner, post: Runner, outcome_state: TaskState)
    requires
        pre.wf(),
        pre.pos < pre.plan@.len(),
        resolved(outcome_state),
        post.graph == pre.graph,
        post.plan == pre.plan,
        post.pos == pre.pos + 1,
        post.states@ == pre.states@.update(pre.current(), outcome_state),
        outcome_state is Skipped ==> {
            &&& dep_blocked(pre.graph, pre.states@, pre.current())
            &&& post.writer == pre.writer
            &&& post.log == pre.log
        },
        !(outcome_state is Skipped) ==> {
            &&& pre.states@[pre.current()] is Running
            &&& post.writer.counter == pre.writer.counter + 1
            &&& post.writer.failures == pre.writer.failures + if outcome_state is Passed {
                0int
            } else {
                1int
            }
            &&& post.log@ == pre.log@.push(
                Point {
                    number: pre.writer.counter + 1,
                    plan_pos: pre.pos as int,
                    task: pre.current(),
                    ok: outcome_state is Passed,
                },
            )
        },
    ensures
        post.wf(),
{
    let g = pre.graph;
    let plan = pre.plan@;
    let s1 = pre.states@;
    let s2 = post.states@;
    let pos = pre.pos as int;
    let t = plan[pos] as int;
    assert(s2.len() == g.task_count());
    assert forall|k: int| 0 <= k <= pos implies dep_blocked(g, s2, plan[k] as int) == dep_blocked(
        g,
        s1,
        plan[k] as int,
    ) by {
        lemma_blocked_preserved(g, plan, s1, s2, pos, k);
    }
    assert forall|k: int| 0 <= k < pos implies s2[plan[k] as int] == s1[plan[k] as int] by {
        assert(plan[k] != plan[pos]);
    }
    // the current task was not blocked when it ran
    if !(outcome_state is Skipped) {
        assert(!seq_has(plan.take(pos), t)) by {
            if seq_has(plan.take(pos), t) {
                let m = choose|m: int|
                    0 <= m < plan.take(pos).len() && plan.take(pos)[m] as int == t;
                assert(plan[m] == plan[pos]);
            }
        }
        assert(pre.running_exception(t));
        assert(!dep_blocked(g, s1, t));
    }
    // processed positions keep their classification
    assert forall|k: int| 0 <= k < post.pos implies resolved(
        #[trigger] s2[plan[k] as int],
    ) && (s2[plan[k] as int] is Skipped <==> dep_blocked(g, s2, plan[k] as int)) by {
        if k < pos {
            assert(s2[plan[k] as int] == s1[plan[k] as int]);
        } else {
            assert(s2[t] == outcome_state);
        }
    }
    // unprocessed positions stay pending
    assert forall|i: int|
        0 <= i < g.task_count() && !seq_has(plan.take(post.pos as int), i) implies ((
    #[trigger] s2[i]) is Pending || post.running_exception(i)) by {
        assert(plan.take(post.pos as int)[pos] as int == t);
        assert(i != t);
        assert forall|m: int| 0 <= m < pos && plan.take(pos)[m] as int == i implies false by {
            assert(plan.take(post.pos as int)[m] as int == i);
        }
        assert(!seq_has(plan.take(pos), i));
        assert(s1[i] == s2[i]);
        assert(!pre.running_exception(i));
    }
    // the emitted history
    if outcome_state is Skipped {
        assert forall|e: int| 0 <= e < post.log@.len() implies #[trigger] post.log_entry_wf(
            e,
        ) by {
            assert(pre.log_entry_wf(e));
            let p = post.log@[e];
            assert(plan[p.plan_pos] != plan[pos]);
        }
        assert forall|k: int|
            0 <= k < post.pos && !((#[trigger] s2[plan[k] as int]) is Skipped) implies log_has_pos(
            post.log@,
            k,
        ) by {
            assert(k < pos);
            assert(s1[plan[k] as int] == s2[plan[k] as int]);
        }
    } else {
        let p = Point {
            number: pre.writer.counter + 1,
            plan_pos: pos,
            task: t,
            ok: outcome_state is Passed,
        };
        assert(post.log@.drop_last() =~= pre.log@);
        assert(post.log@.last() == p);
        assert(count_failures(post.log@) == count_failures(pre.log@) + if p.ok {
            0int
        } else {
            1int
        });
        assert forall|e: int| 0 <= e < post.log@.len() implies #[trigger] post.log_entry_wf(
            e,
        ) by {
            if e < pre.log@.len() {
                assert(pre.log_entry_wf(e));
                let q = post.log@[e];
                assert(q == pre.log@[e]);
                assert(plan[q.plan_pos] != plan[pos]);
            } else {
                assert(post.log@[e] == p);
                assert(s2[t] == outcome_state);
            }
        }
        assert forall|e: int|
            0 <= e && e + 1 < post.log@.len() implies (#[trigger] post.log@[e]).plan_pos
            < post.log@[e + 1].plan_pos by {
            if e + 1 < pre.log@.len() {
                assert(post.log@[e] == pre.log@[e]);
                assert(post.log@[e + 1] == pre.log@[e + 1]);
            } else {
                assert(pre.log_entry_wf(e));
                assert(post.log@[e] == pre.log@[e]);
                assert(post.log@[e + 1] == p);
            }
        }
        assert forall|k: int|
            0 <= k < post.pos && !((#[trigger] s2[plan[k] as int]) is Skipped) implies log_has_pos(
            post.log@,
            k,
        ) by {
            if k < pos {
                assert(s1[plan[k] as int] == s2[plan[k] as int]);
                assert(log_has_pos(pre.log@, k));
                let e = choose|e: int|
                    0 <= e < pre.log@.len() && (#[trigger] pre.log@[e]).plan_pos == k;
                assert((post.log@[e]).plan_pos == k);
            } else {
                assert((post.log@[post.log@.len() - 1]).plan_pos == k);
            }
        }
    }
}

} // verus!
