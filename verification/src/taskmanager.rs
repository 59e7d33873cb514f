//! Priority- and dependency-aware task scheduling.
//!
//! `TaskManager` is the bookkeeping core of the scheduler: it owns every task
//! record, assigns ids, tracks dependencies, and decides which task a worker
//! may run next.  Running the task actions themselves, and parking worker
//! threads, is the embedding program's job: a worker repeatedly calls
//! [`TaskManager::pop_ready`], runs the popped task's action outside the lock,
//! and reports the outcome through [`TaskManager::complete_task`].
use vstd::prelude::*;

use crate::reach::{
    count_false, lemma_count_false_update_true, lemma_reach_congruence, lemma_reach_cons,
    lemma_reach_extend, lemma_reach_in_closed, lemma_reach_refl, lemma_reach_trans, reach_n,
    reaches,
};

verus! {

/// Identifier of a task: assigned at enqueue time, strictly increasing,
/// never reused.
pub type TaskId = usize;

/// Why a task ended in the `Failed` state.
#[derive(Clone, Copy, PartialEq, Eq, Structural, Debug)]
pub enum FailureKind {
    /// The task's action ran and reported an error.
    ActionFailed,
    /// A task in the dependency chain was cancelled, so the dependent can
    /// never become ready.
    DependencyCancelled,
}

/// Lifecycle state of a task.  `Completed`, `Failed` and `Cancelled` are
/// terminal: once reached, the task never leaves them.
#[derive(Clone, Copy, PartialEq, Eq, Structural, Debug)]
pub enum TaskState {
    /// Registered and waiting; ready only when every dependency is completed.
    Queued,
    /// Popped by a worker; its action is running.
    Running,
    /// The action ran to completion.
    Completed,
    /// The task will never complete, for the recorded reason.
    Failed(FailureKind),
    /// Cancelled while still queued.
    Cancelled,
}

/// Errors returned by `add_task`.
#[derive(Clone, Copy, PartialEq, Eq, Structural, Debug)]
pub enum SchedulerError {
    /// The declared dependencies would close a cycle through the new task.
    DependencyCycle,
    /// `shutdown` has begun; no new task is accepted.
    SchedulerClosed,
}

/// One task record: its priority (lower value is served first), the ids it
/// waits for, and its lifecycle state.  The action itself is held by the
/// embedding program, keyed by the task's id.
pub struct Task {
    priority: i32,
    deps: Vec<TaskId>,
    state: TaskState,
}

/// Mathematical image of one task record.
pub ghost struct TaskView {
    pub priority: i32,
    pub deps: Seq<TaskId>,
    pub state: TaskState,
}

impl View for Task {
    type V = TaskView;

    closed spec fn view(&self) -> TaskView {
        TaskView { priority: self.priority, deps: self.deps@, state: self.state }
    }
}

impl Task {
    /// The record's priority; lower values are served first.
    pub fn priority(&self) -> (r: i32)
        ensures
            r == self@.priority,
    {
        self.priority
    }

    /// The record's lifecycle state.
    pub fn state(&self) -> (r: TaskState)
        ensures
            r == self@.state,
    {
        self.state
    }
}

/// Whether a state is terminal.
pub open spec fn is_terminal(st: TaskState) -> bool {
    st == TaskState::Completed || st matches TaskState::Failed(_) || st == TaskState::Cancelled
}

/// Whether a state implies that every dependency completed: a task is only
/// started once its dependencies completed, and keeps that property in the
/// states it can reach from `Running`.
pub open spec fn started_state(st: TaskState) -> bool {
    st == TaskState::Running || st == TaskState::Completed || st == TaskState::Failed(
        FailureKind::ActionFailed,
    )
}

/// Whether a state poisons dependents: a dependent of such a task can never
/// run and is failed with `DependencyCancelled` rather than starved.
pub open spec fn poisoned_state(st: TaskState) -> bool {
    st == TaskState::Cancelled || st == TaskState::Failed(FailureKind::DependencyCancelled)
}

/// A dependency counts as resolved exactly when it names a registered task
/// that completed.
pub open spec fn dep_completed(s: Seq<TaskView>, d: TaskId) -> bool {
    d < s.len() && s[d as int].state == TaskState::Completed
}

/// Every dependency of task `t` is resolved.
pub open spec fn all_deps_completed(s: Seq<TaskView>, t: int) -> bool {
    forall|j: int| 0 <= j < s[t].deps.len() ==> dep_completed(s, #[trigger] s[t].deps[j])
}

/// No dependency of task `t` names a cancelled or dependency-cancelled task.
pub open spec fn no_poisoned_dep(s: Seq<TaskView>, t: int) -> bool {
    forall|j: int|
        0 <= j < s[t].deps.len() ==> !(#[trigger] s[t].deps[j] < s.len() && poisoned_state(
            s[s[t].deps[j] as int].state,
        ))
}

/// Task `t` is ready: queued, with every dependency completed.
pub open spec fn ready(s: Seq<TaskView>, t: int) -> bool {
    &&& 0 <= t < s.len()
    &&& s[t].state == TaskState::Queued
    &&& all_deps_completed(s, t)
}

/// The record invariant of the scheduler:
/// a task runs (or has run) only with every dependency completed, and a
/// queued task never waits on a task that cancellation has already doomed.
pub open spec fn inv_tasks(s: Seq<TaskView>) -> bool {
    &&& forall|t: int|
        0 <= t < s.len() && started_state(#[trigger] s[t].state) ==> all_deps_completed(s, t)
    &&& forall|t: int|
        0 <= t < s.len() && #[trigger] s[t].state == TaskState::Queued ==> no_poisoned_dep(s, t)
}

/// One blocker edge: task `a` declares a dependency on `b`.
pub open spec fn dep_edge(s: Seq<TaskView>, a: TaskId, b: TaskId) -> bool {
    a < s.len() && s[a as int].deps.contains(b)
}

/// The blocker edges of a record store, as a relation on ids.
pub open spec fn dep_edges(s: Seq<TaskView>) -> spec_fn(TaskId, TaskId) -> bool {
    |a: TaskId, b: TaskId| dep_edge(s, a, b)
}

/// Some declared dependency reaches id `x` through the stored blocker edges.
pub open spec fn decl_reaches(s: Seq<TaskView>, deps: Seq<TaskId>, x: TaskId) -> bool {
    exists|k: int| 0 <= k < deps.len() && reaches(dep_edges(s), #[trigger] deps[k], x)
}

/// Registering a task with dependency list `deps` would close a cycle: the
/// id about to be assigned is `s.len()`, and some declared dependency leads
/// back to it.
pub open spec fn creates_cycle(s: Seq<TaskView>, deps: Seq<TaskId>) -> bool {
    decl_reaches(s, deps, s.len() as usize)
}

/// Whether `v` holds `x`.
fn contains_id(v: &Vec<TaskId>, x: TaskId) -> (r: bool)
    ensures
        r == v@.contains(x),
{
    let mut k: usize = 0;
    while k < v.len()
        invariant
            k <= v.len(),
            forall|j: int| 0 <= j < k ==> v@[j] != x,
        decreases v.len() - k,
    {
        if v[k] == x {
            return true;
        }
        k += 1;
    }
    false
}

/// A marking is closed under the stored blocker edges (for targets that are
/// registered ids).
spec fn sat_closed(s: Seq<TaskView>, marked: Seq<bool>) -> bool {
    forall|i: int, j: int|
        0 <= i < marked.len() && marked[i] && 0 <= j < s[i].deps.len() && #[trigger] s[i].deps[j]
            < marked.len() ==> marked[s[i].deps[j] as int]
}

/// Decide whether dependency list `deps` for the task about to get id
/// `tasks.len()` would close a cycle, by saturating the set of ids reachable
/// from the declared dependencies.
#[verifier::loop_isolation(false)]
#[verifier::rlimit(100)]
fn creates_cycle_exec(tasks: &Vec<Task>, deps: &Vec<TaskId>) -> (r: bool)
    ensures
        r == creates_cycle(tviews(tasks@), deps@),
{
    let n = tasks.len();
    let ghost s = tviews(tasks@);
    let ghost e = dep_edges(s);

    // A declared dependency on the id being assigned is itself a cycle.
    let mut k: usize = 0;
    while k < deps.len()
        invariant
            k <= deps.len(),
            forall|j: int| 0 <= j < k ==> deps@[j] != n,
        decreases deps.len() - k,
    {
        if deps[k] == n {
            proof {
                lemma_reach_refl(e, n);
                assert(0 <= k < deps@.len() && reaches(e, deps@[k as int], s.len() as usize));
            }
            return true;
        }
        k += 1;
    }

    // Mark the declared dependencies that name registered tasks.
    let mut marked: Vec<bool> = Vec::new();
    let mut i: usize = 0;
    while i < n
        invariant
            i <= n,
            marked@.len() == i,
            forall|j: int| 0 <= j < i ==> !marked@[j],
        decreases n - i,
    {
        marked.push(false);
        i += 1;
    }
    let mut k: usize = 0;
    while k < deps.len()
        invariant
            k <= deps.len(),
            marked@.len() == n,
            forall|i2: int| 0 <= i2 < n && marked@[i2] ==> decl_reaches(s, deps@, i2 as usize),
            forall|k2: int| 0 <= k2 < k && deps@[k2] < n ==> marked@[deps@[k2] as int],
        decreases deps.len() - k,
    {
        let d = deps[k];
        if d < n {
            if !marked[d] {
                marked.set(d, true);
                proof {
                    lemma_reach_refl(e, d);
                    assert(0 <= k < deps@.len() && reaches(e, deps@[k as int], d));
                }
            }
        }
        k += 1;
    }

    // Saturate: follow blocker edges until nothing new is reachable.
    let mut changed = true;
    while changed
        invariant
            marked@.len() == n,
            forall|i2: int| 0 <= i2 < n && marked@[i2] ==> decl_reaches(s, deps@, i2 as usize),
            forall|k2: int| 0 <= k2 < deps@.len() && deps@[k2] < n ==> marked@[deps@[k2] as int],
            !changed ==> sat_closed(s, marked@),
        decreases 2 * count_false(marked@) + (if changed {
            1int
        } else {
            0int
        }),
    {
        changed = false;
        let ghost m0 = marked@;
        let mut i: usize = 0;
        while i < n
            invariant
                i <= n,
                marked@.len() == n,
                forall|i2: int| 0 <= i2 < n && marked@[i2] ==> decl_reaches(s, deps@, i2 as usize),
                forall|k2: int| 0 <= k2 < deps@.len() && deps@[k2] < n ==> marked@[deps@[k2] as int],
                changed ==> count_false(marked@) < count_false(m0),
                !changed ==> marked@ == m0,
                !changed ==> forall|i2: int, j: int|
                    0 <= i2 < i && marked@[i2] && 0 <= j < s[i2].deps.len()
                        && #[trigger] s[i2].deps[j] < n ==> marked@[s[i2].deps[j] as int],
            decreases n - i,
        {
            if marked[i] {
                let mut j: usize = 0;
                while j < tasks[i].deps.len()
                    invariant
                        j <= s[i as int].deps.len(),
                        marked@.len() == n,
                        marked@[i as int],
                        forall|i2: int|
                            0 <= i2 < n && marked@[i2] ==> decl_reaches(s, deps@, i2 as usize),
                        forall|k2: int|
                            0 <= k2 < deps@.len() && deps@[k2] < n ==> marked@[deps@[k2] as int],
                        changed ==> count_false(marked@) < count_false(m0),
                        !changed ==> marked@ == m0,
                        !changed ==> forall|i2: int, j2: int|
                            0 <= i2 < i && marked@[i2] && 0 <= j2 < s[i2].deps.len()
                                && #[trigger] s[i2].deps[j2] < n ==> marked@[s[i2].deps[j2] as int],
                        !changed ==> forall|j2: int|
                            0 <= j2 < j && #[trigger] s[i as int].deps[j2] < n
                                ==> marked@[s[i as int].deps[j2] as int],
                    decreases s[i as int].deps.len() - j,
                {
                    let d = tasks[i].deps[j];
                    if d < n {
                        if !marked[d] {
                            proof {
                                let k0 = choose|k0: int|
                                    0 <= k0 < deps@.len() && reaches(e, #[trigger] deps@[k0], i);
                                assert(s[i as int].deps[j as int] == d);
                                assert(dep_edge(s, i, d));
                                assert(e(i, d));
                                lemma_reach_extend(e, deps@[k0], i, d);
                                lemma_count_false_update_true(marked@, d as int);
                            }
                            marked.set(d, true);
                            changed = true;
                        }
                    }
                    j += 1;
                }
            }
            i += 1;
        }
    }

    // The cycle, if any, closes with an edge onto the id being assigned.
    let mut i: usize = 0;
    while i < n
        invariant
            i <= n,
            forall|i2: int| 0 <= i2 < i && marked@[i2] ==> !s[i2].deps.contains(n),
        decreases n - i,
    {
        if marked[i] {
            if contains_id(&tasks[i].deps, n) {
                proof {
                    let k0 = choose|k0: int|
                        0 <= k0 < deps@.len() && reaches(e, #[trigger] deps@[k0], i);
                    assert(s[i as int].deps == tasks@[i as int]@.deps);
                    assert(dep_edge(s, i, n));
                    assert(e(i, n));
                    lemma_reach_extend(e, deps@[k0], i, n);
                }
                return true;
            }
        }
        i += 1;
    }
    proof {
        if creates_cycle(s, deps@) {
            let k0 = choose|k0: int|
                0 <= k0 < deps@.len() && reaches(e, #[trigger] deps@[k0], s.len() as usize);
            let p = |x: TaskId| (x < n && marked@[x as int]) || x > n;
            assert forall|x: TaskId, y: TaskId| p(x) && #[trigger] e(x, y) implies p(y) by {
                assert(dep_edge(s, x, y));
                let j = choose|j: int| 0 <= j < s[x as int].deps.len() && s[x as int].deps[j] == y;
                if y < n {
                    assert(marked@[s[x as int].deps[j] as int]);
                } else if y == n {
                    assert(s[x as int].deps.contains(n));
                    assert(false);
                }
            }
            assert(p(deps@[k0]));
            lemma_reach_in_closed(e, p, deps@[k0], n);
            assert(false);
        }
    }
    false
}

/// One poison edge: if task `a` can never complete, the queued task `b`
/// waiting on it can never run.
pub open spec fn poison_edge(s: Seq<TaskView>, a: TaskId, b: TaskId) -> bool {
    b < s.len() && s[b as int].state == TaskState::Queued && s[b as int].deps.contains(a)
}

/// The poison edges of a record store, as a relation on ids.
pub open spec fn poison_edges(s: Seq<TaskView>) -> spec_fn(TaskId, TaskId) -> bool {
    |a: TaskId, b: TaskId| poison_edge(s, a, b)
}

/// Task `t` is doomed by the task `root` that can never complete: a chain of
/// queued tasks leads from `root` to `t`.
pub open spec fn doomed(s: Seq<TaskView>, root: TaskId, t: TaskId) -> bool {
    t != root && reaches(poison_edges(s), root, t)
}

/// The record store after every task doomed by `root` is failed with
/// `DependencyCancelled`.
pub open spec fn spec_poison(s: Seq<TaskView>, root: TaskId) -> Seq<TaskView> {
    Seq::new(
        s.len(),
        |t: int|
            if doomed(s, root, t as usize) {
                TaskView {
                    state: TaskState::Failed(FailureKind::DependencyCancelled),
                    ..s[t]
                }
            } else {
                s[t]
            },
    )
}

/// Overwrite the state of record `i`, leaving everything else unchanged.
fn set_state(tasks: &mut Vec<Task>, i: usize, st: TaskState)
    requires
        i < old(tasks)@.len(),
    ensures
        final(tasks)@.len() == old(tasks)@.len(),
        tviews(final(tasks)@) == tviews(old(tasks)@).update(
            i as int,
            TaskView { state: st, ..tviews(old(tasks)@)[i as int] },
        ),
{
    let elem = &mut tasks[i];
    elem.state = st;
    proof {
        assert(tviews(tasks@) =~= tviews(old(tasks)@).update(
            i as int,
            TaskView { state: st, ..tviews(old(tasks)@)[i as int] },
        ));
    }
}

/// A marking is closed under the poison edges.
spec fn poison_closed(s: Seq<TaskView>, marked: Seq<bool>) -> bool {
    forall|t: int|
        0 <= t < marked.len() && s[t].state == TaskState::Queued && (exists|j: int|
            0 <= j < s[t].deps.len() && #[trigger] s[t].deps[j] < marked.len()
                && marked[s[t].deps[j] as int]) ==> marked[t]
}

/// Fail every queued task that transitively waits on `root`, which can never
/// complete.
#[verifier::loop_isolation(false)]
#[verifier::rlimit(100)]
fn poison_from(tasks: &mut Vec<Task>, root: TaskId)
    requires
        root < old(tasks)@.len(),
    ensures
        tviews(final(tasks)@) == spec_poison(tviews(old(tasks)@), root),
{
    let n = tasks.len();
    let ghost s = tviews(tasks@);
    let ghost pe = poison_edges(s);

    let mut marked: Vec<bool> = Vec::new();
    let mut i: usize = 0;
    while i < n
        invariant
            i <= n,
            marked@.len() == i,
            forall|j: int| 0 <= j < i ==> !marked@[j],
        decreases n - i,
    {
        marked.push(false);
        i += 1;
    }
    marked.set(root, true);
    proof {
        lemma_reach_refl(pe, root);
    }

    // Saturate: a queued task with a marked dependency is marked in turn.
    let mut changed = true;
    while changed
        invariant
            marked@.len() == n,
            marked@[root as int],
            forall|t: int| 0 <= t < n && marked@[t] ==> reaches(pe, root, t as usize),
            !changed ==> poison_closed(s, marked@),
        decreases 2 * count_false(marked@) + (if changed {
            1int
        } else {
            0int
        }),
    {
        changed = false;
        let ghost m0 = marked@;
        let mut t: usize = 0;
        while t < n
            invariant
                t <= n,
                marked@.len() == n,
                marked@[root as int],
                forall|t2: int| 0 <= t2 < n && marked@[t2] ==> reaches(pe, root, t2 as usize),
                changed ==> count_false(marked@) < count_false(m0),
                !changed ==> marked@ == m0,
                !changed ==> forall|t2: int|
                    0 <= t2 < t && s[t2].state == TaskState::Queued && (exists|j: int|
                        0 <= j < s[t2].deps.len() && #[trigger] s[t2].deps[j] < n
                            && marked@[s[t2].deps[j] as int]) ==> marked@[t2],
            decreases n - t,
        {
            let is_queued = match tasks[t].state {
                TaskState::Queued => true,
                _ => false,
            };
            if is_queued && !marked[t] {
                let mut hit = false;
                let mut j: usize = 0;
                while j < tasks[t].deps.len()
                    invariant
                        j <= s[t as int].deps.len(),
                        marked@.len() == n,
                        hit ==> exists|j2: int|
                            0 <= j2 < s[t as int].deps.len() && #[trigger] s[t as int].deps[j2] < n
                                && marked@[s[t as int].deps[j2] as int],
                        !hit ==> forall|j2: int|
                            0 <= j2 < j ==> !(#[trigger] s[t as int].deps[j2] < n
                                && marked@[s[t as int].deps[j2] as int]),
                    decreases s[t as int].deps.len() - j,
                {
                    let d = tasks[t].deps[j];
                    if d < n {
                        if marked[d] {
                            hit = true;
                        }
                    }
                    j += 1;
                }
                if hit {
                    proof {
                        let j2 = choose|j2: int|
                            0 <= j2 < s[t as int].deps.len() && #[trigger] s[t as int].deps[j2] < n
                                && marked@[s[t as int].deps[j2] as int];
                        let d = s[t as int].deps[j2];
                        assert(s[t as int].deps.contains(d));
                        assert(poison_edge(s, d, t));
                        assert(pe(d, t));
                        lemma_reach_extend(pe, root, d, t);
                        lemma_count_false_update_true(marked@, t as int);
                    }
                    marked.set(t, true);
                    changed = true;
                }
            }
            t += 1;
        }
    }

    // Every id the saturation reached, and no other, is doomed.
    proof {
        assert forall|t: TaskId| t < n implies marked@[t as int] == reaches(pe, root, t) by {
            if reaches(pe, root, t) {
                let p = |x: TaskId| x < n && marked@[x as int];
                assert forall|x: TaskId, y: TaskId| p(x) && #[trigger] pe(x, y) implies p(y) by {
                    assert(poison_edge(s, x, y));
                    let j = choose|j: int|
                        0 <= j < s[y as int].deps.len() && s[y as int].deps[j] == x;
                    assert(s[y as int].deps[j] < n && marked@[s[y as int].deps[j] as int]);
                }
                lemma_reach_in_closed(pe, p, root, t);
            }
        }
    }

    // Record the verdicts.
    let mut t: usize = 0;
    while t < n
        invariant
            t <= n,
            tasks@.len() == n,
            forall|i2: int|
                0 <= i2 < n ==> tviews(tasks@)[i2] == (if i2 < t && doomed(s, root, i2 as usize) {
                    TaskView {
                        state: TaskState::Failed(FailureKind::DependencyCancelled),
                        ..s[i2]
                    }
                } else {
                    s[i2]
                }),
        decreases n - t,
    {
        if marked[t] && t != root {
            set_state(tasks, t, TaskState::Failed(FailureKind::DependencyCancelled));
        }
        t += 1;
    }
    proof {
        assert(tviews(tasks@) =~= spec_poison(s, root));
    }
}

/// The record invariant, tolerating `root` as the one task that queued tasks
/// may still wait on although it is already poisoned.
spec fn inv_except_root(s: Seq<TaskView>, root: TaskId) -> bool {
    &&& forall|t: int|
        0 <= t < s.len() && started_state(#[trigger] s[t].state) ==> all_deps_completed(s, t)
    &&& forall|t: int, j: int|
        0 <= t < s.len() && s[t].state == TaskState::Queued && 0 <= j < s[t].deps.len()
            && #[trigger] s[t].deps[j] < s.len() && poisoned_state(s[s[t].deps[j] as int].state)
            ==> s[t].deps[j] == root
}

/// A task doomed by `root` is a registered, still-queued task: poison chains
/// run through queued dependents only.
proof fn lemma_doomed_is_queued(s: Seq<TaskView>, root: TaskId, t: TaskId)
    requires
        doomed(s, root, t),
    ensures
        t < s.len(),
        s[t as int].state == TaskState::Queued,
{
    let pe = poison_edges(s);
    let p = |x: TaskId| x == root || (x < s.len() && s[x as int].state == TaskState::Queued);
    assert forall|x: TaskId, y: TaskId| p(x) && #[trigger] pe(x, y) implies p(y) by {
        assert(poison_edge(s, x, y));
    }
    lemma_reach_in_closed(pe, p, root, t);
}

/// Failing everything that transitively waits on the poisoned `root`
/// restores the record invariant.
proof fn lemma_poison_preserves_inv(s: Seq<TaskView>, root: TaskId)
    requires
        s.len() <= usize::MAX,
        root < s.len(),
        poisoned_state(s[root as int].state),
        inv_except_root(s, root),
    ensures
        inv_tasks(spec_poison(s, root)),
{
    let s2 = spec_poison(s, root);
    let pe = poison_edges(s);
    assert forall|t: TaskId| #[trigger] doomed(s, root, t) implies t < s.len() && s[t as int].state
        == TaskState::Queued by {
        lemma_doomed_is_queued(s, root, t);
    }
    assert forall|t: int|
        0 <= t < s2.len() && started_state(#[trigger] s2[t].state) implies all_deps_completed(
        s2,
        t,
    ) by {
        assert(!doomed(s, root, t as usize));
        assert(s2[t] == s[t]);
        assert(all_deps_completed(s, t));
        assert forall|j: int| 0 <= j < s2[t].deps.len() implies dep_completed(
            s2,
            #[trigger] s2[t].deps[j],
        ) by {
            let d = s[t].deps[j];
            assert(dep_completed(s, d));
            assert(!doomed(s, root, d));
            assert(s2[d as int] == s[d as int]);
        }
    }
    assert forall|t: int|
        0 <= t < s2.len() && #[trigger] s2[t].state == TaskState::Queued implies no_poisoned_dep(
        s2,
        t,
    ) by {
        assert(!doomed(s, root, t as usize));
        assert(s2[t] == s[t]);
        assert(t != root);
        assert forall|j: int|
            0 <= j < s2[t].deps.len() implies !(#[trigger] s2[t].deps[j] < s2.len()
            && poisoned_state(s2[s2[t].deps[j] as int].state)) by {
            let d = s[t].deps[j];
            if d < s.len() && poisoned_state(s2[d as int].state) {
                assert(s[t].deps.contains(d));
                assert(poison_edge(s, d, t as usize));
                if doomed(s, root, d) {
                    lemma_reach_extend(pe, root, d, t as usize);
                    assert(false);
                } else {
                    assert(s2[d as int] == s[d as int]);
                    assert(d == root);
                    lemma_reach_refl(pe, root);
                    lemma_reach_extend(pe, root, root, t as usize);
                    assert(false);
                }
            }
        }
    }
}

/// Number of tasks in a terminal state.
pub open spec fn count_terminal(s: Seq<TaskView>) -> nat
    decreases s.len(),
{
    if s.len() == 0 {
        0
    } else {
        count_terminal(s.drop_last()) + (if is_terminal(s.last().state) {
            1nat
        } else {
            0nat
        })
    }
}

/// Extending a count by one element adds that element's contribution.
proof fn lemma_count_terminal_take_step(s: Seq<TaskView>, i: int)
    requires
        0 <= i < s.len(),
    ensures
        count_terminal(s.take(i + 1)) == count_terminal(s.take(i)) + (if is_terminal(
            s[i].state,
        ) {
            1nat
        } else {
            0nat
        }),
{
    assert(s.take(i + 1).drop_last() =~= s.take(i));
    assert(s.take(i + 1).last() == s[i]);
}

/// At most every task is terminal.
proof fn lemma_count_terminal_le_len(s: Seq<TaskView>)
    ensures
        count_terminal(s) <= s.len(),
    decreases s.len(),
{
    if s.len() > 0 {
        lemma_count_terminal_le_len(s.drop_last());
    }
}

/// Count the records in a terminal state.
#[verifier::loop_isolation(false)]
fn count_terminal_exec(tasks: &Vec<Task>) -> (c: usize)
    ensures
        c == count_terminal(tviews(tasks@)),
{
    let ghost s = tviews(tasks@);
    let mut c: usize = 0;
    let mut i: usize = 0;
    proof {
        assert(s.take(0) =~= Seq::<TaskView>::empty());
    }
    while i < tasks.len()
        invariant
            i <= tasks@.len(),
            c <= i,
            c == count_terminal(s.take(i as int)),
        decreases tasks@.len() - i,
    {
        let term = match tasks[i].state {
            TaskState::Completed => true,
            TaskState::Failed(_) => true,
            TaskState::Cancelled => true,
            _ => false,
        };
        proof {
            lemma_count_terminal_take_step(s, i as int);
        }
        if term {
            c += 1;
        }
        i += 1;
    }
    proof {
        assert(s.take(tasks@.len() as int) =~= s);
    }
    c
}

/// Some declared dependency names a task that cancellation has doomed.
pub open spec fn has_poisoned_dep(s: Seq<TaskView>, deps: Seq<TaskId>) -> bool {
    exists|k: int|
        0 <= k < deps.len() && #[trigger] deps[k] < s.len() && poisoned_state(
            s[deps[k] as int].state,
        )
}

/// The state a newly accepted task starts in: queued, unless a dependency is
/// already doomed, in which case the task is failed at once rather than
/// starved forever.
pub open spec fn initial_state(s: Seq<TaskView>, deps: Seq<TaskId>) -> TaskState {
    if has_poisoned_dep(s, deps) {
        TaskState::Failed(FailureKind::DependencyCancelled)
    } else {
        TaskState::Queued
    }
}

/// Whether an enqueue with dependency list `deps` is accepted.
pub open spec fn enqueue_ok(v: SchedView, deps: Seq<TaskId>) -> bool {
    !v.closed && !creates_cycle(v.tasks, deps)
}

/// The scheduler state after an enqueue request: unchanged if the request is
/// rejected; otherwise the new task is appended, and if it is born doomed,
/// everything queued behind it is failed as well.
pub open spec fn spec_enqueue(v: SchedView, priority: i32, deps: Seq<TaskId>) -> SchedView {
    if enqueue_ok(v, deps) {
        let tv = TaskView { priority, deps, state: initial_state(v.tasks, deps) };
        let s1 = v.tasks.push(tv);
        let s2 = if has_poisoned_dep(v.tasks, deps) {
            spec_poison(s1, v.tasks.len() as usize)
        } else {
            s1
        };
        SchedView { tasks: s2, closed: v.closed }
    } else {
        v
    }
}

/// Whether a cancel of `id` takes effect: only a still-queued task can be
/// cancelled.
pub open spec fn cancel_applies(s: Seq<TaskView>, id: TaskId) -> bool {
    id < s.len() && s[id as int].state == TaskState::Queued
}

/// The record store after a cancel request: the task is cancelled and every
/// queued task transitively waiting on it is failed with
/// `DependencyCancelled`; a request for an unknown, running or terminal id
/// changes nothing.
pub open spec fn spec_cancel(s: Seq<TaskView>, id: TaskId) -> Seq<TaskView> {
    if cancel_applies(s, id) {
        spec_poison(
            s.update(id as int, TaskView { state: TaskState::Cancelled, ..s[id as int] }),
            id,
        )
    } else {
        s
    }
}

/// The record store after a worker reports the outcome of task `id`.
pub open spec fn spec_complete(s: Seq<TaskView>, id: TaskId, success: bool) -> Seq<TaskView> {
    if id < s.len() && s[id as int].state == TaskState::Running {
        s.update(
            id as int,
            TaskView {
                state: if success {
                    TaskState::Completed
                } else {
                    TaskState::Failed(FailureKind::ActionFailed)
                },
                ..s[id as int]
            },
        )
    } else {
        s
    }
}

/// Rewriting the state of one not-yet-completed task to a state that is
/// neither queued nor poisoned preserves the record invariant, provided a
/// started state is only given to a task whose dependencies all completed.
proof fn lemma_update_state_preserves_inv(s: Seq<TaskView>, id: TaskId, newst: TaskState)
    requires
        inv_tasks(s),
        id < s.len(),
        s[id as int].state != TaskState::Completed,
        newst != TaskState::Queued,
        !poisoned_state(newst),
        started_state(newst) ==> all_deps_completed(s, id as int),
    ensures
        inv_tasks(s.update(id as int, TaskView { state: newst, ..s[id as int] })),
{
    let s1 = s.update(id as int, TaskView { state: newst, ..s[id as int] });
    assert forall|t: int|
        0 <= t < s1.len() && started_state(#[trigger] s1[t].state) implies all_deps_completed(
        s1,
        t,
    ) by {
        assert(all_deps_completed(s, t));
        assert forall|j: int| 0 <= j < s1[t].deps.len() implies dep_completed(
            s1,
            #[trigger] s1[t].deps[j],
        ) by {
            let d = s[t].deps[j];
            assert(dep_completed(s, d));
            assert(d != id);
        }
    }
    assert forall|t: int|
        0 <= t < s1.len() && #[trigger] s1[t].state == TaskState::Queued implies no_poisoned_dep(
        s1,
        t,
    ) by {
        assert(no_poisoned_dep(s, t));
        assert forall|j: int|
            0 <= j < s1[t].deps.len() implies !(#[trigger] s1[t].deps[j] < s1.len()
            && poisoned_state(s1[s1[t].deps[j] as int].state)) by {
            let d = s[t].deps[j];
            if d < s.len() && d != id {
                assert(!poisoned_state(s[d as int].state));
            }
        }
    }
}

/// Whether every dependency of record `t` is completed.
#[verifier::loop_isolation(false)]
fn deps_completed_exec(tasks: &Vec<Task>, t: usize) -> (r: bool)
    requires
        t < tasks@.len(),
    ensures
        r == all_deps_completed(tviews(tasks@), t as int),
{
    let ghost s = tviews(tasks@);
    let mut j: usize = 0;
    while j < tasks[t].deps.len()
        invariant
            j <= s[t as int].deps.len(),
            forall|j2: int| 0 <= j2 < j ==> dep_completed(s, #[trigger] s[t as int].deps[j2]),
        decreases s[t as int].deps.len() - j,
    {
        let d = tasks[t].deps[j];
        if d >= tasks.len() {
            return false;
        }
        let done = match tasks[d].state {
            TaskState::Completed => true,
            _ => false,
        };
        if !done {
            return false;
        }
        j += 1;
    }
    true
}

/// The scheduler's bookkeeping state.  Task records are stored by id: the
/// record of task `i` is `tasks[i]`, so ids are unique and strictly
/// increasing, and `tasks.len()` is the next id to be assigned.
pub struct TaskManager {
    tasks: Vec<Task>,
    completed: usize,
    closed: bool,
}

/// Mathematical image of the scheduler: the task records and the shutdown
/// flag.
pub ghost struct SchedView {
    pub tasks: Seq<TaskView>,
    pub closed: bool,
}

/// The mathematical image of a record store.
pub open spec fn tviews(s: Seq<Task>) -> Seq<TaskView> {
    s.map_values(|t: Task| t@)
}

impl View for TaskManager {
    type V = SchedView;

    closed spec fn view(&self) -> SchedView {
        SchedView { tasks: tviews(self.tasks@), closed: self.closed }
    }
}

impl TaskManager {
    /// The cached terminal count matches the records.
    pub closed spec fn counter_ok(self) -> bool {
        self.completed == count_terminal(self@.tasks)
    }

    /// Well-formedness: the record invariant holds and the progress counter
    /// is exact.
    pub open spec fn wf(self) -> bool {
        inv_tasks(self@.tasks) && self.counter_ok()
    }

    /// A fresh scheduler: no tasks, accepting work.
    pub fn new() -> (r: TaskManager)
        ensures
            r.wf(),
            r@.tasks.len() == 0,
            !r@.closed,
    {
        let r = TaskManager { tasks: Vec::new(), completed: 0, closed: false };
        proof {
            assert(r@.tasks =~= Seq::<TaskView>::empty());
        }
        r
    }

    /// Progress so far: `(completed, total)`.  `completed` counts the tasks
    /// that reached a terminal state, `total` the tasks ever accepted; both
    /// are non-decreasing over the scheduler's life and `completed <= total`.
    pub fn get_progress(&self) -> (r: (usize, usize))
        requires
            self.wf(),
        ensures
            r.0 == count_terminal(self@.tasks),
            r.1 == self@.tasks.len(),
            r.0 <= r.1,
    {
        proof {
            lemma_count_terminal_le_len(self@.tasks);
        }
        (self.completed, self.tasks.len())
    }

    /// Register a new task with the given priority (lower runs first) and
    /// dependency ids, and return its id.  The call is rejected with
    /// `SchedulerClosed` after `shutdown`, and with `DependencyCycle` — with
    /// the state unchanged — when the declared dependencies would close a
    /// cycle through the new task's id.  A dependency id that has not been
    /// assigned yet simply keeps the task blocked until that id is both
    /// registered and completed.
    #[verifier::loop_isolation(false)]
    #[verifier::rlimit(100)]
    pub fn add_task(&mut self, priority: i32, dependencies: Vec<TaskId>) -> (r: Result<
        TaskId,
        SchedulerError,
    >)
        requires
            old(self).wf(),
        ensures
            final(self).wf(),
            final(self)@ == spec_enqueue(old(self)@, priority, dependencies@),
            old(self)@.closed ==> r == Err::<TaskId, SchedulerError>(SchedulerError::SchedulerClosed),
            !old(self)@.closed && creates_cycle(old(self)@.tasks, dependencies@) ==> r == Err::<
                TaskId,
                SchedulerError,
            >(SchedulerError::DependencyCycle),
            enqueue_ok(old(self)@, dependencies@) ==> r == Ok::<TaskId, SchedulerError>(
                old(self)@.tasks.len() as usize,
            ),
    {
        let ghost depsv = dependencies@;
        if self.closed {
            return Err(SchedulerError::SchedulerClosed);
        }
        if creates_cycle_exec(&self.tasks, &dependencies) {
            return Err(SchedulerError::DependencyCycle);
        }
        let id = self.tasks.len();
        let ghost s = tviews(self.tasks@);

        let mut poisoned = false;
        let mut k: usize = 0;
        while k < dependencies.len()
            invariant
                k <= depsv.len(),
                poisoned == (exists|k2: int|
                    0 <= k2 < k && #[trigger] depsv[k2] < s.len() && poisoned_state(
                        s[depsv[k2] as int].state,
                    )),
            decreases depsv.len() - k,
        {
            let d = dependencies[k];
            if d < self.tasks.len() {
                let dep_poisoned = match self.tasks[d].state {
                    TaskState::Cancelled => true,
                    TaskState::Failed(FailureKind::DependencyCancelled) => true,
                    _ => false,
                };
                if dep_poisoned {
                    poisoned = true;
                    proof {
                        assert(depsv[k as int] < s.len() && poisoned_state(
                            s[depsv[k as int] as int].state,
                        ));
                    }
                }
            }
            k += 1;
        }
        proof {
            assert(poisoned == has_poisoned_dep(s, depsv));
        }

        let st = if poisoned {
            TaskState::Failed(FailureKind::DependencyCancelled)
        } else {
            TaskState::Queued
        };
        let task = Task { priority, deps: dependencies, state: st };
        let ghost tv = task@;
        self.tasks.push(task);
        let n1 = self.tasks.len();
        let ghost s1 = s.push(tv);
        proof {
            assert(tviews(self.tasks@) =~= s1);
            assert(s1.len() == n1 <= usize::MAX);
            // The record invariant carries over to the extended store, except
            // that when the new task is born doomed it is the one poisoned
            // task others may still wait on.
            assert forall|t: int|
                0 <= t < s1.len() && started_state(#[trigger] s1[t].state) implies
                all_deps_completed(s1, t) by {
                assert(t < s.len());
                assert(s1[t] == s[t]);
                assert(all_deps_completed(s, t));
                assert forall|j: int| 0 <= j < s1[t].deps.len() implies dep_completed(
                    s1,
                    #[trigger] s1[t].deps[j],
                ) by {
                    assert(dep_completed(s, s[t].deps[j]));
                }
            }
        }
        if poisoned {
            proof {
                assert forall|t: int, j: int|
                    0 <= t < s1.len() && s1[t].state == TaskState::Queued && 0 <= j
                        < s1[t].deps.len() && #[trigger] s1[t].deps[j] < s1.len()
                        && poisoned_state(s1[s1[t].deps[j] as int].state) implies s1[t].deps[j]
                    == id by {
                    let d = s1[t].deps[j];
                    if d < s.len() {
                        assert(t < s.len() && s1[t] == s[t]);
                        assert(no_poisoned_dep(s, t));
                        assert(!poisoned_state(s[d as int].state));
                        assert(false);
                    }
                }
                assert(inv_except_root(s1, id));
            }
            poison_from(&mut self.tasks, id);
            proof {
                lemma_poison_preserves_inv(s1, id);
            }
        } else {
            proof {
                assert forall|t: int|
                    0 <= t < s1.len() && #[trigger] s1[t].state == TaskState::Queued implies
                    no_poisoned_dep(s1, t) by {
                    assert forall|j: int|
                        0 <= j < s1[t].deps.len() implies !(#[trigger] s1[t].deps[j] < s1.len()
                        && poisoned_state(s1[s1[t].deps[j] as int].state)) by {
                        let d = s1[t].deps[j];
                        if d < s1.len() && poisoned_state(s1[d as int].state) {
                            assert(d != s.len());
                            assert(d < s.len());
                            if t < s.len() {
                                assert(no_poisoned_dep(s, t));
                                assert(s1[t].deps[j] == s[t].deps[j]);
                                assert(false);
                            } else {
                                assert(!has_poisoned_dep(s, depsv));
                                assert(!(depsv[j] < s.len() && poisoned_state(
                                    s[depsv[j] as int].state,
                                )));
                                assert(false);
                            }
                        }
                    }
                }
                assert(inv_tasks(s1));
            }
        }
        let c = count_terminal_exec(&self.tasks);
        self.completed = c;
        proof {
            assert(self@.tasks =~= spec_enqueue(old(self)@, priority, depsv).tasks);
            assert(self@ == spec_enqueue(old(self)@, priority, depsv));
        }
        Ok(id)
    }

    /// Cancel task `id`.  Returns `true` — and removes the task from
    /// consideration — exactly when the task is still queued; an unknown,
    /// running, completed, cancelled or failed id returns `false` and changes
    /// nothing.  Queued tasks that transitively wait on a cancelled task are
    /// failed with `DependencyCancelled` rather than left to starve.
    #[verifier::loop_isolation(false)]
    pub fn cancel_task(&mut self, id: TaskId) -> (r: bool)
        requires
            old(self).wf(),
        ensures
            final(self).wf(),
            r == cancel_applies(old(self)@.tasks, id),
            final(self)@.tasks == spec_cancel(old(self)@.tasks, id),
            final(self)@.closed == old(self)@.closed,
    {
        let n = self.tasks.len();
        if id >= n {
            return false;
        }
        let is_queued = match self.tasks[id].state {
            TaskState::Queued => true,
            _ => false,
        };
        if !is_queued {
            return false;
        }
        let ghost s = tviews(self.tasks@);
        set_state(&mut self.tasks, id, TaskState::Cancelled);
        let ghost s1 = s.update(id as int, TaskView { state: TaskState::Cancelled, ..s[id as int] });
        proof {
            assert(s1.len() == n <= usize::MAX);
            assert forall|t: int|
                0 <= t < s1.len() && started_state(#[trigger] s1[t].state) implies
                all_deps_completed(s1, t) by {
                assert(started_state(s[t].state));
                assert(all_deps_completed(s, t));
                assert forall|j: int| 0 <= j < s1[t].deps.len() implies dep_completed(
                    s1,
                    #[trigger] s1[t].deps[j],
                ) by {
                    let d = s[t].deps[j];
                    assert(dep_completed(s, d));
                    assert(d != id);
                }
            }
            assert forall|t: int, j: int|
                0 <= t < s1.len() && s1[t].state == TaskState::Queued && 0 <= j
                    < s1[t].deps.len() && #[trigger] s1[t].deps[j] < s1.len() && poisoned_state(
                    s1[s1[t].deps[j] as int].state,
                ) implies s1[t].deps[j] == id by {
                let d = s1[t].deps[j];
                if d != id {
                    assert(t != id);
                    assert(no_poisoned_dep(s, t));
                    assert(!poisoned_state(s[d as int].state));
                    assert(false);
                }
            }
            assert(inv_except_root(s1, id));
        }
        poison_from(&mut self.tasks, id);
        proof {
            lemma_poison_preserves_inv(s1, id);
        }
        let c = count_terminal_exec(&self.tasks);
        self.completed = c;
        true
    }

    /// Record the outcome of task `id`, which a worker popped and ran: its
    /// terminal state becomes `Completed` on success and
    /// `Failed(ActionFailed)` otherwise.  Returns `true` exactly when `id`
    /// names a running task; any other id changes nothing.
    pub fn complete_task(&mut self, id: TaskId, success: bool) -> (r: bool)
        requires
            old(self).wf(),
        ensures
            final(self).wf(),
            r == (id < old(self)@.tasks.len() && old(self)@.tasks[id as int].state
                == TaskState::Running),
            final(self)@.tasks == spec_complete(old(self)@.tasks, id, success),
            final(self)@.closed == old(self)@.closed,
    {
        if id >= self.tasks.len() {
            return false;
        }
        let is_running = match self.tasks[id].state {
            TaskState::Running => true,
            _ => false,
        };
        if !is_running {
            return false;
        }
        let ghost s = tviews(self.tasks@);
        let newst = if success {
            TaskState::Completed
        } else {
            TaskState::Failed(FailureKind::ActionFailed)
        };
        set_state(&mut self.tasks, id, newst);
        proof {
            assert(started_state(s[id as int].state));
            lemma_update_state_preserves_inv(s, id, newst);
        }
        let c = count_terminal_exec(&self.tasks);
        self.completed = c;
        true
    }

    /// Hand the best ready task to a worker: among the queued tasks whose
    /// dependencies all completed, the one with the smallest priority value,
    /// ties broken by the smaller id.  The popped task becomes `Running`.
    /// Returns `None`, changing nothing, when no task is ready.
    #[verifier::loop_isolation(false)]
    pub fn pop_ready(&mut self) -> (r: Option<TaskId>)
        requires
            old(self).wf(),
        ensures
            final(self).wf(),
            final(self)@.closed == old(self)@.closed,
            match r {
                None => {
                    &&& final(self)@ == old(self)@
                    &&& forall|t: int| !ready(old(self)@.tasks, t)
                },
                Some(id) => {
                    &&& ready(old(self)@.tasks, id as int)
                    &&& forall|t: int|
                        ready(old(self)@.tasks, t) && t != id ==> (old(
                            self,
                        )@.tasks[id as int].priority < old(self)@.tasks[t].priority || (old(
                            self,
                        )@.tasks[id as int].priority == old(self)@.tasks[t].priority && id < t))
                    &&& final(self)@.tasks == old(self)@.tasks.update(
                        id as int,
                        TaskView { state: TaskState::Running, ..old(self)@.tasks[id as int] },
                    )
                },
            },
    {
        let ghost s = tviews(self.tasks@);
        let n = self.tasks.len();
        let mut best: Option<usize> = None;
        let mut t: usize = 0;
        while t < n
            invariant
                t <= n,
                match best {
                    None => forall|t2: int| 0 <= t2 < t ==> !ready(s, t2),
                    Some(b) => {
                        &&& b < t
                        &&& ready(s, b as int)
                        &&& forall|t2: int|
                            0 <= t2 < t && ready(s, t2) && t2 != b ==> (s[b as int].priority
                                < s[t2].priority || (s[b as int].priority == s[t2].priority && b
                                < t2))
                    },
                },
            decreases n - t,
        {
            let is_queued = match self.tasks[t].state {
                TaskState::Queued => true,
                _ => false,
            };
            if is_queued {
                if deps_completed_exec(&self.tasks, t) {
                    best = match best {
                        None => Some(t),
                        Some(b) => {
                            if self.tasks[t].priority() < self.tasks[b].priority() {
                                Some(t)
                            } else {
                                Some(b)
                            }
                        },
                    };
                }
            }
            t += 1;
        }
        match best {
            None => None,
            Some(b) => {
                set_state(&mut self.tasks, b, TaskState::Running);
                proof {
                    lemma_update_state_preserves_inv(s, b, TaskState::Running);
                }
                let c = count_terminal_exec(&self.tasks);
                self.completed = c;
                Some(b)
            },
        }
    }

    /// The lifecycle state of task `id`, or `None` for an id not assigned
    /// yet.
    pub fn task_state(&self, id: TaskId) -> (r: Option<TaskState>)
        ensures
            r == if id < self@.tasks.len() {
                Some(self@.tasks[id as int].state)
            } else {
                None::<TaskState>
            },
    {
        if id < self.tasks.len() {
            Some(self.tasks[id].state())
        } else {
            None
        }
    }

    /// Begin shutdown: no new task is accepted afterwards.  Already queued
    /// ready work keeps draining through `pop_ready` until none is left.
    pub fn shutdown(&mut self)
        requires
            old(self).wf(),
        ensures
            final(self).wf(),
            final(self)@.tasks == old(self)@.tasks,
            final(self)@.closed,
    {
        self.closed = true;
    }

    /// Whether shutdown has begun.
    pub fn is_closed(&self) -> (r: bool)
        ensures
            r == self@.closed,
    {
        self.closed
    }
}

/// One enqueue request: a priority and a dependency list.
pub ghost struct EnqueueReq {
    pub priority: i32,
    pub deps: Seq<TaskId>,
}

/// The scheduler state after a whole sequence of enqueue requests.
pub open spec fn run_enqueues(v: SchedView, reqs: Seq<EnqueueReq>) -> SchedView
    decreases reqs.len(),
{
    if reqs.len() == 0 {
        v
    } else {
        run_enqueues(spec_enqueue(v, reqs[0].priority, reqs[0].deps), reqs.drop_first())
    }
}

/// How many of the requests are accepted, each judged against the state the
/// earlier requests produced.
pub open spec fn count_accepted(v: SchedView, reqs: Seq<EnqueueReq>) -> nat
    decreases reqs.len(),
{
    if reqs.len() == 0 {
        0
    } else {
        (if enqueue_ok(v, reqs[0].deps) {
            1nat
        } else {
            0nat
        }) + count_accepted(spec_enqueue(v, reqs[0].priority, reqs[0].deps), reqs.drop_first())
    }
}

/// Law: across any sequence of enqueue requests, the total that
/// `get_progress` reports grows by exactly the number of accepted requests;
/// a rejected enqueue contributes nothing.
pub proof fn lemma_total_counts_accepted_enqueues(v: SchedView, reqs: Seq<EnqueueReq>)
    ensures
        run_enqueues(v, reqs).tasks.len() == v.tasks.len() + count_accepted(v, reqs),
    decreases reqs.len(),
{
    if reqs.len() > 0 {
        let v1 = spec_enqueue(v, reqs[0].priority, reqs[0].deps);
        lemma_total_counts_accepted_enqueues(v1, reqs.drop_first());
    }
}

/// Law: an enqueue whose dependencies would close a cycle is rejected with
/// no change of state at all.
pub proof fn lemma_cycle_rejected_unchanged(v: SchedView, priority: i32, deps: Seq<TaskId>)
    requires
        creates_cycle(v.tasks, deps),
    ensures
        spec_enqueue(v, priority, deps) == v,
{
}

/// A dependency list that names the id about to be assigned closes a cycle by
/// itself.
pub proof fn lemma_dep_on_new_id_is_cycle(s: Seq<TaskView>, deps: Seq<TaskId>, k: int)
    requires
        0 <= k < deps.len(),
        deps[k] == s.len(),
    ensures
        creates_cycle(s, deps),
{
    lemma_reach_refl(dep_edges(s), deps[k]);
}

/// Law: a task that is running, or has finished running, got there only
/// after every task in its dependency list completed.
pub proof fn lemma_no_start_before_deps_complete(s: Seq<TaskView>, t: int, j: int)
    requires
        inv_tasks(s),
        0 <= t < s.len(),
        started_state(s[t].state),
        0 <= j < s[t].deps.len(),
    ensures
        s[t].deps[j] < s.len(),
        s[s[t].deps[j] as int].state == TaskState::Completed,
{
    assert(all_deps_completed(s, t));
    assert(dep_completed(s, s[t].deps[j]));
}

/// Law: `cancel` is idempotent — the first cancel of a queued task takes
/// effect, and any further cancel of the same id reports `false` and
/// changes nothing.
pub proof fn lemma_cancel_idempotent(s: Seq<TaskView>, id: TaskId)
    ensures
        cancel_applies(s, id) ==> !cancel_applies(spec_cancel(s, id), id),
        !cancel_applies(s, id) ==> spec_cancel(s, id) == s,
        spec_cancel(spec_cancel(s, id), id) == spec_cancel(s, id),
{
    if cancel_applies(s, id) {
        assert(spec_cancel(s, id)[id as int].state == TaskState::Cancelled);
    }
}

proof fn lemma_count_terminal_pointwise(s1: Seq<TaskView>, s2: Seq<TaskView>)
    requires
        s1.len() == s2.len(),
        forall|i: int|
            0 <= i < s1.len() && is_terminal(#[trigger] s1[i].state) ==> is_terminal(s2[i].state),
    ensures
        count_terminal(s1) <= count_terminal(s2),
    decreases s1.len(),
{
    if s1.len() > 0 {
        assert forall|i: int|
            0 <= i < s1.drop_last().len() && is_terminal(
                #[trigger] s1.drop_last()[i].state,
            ) implies is_terminal(s2.drop_last()[i].state) by {
            assert(s1.drop_last()[i] == s1[i]);
        }
        lemma_count_terminal_pointwise(s1.drop_last(), s2.drop_last());
    }
}

/// Law: terminal states are absorbing — a task transitions through its
/// lifecycle exactly once, and no operation rewrites a task that already
/// reached a terminal state.
pub proof fn lemma_terminal_is_absorbing(
    v: SchedView,
    priority: i32,
    deps: Seq<TaskId>,
    id: TaskId,
    success: bool,
    t: int,
)
    requires
        v.tasks.len() < usize::MAX,
        0 <= t < v.tasks.len(),
        is_terminal(v.tasks[t].state),
    ensures
        spec_enqueue(v, priority, deps).tasks[t] == v.tasks[t],
        spec_cancel(v.tasks, id)[t] == v.tasks[t],
        spec_complete(v.tasks, id, success)[t] == v.tasks[t],
{
    let s = v.tasks;
    if enqueue_ok(v, deps) && has_poisoned_dep(s, deps) {
        let tv = TaskView { priority, deps, state: initial_state(s, deps) };
        let s1 = s.push(tv);
        if doomed(s1, s.len() as usize, t as usize) {
            lemma_doomed_is_queued(s1, s.len() as usize, t as usize);
            assert(false);
        }
    }
    if cancel_applies(s, id) {
        let s1 = s.update(id as int, TaskView { state: TaskState::Cancelled, ..s[id as int] });
        if doomed(s1, id, t as usize) {
            lemma_doomed_is_queued(s1, id, t as usize);
            assert(false);
        }
    }
}

/// Law: the progress counters never decrease — no operation removes a task
/// or takes one out of a terminal state.
pub proof fn lemma_progress_is_monotone(
    v: SchedView,
    priority: i32,
    deps: Seq<TaskId>,
    id: TaskId,
    success: bool,
)
    requires
        v.tasks.len() < usize::MAX,
    ensures
        spec_enqueue(v, priority, deps).tasks.len() >= v.tasks.len(),
        count_terminal(spec_enqueue(v, priority, deps).tasks) >= count_terminal(v.tasks),
        spec_cancel(v.tasks, id).len() == v.tasks.len(),
        count_terminal(spec_cancel(v.tasks, id)) >= count_terminal(v.tasks),
        spec_complete(v.tasks, id, success).len() == v.tasks.len(),
        count_terminal(spec_complete(v.tasks, id, success)) >= count_terminal(v.tasks),
{
    let s = v.tasks;
    assert forall|s2: Seq<TaskView>|
        s2.len() == s.len() && (forall|i: int|
            0 <= i < s.len() && is_terminal(#[trigger] s[i].state) ==> s2[i]
                == s[i]) implies count_terminal(s2) >= count_terminal(s) by {
        lemma_count_terminal_pointwise(s, s2);
    }
    if enqueue_ok(v, deps) {
        let tv = TaskView { priority, deps, state: initial_state(s, deps) };
        let s1 = s.push(tv);
        assert(s1.drop_last() =~= s);
        assert(count_terminal(s1) >= count_terminal(s));
        if has_poisoned_dep(s, deps) {
            let s2 = spec_poison(s1, s.len() as usize);
            assert forall|i: int|
                0 <= i < s1.len() && is_terminal(#[trigger] s1[i].state) implies is_terminal(
                s2[i].state,
            ) by {
                if doomed(s1, s.len() as usize, i as usize) {
                    lemma_doomed_is_queued(s1, s.len() as usize, i as usize);
                }
            }
            lemma_count_terminal_pointwise(s1, s2);
        }
    }
    if cancel_applies(s, id) {
        let s1 = s.update(id as int, TaskView { state: TaskState::Cancelled, ..s[id as int] });
        assert forall|i: int|
            0 <= i < s.len() && is_terminal(#[trigger] s[i].state) implies is_terminal(
            s1[i].state,
        ) by {}
        lemma_count_terminal_pointwise(s, s1);
        let s2 = spec_poison(s1, id);
        assert forall|i: int|
            0 <= i < s1.len() && is_terminal(#[trigger] s1[i].state) implies is_terminal(
            s2[i].state,
        ) by {
            if doomed(s1, id, i as usize) {
                lemma_doomed_is_queued(s1, id, i as usize);
            }
        }
        lemma_count_terminal_pointwise(s1, s2);
    }
    if id < s.len() && s[id as int].state == TaskState::Running {
        let s1 = spec_complete(s, id, success);
        assert forall|i: int|
            0 <= i < s.len() && is_terminal(#[trigger] s[i].state) implies is_terminal(
            s1[i].state,
        ) by {}
        lemma_count_terminal_pointwise(s, s1);
    }
}

/// The blocker graph has no cycle: no edge starts a path that returns to its
/// source.  An empty store has no edge, so a fresh scheduler is acyclic; the
/// laws below show every operation keeps it that way.
pub open spec fn acyclic(s: Seq<TaskView>) -> bool {
    forall|a: TaskId, m: TaskId| !(#[trigger] dep_edge(s, a, m) && reaches(dep_edges(s), m, a))
}

/// Any path in the store extended by one accepted task either already ran
/// along old edges, or passes through the new task: it reaches the new id
/// along old edges and re-enters the old graph through the new task's
/// dependency list.
proof fn lemma_push_path_decompose(s: Seq<TaskView>, tv: TaskView, x: TaskId, t: TaskId, k: nat)
    requires
        s.len() < usize::MAX,
        !creates_cycle(s, tv.deps),
        reach_n(dep_edges(s.push(tv)), x, t, k),
    ensures
        reaches(dep_edges(s), x, t) || (exists|d: TaskId|
            #[trigger] tv.deps.contains(d) && reaches(dep_edges(s), d, t) && (x == s.len()
                || reaches(dep_edges(s), x, s.len() as usize))),
    decreases k,
{
    let n = s.len() as usize;
    let e = dep_edges(s);
    let e1 = dep_edges(s.push(tv));
    if x == t {
        lemma_reach_refl(e, x);
    } else {
        let m = choose|m: TaskId| #[trigger] e1(x, m) && reach_n(e1, m, t, (k - 1) as nat);
        assert(dep_edge(s.push(tv), x, m));
        if x == n {
            assert(tv.deps.contains(m));
            let j = choose|j: int| 0 <= j < tv.deps.len() && tv.deps[j] == m;
            if m == n {
                // a dependency on the id being assigned is the rejected cycle
                lemma_reach_refl(e, n);
                assert(0 <= j < tv.deps.len() && reaches(e, #[trigger] tv.deps[j], n));
                assert(false);
            }
            lemma_push_path_decompose(s, tv, m, t, (k - 1) as nat);
            if reaches(e, m, t) {
                assert(tv.deps.contains(m) && reaches(e, m, t) && x == s.len());
            } else {
                let d = choose|d: TaskId|
                    #[trigger] tv.deps.contains(d) && reaches(e, d, t) && (m == s.len()
                        || reaches(e, m, s.len() as usize));
                assert(reaches(e, m, n));
                assert(0 <= j < tv.deps.len() && reaches(e, #[trigger] tv.deps[j], n));
                assert(false);
            }
        } else {
            assert(x < n);
            assert(dep_edge(s, x, m));
            assert(e(x, m));
            lemma_push_path_decompose(s, tv, m, t, (k - 1) as nat);
            if reaches(e, m, t) {
                lemma_reach_cons(e, x, m, t);
            } else {
                let d = choose|d: TaskId|
                    #[trigger] tv.deps.contains(d) && reaches(e, d, t) && (m == s.len()
                        || reaches(e, m, s.len() as usize));
                if m == n {
                    lemma_reach_refl(e, n);
                    lemma_reach_cons(e, x, n, n);
                } else {
                    lemma_reach_cons(e, x, m, n);
                }
                assert(tv.deps.contains(d) && reaches(e, d, t) && reaches(e, x, n));
            }
        }
    }
}

/// A store with the same dependency lists has the same blocker graph, so
/// acyclicity carries over.
proof fn lemma_same_deps_preserves_acyclicity(s: Seq<TaskView>, s2: Seq<TaskView>)
    requires
        s.len() == s2.len(),
        forall|i: int| 0 <= i < s.len() ==> s2[i].deps == #[trigger] s[i].deps,
        acyclic(s),
    ensures
        acyclic(s2),
{
    assert forall|a: TaskId, m: TaskId| !(#[trigger] dep_edge(s2, a, m) && reaches(
        dep_edges(s2),
        m,
        a,
    )) by {
        if dep_edge(s2, a, m) && reaches(dep_edges(s2), m, a) {
            assert forall|x: TaskId, y: TaskId| #[trigger] dep_edges(s2)(x, y) implies dep_edges(
                s,
            )(x, y) by {
                assert(dep_edge(s2, x, y));
                assert(s2[x as int].deps == s[x as int].deps);
                assert(dep_edge(s, x, y));
            }
            lemma_reach_congruence(dep_edges(s2), dep_edges(s), m, a);
            assert(dep_edge(s, a, m));
            assert(false);
        }
    }
}

/// Law: an accepted enqueue never closes a cycle — the blocker graph stays
/// acyclic, which is what rejecting cyclic dependency sets is for.
pub proof fn lemma_enqueue_preserves_acyclicity(v: SchedView, priority: i32, deps: Seq<TaskId>)
    requires
        v.tasks.len() < usize::MAX,
        acyclic(v.tasks),
    ensures
        acyclic(spec_enqueue(v, priority, deps).tasks),
{
    if enqueue_ok(v, deps) {
        let s = v.tasks;
        let n = s.len() as usize;
        let e = dep_edges(s);
        let tv = TaskView { priority, deps, state: initial_state(s, deps) };
        let s1 = s.push(tv);
        let e1 = dep_edges(s1);
        assert forall|a: TaskId, m: TaskId| !(#[trigger] dep_edge(s1, a, m) && reaches(
            e1,
            m,
            a,
        )) by {
            if dep_edge(s1, a, m) && reaches(e1, m, a) {
                let k = choose|k: nat| reach_n(e1, m, a, k);
                lemma_push_path_decompose(s, tv, m, a, k);
                if a == n {
                    assert(tv.deps.contains(m));
                    if reaches(e, m, a) {
                        let j = choose|j: int| 0 <= j < tv.deps.len() && tv.deps[j] == m;
                        assert(0 <= j < tv.deps.len() && reaches(e, #[trigger] tv.deps[j], n));
                        assert(false);
                    } else {
                        let d = choose|d: TaskId|
                            #[trigger] tv.deps.contains(d) && reaches(e, d, a) && (m == s.len()
                                || reaches(e, m, s.len() as usize));
                        let j = choose|j: int| 0 <= j < tv.deps.len() && tv.deps[j] == d;
                        assert(0 <= j < tv.deps.len() && reaches(e, #[trigger] tv.deps[j], n));
                        assert(false);
                    }
                } else {
                    assert(a < n);
                    assert(dep_edge(s, a, m));
                    if reaches(e, m, a) {
                        assert(false);
                    } else {
                        let d = choose|d: TaskId|
                            #[trigger] tv.deps.contains(d) && reaches(e, d, a) && (m == s.len()
                                || reaches(e, m, s.len() as usize));
                        lemma_reach_extend(e, d, a, m);
                        if m == n {
                            assert(reaches(e, d, n));
                        } else {
                            lemma_reach_trans(e, d, m, n);
                        }
                        let j = choose|j: int| 0 <= j < tv.deps.len() && tv.deps[j] == d;
                        assert(0 <= j < tv.deps.len() && reaches(e, #[trigger] tv.deps[j], n));
                        assert(false);
                    }
                }
            }
        }
        if has_poisoned_dep(s, deps) {
            lemma_same_deps_preserves_acyclicity(s1, spec_poison(s1, n));
        }
    }
}

/// Law: a cancel rewrites states only — the blocker graph, and with it
/// acyclicity, is untouched.
pub proof fn lemma_cancel_preserves_acyclicity(s: Seq<TaskView>, id: TaskId)
    requires
        acyclic(s),
    ensures
        acyclic(spec_cancel(s, id)),
{
    if cancel_applies(s, id) {
        let s1 = s.update(id as int, TaskView { state: TaskState::Cancelled, ..s[id as int] });
        lemma_same_deps_preserves_acyclicity(s, s1);
        lemma_same_deps_preserves_acyclicity(s1, spec_poison(s1, id));
    }
}

/// Law: recording a task's outcome rewrites its state only — the blocker
/// graph, and with it acyclicity, is untouched.
pub proof fn lemma_complete_preserves_acyclicity(s: Seq<TaskView>, id: TaskId, success: bool)
    requires
        acyclic(s),
    ensures
        acyclic(spec_complete(s, id, success)),
{
    if id < s.len() && s[id as int].state == TaskState::Running {
        lemma_same_deps_preserves_acyclicity(s, spec_complete(s, id, success));
    }
}

/// Number of unresolved dependencies in a dependency list: those that have
/// not completed.
pub open spec fn count_unresolved(s: Seq<TaskView>, deps: Seq<TaskId>) -> nat
    decreases deps.len(),
{
    if deps.len() == 0 {
        0
    } else {
        count_unresolved(s, deps.drop_last()) + (if dep_completed(s, deps.last()) {
            0nat
        } else {
            1nat
        })
    }
}

proof fn lemma_count_unresolved_zero(s: Seq<TaskView>, deps: Seq<TaskId>)
    ensures
        (count_unresolved(s, deps) == 0) <==> (forall|j: int|
            0 <= j < deps.len() ==> dep_completed(s, #[trigger] deps[j])),
    decreases deps.len(),
{
    if deps.len() > 0 {
        lemma_count_unresolved_zero(s, deps.drop_last());
        assert forall|j: int|
            0 <= j < deps.len() && count_unresolved(s, deps) == 0 implies dep_completed(
            s,
            #[trigger] deps[j],
        ) by {
            if j < deps.len() - 1 {
                assert(deps.drop_last()[j] == deps[j]);
            }
        }
        if forall|j: int| 0 <= j < deps.len() ==> dep_completed(s, #[trigger] deps[j]) {
            assert forall|j: int| 0 <= j < deps.drop_last().len() implies dep_completed(
                s,
                #[trigger] deps.drop_last()[j],
            ) by {
                assert(deps.drop_last()[j] == deps[j]);
            }
        }
    }
}

/// Law: a queued task is ready exactly when its unresolved-dependency count
/// is zero.
pub proof fn lemma_ready_iff_unresolved_zero(s: Seq<TaskView>, t: int)
    requires
        0 <= t < s.len(),
        s[t].state == TaskState::Queued,
    ensures
        ready(s, t) <==> count_unresolved(s, s[t].deps) == 0,
{
    lemma_count_unresolved_zero(s, s[t].deps);
}

} // verus!
