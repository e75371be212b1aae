//! The scheduler: owns the registered tasks (as arena indices), their
//! dependency edges (forward adjacency plus dependency lists for in-degree
//! bookkeeping) and the parallelism limit. Scheduling happens in two
//! phases: a sequential skip prepass that classifies each task as fresh
//! (skippable) or stale (must run), and a bounded-parallelism execution
//! loop driven through the [`Executor`] state machine.

use vstd::prelude::*;

use crate::task::Task;

verus! {

/// Opaque handle for a registered task: its index in the scheduler's
/// registration order. Densely assigned, never reused within one run.
#[derive(Clone, Copy, PartialEq, Eq, Structural, Debug)]
pub struct TaskId(pub usize);

/// An error raised while configuring or driving an execution.
#[derive(Clone, Copy, PartialEq, Eq, Structural, Debug)]
pub enum ExecutionError {
    /// The caller requested a parallelism limit of zero.
    InvalidParallelism,
    /// The named task's action reported failure; the first such failure
    /// in completion order is surfaced as the run's result.
    ActionError { task: TaskId },
}

/// How many times `x` occurs in `s`.
pub open spec fn count_occ(s: Seq<usize>, x: usize) -> int
    decreases s.len(),
{
    if s.len() == 0 {
        0
    } else {
        count_occ(s.drop_last(), x) + if s.last() == x {
            1int
        } else {
            0int
        }
    }
}

pub proof fn lemma_count_occ_nonneg(s: Seq<usize>, x: usize)
    ensures
        count_occ(s, x) >= 0,
    decreases s.len(),
{
    if s.len() > 0 {
        lemma_count_occ_nonneg(s.drop_last(), x);
    }
}

pub proof fn lemma_count_occ_push(s: Seq<usize>, x: usize, y: usize)
    ensures
        count_occ(s.push(y), x) == count_occ(s, x) + if x == y {
            1int
        } else {
            0int
        },
{
    assert(s.push(y).drop_last() =~= s);
}

pub proof fn lemma_count_occ_zero(s: Seq<usize>, x: usize)
    requires
        forall|k: int| 0 <= k < s.len() ==> s[k] != x,
    ensures
        count_occ(s, x) == 0,
    decreases s.len(),
{
    if s.len() > 0 {
        lemma_count_occ_zero(s.drop_last(), x);
    }
}

pub proof fn lemma_count_occ_take_succ(s: Seq<usize>, x: usize, k: int)
    requires
        0 <= k < s.len(),
    ensures
        count_occ(s.take(k + 1), x) == count_occ(s.take(k), x) + if s[k] == x {
            1int
        } else {
            0int
        },
{
    assert(s.take(k + 1).drop_last() =~= s.take(k));
    assert(s.take(k + 1).last() == s[k]);
}

pub proof fn lemma_count_occ_take_le(s: Seq<usize>, x: usize, k: int)
    requires
        0 <= k <= s.len(),
    ensures
        count_occ(s.take(k), x) <= count_occ(s, x),
    decreases s.len() - k,
{
    if k == s.len() {
        assert(s.take(k) =~= s);
    } else {
        lemma_count_occ_take_succ(s, x, k);
        lemma_count_occ_take_le(s, x, k + 1);
    }
}

/// How many entries of the dependency list `ds` point at a task that is
/// not yet completed, according to the completion flags `comp`.
pub open spec fn active_count(ds: Seq<usize>, comp: Seq<bool>) -> int
    decreases ds.len(),
{
    if ds.len() == 0 {
        0
    } else {
        active_count(ds.drop_last(), comp) + if ds.last() < comp.len() && !comp[ds.last() as int] {
            1int
        } else {
            0int
        }
    }
}

pub proof fn lemma_active_nonneg(ds: Seq<usize>, comp: Seq<bool>)
    ensures
        active_count(ds, comp) >= 0,
    decreases ds.len(),
{
    if ds.len() > 0 {
        lemma_active_nonneg(ds.drop_last(), comp);
    }
}

pub proof fn lemma_active_take_succ(ds: Seq<usize>, comp: Seq<bool>, k: int)
    requires
        0 <= k < ds.len(),
    ensures
        active_count(ds.take(k + 1), comp) == active_count(ds.take(k), comp) + if ds[k]
            < comp.len() && !comp[ds[k] as int] {
            1int
        } else {
            0int
        },
{
    assert(ds.take(k + 1).drop_last() =~= ds.take(k));
    assert(ds.take(k + 1).last() == ds[k]);
}

pub proof fn lemma_active_full(ds: Seq<usize>, comp: Seq<bool>)
    ensures
        active_count(ds.take(ds.len() as int), comp) == active_count(ds, comp),
{
    assert(ds.take(ds.len() as int) =~= ds);
}

/// A dependency list with no active entry has every entry completed.
pub proof fn lemma_active_zero(ds: Seq<usize>, comp: Seq<bool>)
    requires
        active_count(ds, comp) == 0,
        forall|k: int| 0 <= k < ds.len() ==> ds[k] < comp.len(),
    ensures
        forall|k: int| 0 <= k < ds.len() ==> comp[#[trigger] ds[k] as int],
    decreases ds.len(),
{
    if ds.len() > 0 {
        lemma_active_nonneg(ds.drop_last(), comp);
        lemma_active_zero(ds.drop_last(), comp);
        assert(forall|k: int| 0 <= k < ds.len() - 1 ==> ds.drop_last()[k] == ds[k]);
    }
}

/// A dependency list whose entries are all completed has no active entry.
pub proof fn lemma_active_all_completed(ds: Seq<usize>, comp: Seq<bool>)
    requires
        forall|k: int| 0 <= k < ds.len() ==> ds[k] < comp.len() && comp[#[trigger] ds[k] as int],
    ensures
        active_count(ds, comp) == 0,
    decreases ds.len(),
{
    if ds.len() > 0 {
        lemma_active_all_completed(ds.drop_last(), comp);
    }
}

/// An uncompleted task is counted as active once per occurrence.
pub proof fn lemma_active_ge_count(ds: Seq<usize>, comp: Seq<bool>, x: usize)
    requires
        x < comp.len(),
        !comp[x as int],
    ensures
        active_count(ds, comp) >= count_occ(ds, x),
    decreases ds.len(),
{
    if ds.len() > 0 {
        lemma_active_ge_count(ds.drop_last(), comp, x);
    }
}

/// Completing one task lowers the active count by its occurrence count.
pub proof fn lemma_active_update(ds: Seq<usize>, comp: Seq<bool>, x: usize)
    requires
        x < comp.len(),
        !comp[x as int],
    ensures
        active_count(ds, comp.update(x as int, true)) == active_count(ds, comp) - count_occ(
            ds,
            x,
        ),
    decreases ds.len(),
{
    if ds.len() > 0 {
        lemma_active_update(ds.drop_last(), comp, x);
    }
}

/// The scheduler's registered graph: for each registered task its arena
/// index, its dependency list (earlier handles) and its forward adjacency
/// (later handles), plus the parallelism limit.
pub struct Scheduler {
    /// Arena index of each registered task, in registration order.
    pub registered: Vec<usize>,
    /// Dependency lists: `deps[i]` holds the handles the task with handle
    /// `i` was registered with; each is strictly smaller than `i`.
    pub deps: Vec<Vec<usize>>,
    /// Forward adjacency: `adj[d]` holds one entry `i` per occurrence of
    /// `d` in `deps[i]`.
    pub adj: Vec<Vec<usize>>,
    /// Bounded parallelism limit, at least 1.
    pub jobs: usize,
}

impl Scheduler {
    /// Structural well-formedness: lengths agree, dependency handles
    /// point strictly backwards (registration order is dependency-safe),
    /// and the forward adjacency mirrors the dependency lists with
    /// multiplicity.
    pub open spec fn wf(&self) -> bool {
        &&& self.deps@.len() == self.registered@.len()
        &&& self.adj@.len() == self.registered@.len()
        &&& self.jobs >= 1
        &&& forall|i: int, j: int|
            0 <= i < self.deps@.len() && 0 <= j < self.deps@[i]@.len() ==> (#[trigger] self.deps@[i]@[j])
                < i
        &&& forall|d: int, k: int|
            0 <= d < self.adj@.len() && 0 <= k < self.adj@[d]@.len() ==> d < (
            #[trigger] self.adj@[d]@[k]) < self.adj@.len()
        &&& forall|d: usize, i: usize|
            d < self.registered@.len() && i < self.registered@.len() ==> #[trigger] count_occ(
                self.adj@[d as int]@,
                i,
            ) == count_occ(self.deps@[i as int]@, d)
    }

    /// Every registered arena index is a valid index into `arena`.
    pub open spec fn arena_ok(&self, arena: Seq<Task>) -> bool {
        forall|i: int|
            0 <= i < self.registered@.len() ==> (#[trigger] self.registered@[i]) < arena.len()
    }

    /// Creates an empty scheduler. A caller-specified parallelism limit
    /// of zero is a configuration error, rejected before any task is
    /// registered or run; an unspecified limit defaults to the machine's
    /// available parallelism.
    pub fn new(jobs: Option<usize>) -> (r: Result<Scheduler, ExecutionError>)
        ensures
            match r {
                Result::Ok(s) => {
                    &&& jobs != Option::Some(0usize)
                    &&& s.wf()
                    &&& s.registered@.len() == 0
                    &&& (jobs matches Option::Some(n) ==> s.jobs == n)
                    &&& s.jobs >= 1
                },
                Result::Err(e) => jobs == Option::Some(0usize) && e
                    == ExecutionError::InvalidParallelism,
            },
    {
        let j: usize = match jobs {
            Option::Some(n) => {
                if n == 0 {
                    return Result::Err(ExecutionError::InvalidParallelism);
                }
                n
            },
            Option::None => available_parallelism_units(),
        };
        Result::Ok(
            Scheduler { registered: Vec::new(), deps: Vec::new(), adj: Vec::new(), jobs: j },
        )
    }

    /// Registers a task (given by its arena index) whose dependencies are
    /// already registered, and returns its handle. The new handle is
    /// strictly larger than every dependency's handle, so registration
    /// order respects dependency order.
    pub fn add_task(&mut self, task_index: usize, dep_ids: &Vec<TaskId>) -> (id: TaskId)
        requires
            old(self).wf(),
            forall|j: int|
                0 <= j < dep_ids@.len() ==> (#[trigger] dep_ids@[j]).0 < old(
                    self,
                ).registered@.len(),
        ensures
            final(self).wf(),
            id.0 == old(self).registered@.len(),
            final(self).registered@ == old(self).registered@.push(task_index),
            final(self).deps@.len() == old(self).deps@.len() + 1,
            final(self).deps@[id.0 as int]@ == dep_ids@.map_values(|t: TaskId| t.0),
            forall|i: int|
                0 <= i < old(self).deps@.len() ==> final(self).deps@[i] == old(self).deps@[i],
            final(self).jobs == old(self).jobs,
    {
        let ghost n = old(self).registered@.len() as int;
        let id = TaskId(self.registered.len());

        let mut dvec: Vec<usize> = Vec::new();
        let mut j: usize = 0;
        while j < dep_ids.len()
            invariant
                0 <= j <= dep_ids@.len(),
                dvec@ == dep_ids@.take(j as int).map_values(|t: TaskId| t.0),
                forall|k: int| 0 <= k < dep_ids@.len() ==> (#[trigger] dep_ids@[k]).0 < n,
                id.0 == n,
            decreases dep_ids@.len() - j,
        {
            dvec.push(dep_ids[j].0);
            proof {
                assert(dep_ids@.take(j + 1).drop_last() =~= dep_ids@.take(j as int));
                assert(dvec@ =~= dep_ids@.take(j + 1).map_values(|t: TaskId| t.0));
            }
            j += 1;
        }
        proof {
            assert(dep_ids@.take(dep_ids@.len() as int) =~= dep_ids@);
        }

        self.registered.push(task_index);
        self.deps.push(dvec);
        self.adj.push(Vec::new());

        proof {
            // The fresh handle occurs in no dependency list of an earlier
            // task, and its own adjacency row starts empty.
            assert forall|d: usize, i: usize| d < n + 1 && i < n implies #[trigger] count_occ(
                self.adj@[d as int]@,
                i,
            ) == count_occ(self.deps@[i as int]@, d) by {
                if d == n {
                    lemma_count_occ_zero(self.adj@[d as int]@, i);
                    lemma_count_occ_zero(self.deps@[i as int]@, d);
                }
            }
            assert forall|d: usize| d < n + 1 implies #[trigger] count_occ(
                self.adj@[d as int]@,
                id.0,
            ) == count_occ(self.deps@[n]@.take(0), d) by {
                lemma_count_occ_zero(self.adj@[d as int]@, id.0);
                assert(self.deps@[n]@.take(0).len() == 0);
            }
        }

        let ghost deps_after_push = self.deps@;
        let ghost adj0 = self.adj@;

        // Mirror each dependency edge in the forward adjacency.
        let mut k: usize = 0;
        while k < dep_ids.len()
            invariant
                0 <= k <= dep_ids@.len(),
                id.0 == n,
                self.registered@ == old(self).registered@.push(task_index),
                self.registered@.len() == n + 1,
                self.jobs == old(self).jobs,
                self.deps@ == deps_after_push,
                forall|i: int| 0 <= i < n ==> self.deps@[i] == old(self).deps@[i],
                self.deps@.len() == n + 1,
                self.adj@.len() == n + 1,
                self.deps@[n]@ == dep_ids@.map_values(|t: TaskId| t.0),
                forall|kk: int| 0 <= kk < dep_ids@.len() ==> (#[trigger] dep_ids@[kk]).0 < n,
                forall|i: int, jj: int|
                    0 <= i < self.deps@.len() && 0 <= jj < self.deps@[i]@.len() ==> (
                    #[trigger] self.deps@[i]@[jj]) < i,
                forall|d: int, kk: int|
                    0 <= d < self.adj@.len() && 0 <= kk < self.adj@[d]@.len() ==> d < (
                    #[trigger] self.adj@[d]@[kk]) < self.adj@.len(),
                // rows keep their counts for old targets; for the new
                // handle the count tracks the processed prefix
                forall|d: usize, i: usize|
                    d < n + 1 && i < n ==> #[trigger] count_occ(self.adj@[d as int]@, i)
                        == count_occ(self.deps@[i as int]@, d),
                forall|d: usize|
                    d < n + 1 ==> #[trigger] count_occ(self.adj@[d as int]@, id.0) == count_occ(
                        self.deps@[n]@.take(k as int),
                        d,
                    ),
            decreases dep_ids@.len() - k,
        {
            let ghost pre = self.adj@;
            let d: usize = dep_ids[k].0;
            let mut row = self.adj.remove(d);
            row.push(id.0);
            self.adj.insert(d, row);
            proof {
                assert(self.adj@.len() == pre.len());
                assert(forall|i: int| 0 <= i < pre.len() && i != d ==> self.adj@[i] == pre[i]);
                assert(self.adj@[d as int]@ == pre[d as int]@.push(id.0));
                assert forall|dd: usize| dd < n + 1 implies #[trigger] count_occ(
                    self.adj@[dd as int]@,
                    id.0,
                ) == count_occ(self.deps@[n]@.take(k + 1), dd) by {
                    lemma_count_occ_take_succ(self.deps@[n]@, dd, k as int);
                    assert(self.deps@[n]@[k as int] == d);
                    if dd == d {
                        lemma_count_occ_push(pre[d as int]@, id.0, id.0);
                    }
                }
                assert forall|dd: usize, i: usize| dd < n + 1 && i < n implies #[trigger] count_occ(
                    self.adj@[dd as int]@,
                    i,
                ) == count_occ(self.deps@[i as int]@, dd) by {
                    if dd == d {
                        lemma_count_occ_push(pre[d as int]@, i, id.0);
                    }
                }
            }
            k += 1;
        }
        proof {
            assert(self.deps@[n]@.take(dep_ids@.len() as int) =~= self.deps@[n]@);
            assert forall|d: usize, i: usize|
                d < self.registered@.len() && i < self.registered@.len() implies #[trigger] count_occ(
                self.adj@[d as int]@,
                i,
            ) == count_occ(self.deps@[i as int]@, d) by {
                if i < n {
                } else {
                    assert(count_occ(self.adj@[d as int]@, id.0) == count_occ(
                        self.deps@[n]@.take(dep_ids@.len() as int),
                        d,
                    ));
                }
            }
        }
        id
    }
}

impl Scheduler {
    /// One conjunct of skippability: dependency entry `j` of task `i`
    /// points strictly backwards at a task that the classification `sk`
    /// marks skippable and whose output stamp is no newer than `ts`.
    pub open spec fn dep_ok(&self, arena: Seq<Task>, sk: Seq<bool>, i: int, ts: u64, j: int) -> bool {
        0 <= i < self.deps@.len() && 0 <= j < self.deps@[i]@.len() && {
            let d = self.deps@[i]@[j] as int;
            &&& 0 <= d < i
            &&& d < sk.len() && sk[d]
            &&& arena[self.registered@[d] as int].spec_cached_at()->0 <= ts
        }
    }

    /// The first `j` dependency entries of task `i` all satisfy
    /// [`Scheduler::dep_ok`] under the classification `sk`.
    pub open spec fn deps_ok_upto(&self, arena: Seq<Task>, sk: Seq<bool>, i: int, ts: u64, j: int) -> bool {
        forall|jj: int| 0 <= jj < j ==> self.dep_ok(arena, sk, i, ts, jj)
    }

    /// What a correct classification must say of task `i`, given what it
    /// says of the tasks registered before `i`: skippable exactly when
    /// the task is fresh (output present, no input newer) and every
    /// dependency is marked skippable with an output stamp no newer than
    /// its own. Freshness propagates transitively; a task with a stale or
    /// phony dependency must run.
    pub open spec fn skip_at(&self, arena: Seq<Task>, sk: Seq<bool>, i: int) -> bool {
        &&& 0 <= i < self.registered@.len()
        &&& self.registered@.len() == self.deps@.len()
        &&& self.registered@[i] < arena.len()
        &&& match arena[self.registered@[i] as int].spec_cached_at() {
            Option::Some(ts) => self.deps_ok_upto(arena, sk, i, ts, self.deps@[i]@.len() as int),
            Option::None => false,
        }
    }

    /// `sk` is the run-versus-skip classification of the registered
    /// tasks: every entry agrees with [`Scheduler::skip_at`]. Dependency
    /// handles point strictly backwards, so this fixes `sk` uniquely.
    pub open spec fn skip_consistent(&self, arena: Seq<Task>, sk: Seq<bool>) -> bool {
        &&& sk.len() == self.registered@.len()
        &&& forall|i: int| 0 <= i < sk.len() ==> sk[i] == self.skip_at(arena, sk, i)
    }

    /// Phase A: the sequential skip prepass. Classifies every registered
    /// task as skippable or must-run, evaluating each task only after all
    /// of its dependencies (handles are registered in dependency order).
    /// No task action is invoked here.
    pub fn skip_prepass(&self, arena: &Vec<Task>) -> (skip: Vec<bool>)
        requires
            self.wf(),
            self.arena_ok(arena@),
        ensures
            self.skip_consistent(arena@, skip@),
    {
        let n = self.registered.len();
        let mut skip: Vec<bool> = Vec::new();
        let mut i: usize = 0;
        while i < n
            invariant
                self.wf(),
                self.arena_ok(arena@),
                n == self.registered@.len(),
                0 <= i <= n,
                skip@.len() == i,
                forall|k: int| 0 <= k < i ==> skip@[k] == self.skip_at(arena@, skip@, k),
            decreases n - i,
        {
            let ok: bool = match arena[self.registered[i]].cached_at() {
                Option::None => false,
                Option::Some(ts) => {
                    let mut good = true;
                    let mut j: usize = 0;
                    while j < self.deps[i].len()
                        invariant
                            self.wf(),
                            self.arena_ok(arena@),
                            n == self.registered@.len(),
                            0 <= i < n,
                            0 <= j <= self.deps@[i as int]@.len(),
                            skip@.len() == i,
                            forall|k: int|
                                0 <= k < i ==> skip@[k] == self.skip_at(arena@, skip@, k),
                            arena@[self.registered@[i as int] as int].spec_cached_at()
                                == Option::Some(ts),
                            good == self.deps_ok_upto(arena@, skip@, i as int, ts, j as int),
                        decreases self.deps@[i as int]@.len() - j,
                    {
                        let d = self.deps[i][j];
                        let cond: bool;
                        if !skip[d] {
                            cond = false;
                            proof {
                                assert(!self.dep_ok(arena@, skip@, i as int, ts, j as int));
                            }
                        } else {
                            match arena[self.registered[d]].cached_at() {
                                Option::Some(dts) => {
                                    cond = dts <= ts;
                                    proof {
                                        if cond {
                                            assert(self.dep_ok(
                                                arena@,
                                                skip@,
                                                i as int,
                                                ts,
                                                j as int,
                                            ));
                                        } else {
                                            assert(!self.dep_ok(
                                                arena@,
                                                skip@,
                                                i as int,
                                                ts,
                                                j as int,
                                            ));
                                        }
                                    }
                                },
                                Option::None => {
                                    // A dependency marked skippable is fresh,
                                    // so its stamp cannot be absent.
                                    proof {
                                        assert(self.skip_at(arena@, skip@, d as int));
                                        assert(false);
                                    }
                                    cond = false;
                                },
                            }
                        }
                        proof {
                            let gi = i as int;
                            let gj = j as int;
                            let sk = skip@;
                            if good && cond {
                                assert forall|jj: int| 0 <= jj < gj + 1 implies self.dep_ok(
                                    arena@,
                                    sk,
                                    gi,
                                    ts,
                                    jj,
                                ) by {
                                    if jj < gj {
                                        assert(self.deps_ok_upto(arena@, sk, gi, ts, gj));
                                    }
                                }
                                assert(self.deps_ok_upto(arena@, sk, gi, ts, gj + 1));
                            } else if !cond {
                                if self.deps_ok_upto(arena@, sk, gi, ts, gj + 1) {
                                    assert(self.dep_ok(arena@, sk, gi, ts, gj));
                                    assert(false);
                                }
                            } else {
                                if self.deps_ok_upto(arena@, sk, gi, ts, gj + 1) {
                                    assert forall|jj: int| 0 <= jj < gj implies self.dep_ok(
                                        arena@,
                                        sk,
                                        gi,
                                        ts,
                                        jj,
                                    ) by {}
                                    assert(self.deps_ok_upto(arena@, sk, gi, ts, gj));
                                    assert(false);
                                }
                            }
                        }
                        good = good && cond;
                        j += 1;
                    }
                    proof {
                        if good {
                            assert(self.skip_at(arena@, skip@, i as int));
                        } else {
                            assert(!self.skip_at(arena@, skip@, i as int));
                        }
                    }
                    good
                },
            };
            let ghost old_sk = skip@;
            skip.push(ok);
            proof {
                assert forall|k: int| 0 <= k < i + 1 implies skip@[k] == self.skip_at(
                    arena@,
                    skip@,
                    k,
                ) by {
                    lemma_skip_at_prefix(self, arena@, old_sk, skip@, k);
                }
            }
            i += 1;
        }
        skip
    }
}

/// The classification of a task depends only on what the classification
/// says of the tasks registered before it.
pub proof fn lemma_skip_at_prefix(
    s: &Scheduler,
    arena: Seq<Task>,
    sk1: Seq<bool>,
    sk2: Seq<bool>,
    i: int,
)
    requires
        forall|d: int| 0 <= d < i ==> d < sk1.len() && d < sk2.len() && sk1[d] == sk2[d],
    ensures
        s.skip_at(arena, sk1, i) == s.skip_at(arena, sk2, i),
{
    if 0 <= i < s.registered@.len() && s.registered@.len() == s.deps@.len()
        && s.registered@[i] < arena.len() {
        match arena[s.registered@[i] as int].spec_cached_at() {
            Option::Some(ts) => {
                let m = s.deps@[i]@.len() as int;
                assert forall|j: int|
                    0 <= j < m && s.dep_ok(arena, sk1, i, ts, j) implies s.dep_ok(
                    arena,
                    sk2,
                    i,
                    ts,
                    j,
                ) by {}
                assert forall|j: int|
                    0 <= j < m && s.dep_ok(arena, sk2, i, ts, j) implies s.dep_ok(
                    arena,
                    sk1,
                    i,
                    ts,
                    j,
                ) by {}
                if s.deps_ok_upto(arena, sk1, i, ts, m) {
                    assert forall|j: int| 0 <= j < m implies s.dep_ok(arena, sk2, i, ts, j) by {
                        assert(s.dep_ok(arena, sk1, i, ts, j));
                    }
                    assert(s.deps_ok_upto(arena, sk2, i, ts, m));
                }
                if s.deps_ok_upto(arena, sk2, i, ts, m) {
                    assert forall|j: int| 0 <= j < m implies s.dep_ok(arena, sk1, i, ts, j) by {
                        assert(s.dep_ok(arena, sk2, i, ts, j));
                    }
                    assert(s.deps_ok_upto(arena, sk1, i, ts, m));
                }
            },
            Option::None => {},
        }
    }
}

/// Freshness propagation: a task whose output is present, with stamp
/// `ts`, and all of whose dependencies are classified skippable with
/// output stamps no newer than `ts`, is itself classified skippable —
/// its action is never invoked.
pub proof fn lemma_fresh_task_skipped(
    s: &Scheduler,
    arena: Seq<Task>,
    sk: Seq<bool>,
    i: int,
    ts: u64,
)
    requires
        s.wf(),
        s.skip_consistent(arena, sk),
        0 <= i < s.registered@.len(),
        s.registered@[i] < arena.len(),
        arena[s.registered@[i] as int].spec_cached_at() == Option::Some(ts),
        forall|j: int|
            0 <= j < s.deps@[i]@.len() ==> sk[#[trigger] s.deps@[i]@[j] as int] && arena[s.registered@[s.deps@[i]@[j] as int] as int].spec_cached_at()->0
                <= ts,
    ensures
        sk[i],
{
    assert forall|j: int| 0 <= j < s.deps@[i]@.len() implies s.dep_ok(arena, sk, i, ts, j) by {
        assert(s.deps@[i]@[j] < i);
    }
    assert(s.deps_ok_upto(arena, sk, i, ts, s.deps@[i]@.len() as int));
    assert(s.skip_at(arena, sk, i));
}

/// A task with no output path is never considered skippable: it always
/// runs when reached, whatever its inputs' stamps.
pub proof fn lemma_phony_task_runs(s: &Scheduler, arena: Seq<Task>, sk: Seq<bool>, i: int)
    requires
        s.skip_consistent(arena, sk),
        0 <= i < s.registered@.len(),
        s.registered@[i] < arena.len(),
        arena[s.registered@[i] as int].target is None,
    ensures
        !sk[i],
{
    assert(!s.skip_at(arena, sk, i));
}

/// If any dependency of a task is classified must-run, the task itself
/// must run, even if its own output stamp looks fresh against its direct
/// inputs.
pub proof fn lemma_stale_dep_forces_run(
    s: &Scheduler,
    arena: Seq<Task>,
    sk: Seq<bool>,
    i: int,
    j: int,
)
    requires
        s.skip_consistent(arena, sk),
        0 <= i < sk.len(),
        0 <= j < s.deps@[i]@.len(),
        s.deps@[i]@[j] < sk.len(),
        !sk[s.deps@[i]@[j] as int],
    ensures
        !sk[i],
{
    if sk[i] {
        assert(s.skip_at(arena, sk, i));
        let ts = arena[s.registered@[i] as int].spec_cached_at()->0;
        assert(s.deps_ok_upto(arena, sk, i, ts, s.deps@[i]@.len() as int));
        assert(s.dep_ok(arena, sk, i, ts, j));
    }
}

/// A task classified skippable is fresh: its output stamp is present.
pub proof fn lemma_skipped_is_fresh(s: &Scheduler, arena: Seq<Task>, sk: Seq<bool>, i: int)
    requires
        s.skip_consistent(arena, sk),
        0 <= i < sk.len(),
        sk[i],
    ensures
        s.registered@[i] < arena.len(),
        arena[s.registered@[i] as int].spec_cached_at() is Some,
{
    assert(s.skip_at(arena, sk, i));
}

impl Scheduler {
    /// Runs the skip prepass and hands the graph to the phase-B
    /// executor: skipped tasks are completed from the outset, stale
    /// tasks whose dependencies are all skipped seed the must-run queue,
    /// and all worker slots start free. No action has been invoked when
    /// this returns.
    pub fn start(self, arena: &Vec<Task>) -> (ex: Executor)
        requires
            self.wf(),
            self.arena_ok(arena@),
        ensures
            ex.inv(),
            ex.registered == self.registered,
            ex.deps == self.deps,
            ex.adj == self.adj,
            ex.jobs == self.jobs,
            self.skip_consistent(arena@, ex.skip@),
            ex.failed is None,
            ex.free_slots == self.jobs,
            ex.done_ok@ == ex.skip@,
            forall|i: int| 0 <= i < ex.n() ==> ((ex.status@[i] == Status::Done) == ex.skip@[i]),
            forall|i: int| 0 <= i < ex.n() ==> ex.status@[i] != Status::Running,
    {
        let skip = self.skip_prepass(arena);
        let n = self.registered.len();
        let mut status: Vec<Status> = Vec::new();
        let mut done_ok: Vec<bool> = Vec::new();
        let mut remaining: Vec<usize> = Vec::new();
        let mut queue: Vec<usize> = Vec::new();
        let mut i: usize = 0;
        while i < n
            invariant
                self.wf(),
                self.arena_ok(arena@),
                self.skip_consistent(arena@, skip@),
                n == self.registered@.len(),
                n <= usize::MAX,
                0 <= i <= n,
                status@.len() == i,
                done_ok@.len() == i,
                remaining@.len() == i,
                forall|k: int| 0 <= k < i ==> done_ok@[k] == skip@[k],
                forall|k: int|
                    0 <= k < i ==> (((#[trigger] status@[k]) == Status::Done) == skip@[k]),
                forall|k: int| 0 <= k < i ==> (#[trigger] status@[k]) != Status::Running,
                forall|k: int|
                    0 <= k < i ==> (#[trigger] remaining@[k]) as int == active_count(
                        self.deps@[k]@,
                        skip@,
                    ),
                forall|k: int|
                    0 <= k < i && (#[trigger] status@[k]) == Status::Pending ==> remaining@[k]
                        > 0,
                forall|k: int|
                    0 <= k < i && (#[trigger] status@[k]) != Status::Pending ==> remaining@[k]
                        == 0,
                forall|p: int|
                    0 <= p < queue@.len() ==> (#[trigger] queue@[p]) < i && status@[queue@[p] as int]
                        == Status::Ready,
                forall|k: int|
                    0 <= k < i && (#[trigger] status@[k]) == Status::Ready ==> exists|p: int|
                        0 <= p < queue@.len() && queue@[p] as int == k,
                forall|p: int, q: int| 0 <= p < q < queue@.len() ==> queue@[p] < queue@[q],
            decreases n - i,
        {
            let ghost gi = i as int;
            let mut cnt: usize = 0;
            let mut j: usize = 0;
            while j < self.deps[i].len()
                invariant
                    self.wf(),
                    n == self.registered@.len(),
                    0 <= i < n,
                    skip@.len() == n,
                    0 <= j <= self.deps@[i as int]@.len(),
                    cnt <= j,
                    cnt as int == active_count(self.deps@[i as int]@.take(j as int), skip@),
                decreases self.deps@[i as int]@.len() - j,
            {
                let d = self.deps[i][j];
                proof {
                    lemma_active_take_succ(self.deps@[i as int]@, skip@, j as int);
                }
                if !skip[d] {
                    cnt = cnt + 1;
                }
                j += 1;
            }
            proof {
                lemma_active_full(self.deps@[gi]@, skip@);
            }
            if skip[i] {
                proof {
                    // every dependency of a skipped task is itself
                    // skipped, so no dependency is counted active
                    assert(self.skip_at(arena@, skip@, gi));
                    let ts = arena@[self.registered@[gi] as int].spec_cached_at()->0;
                    assert forall|kk: int|
                        0 <= kk < self.deps@[gi]@.len() implies self.deps@[gi]@[kk] < skip@.len()
                        && skip@[#[trigger] self.deps@[gi]@[kk] as int] by {
                        assert(self.deps_ok_upto(
                            arena@,
                            skip@,
                            gi,
                            ts,
                            self.deps@[gi]@.len() as int,
                        ));
                        assert(self.dep_ok(arena@, skip@, gi, ts, kk));
                    }
                    lemma_active_all_completed(self.deps@[gi]@, skip@);
                    assert(cnt == 0);
                }
                status.push(Status::Done);
                done_ok.push(true);
            } else if cnt == 0 {
                status.push(Status::Ready);
                done_ok.push(false);
                let ghost pre_q = queue@;
                queue.push(i);
                proof {
                    assert forall|k: int|
                        0 <= k < i + 1 && (#[trigger] status@[k]) == Status::Ready implies exists|
                            p: int,
                        |
                        0 <= p < queue@.len() && queue@[p] as int == k by {
                        if k < i {
                            let p = choose|p: int| 0 <= p < pre_q.len() && pre_q[p] as int == k;
                            assert(queue@[p] as int == k);
                        } else {
                            assert(queue@[queue@.len() - 1] as int == k);
                        }
                    }
                }
            } else {
                status.push(Status::Pending);
                done_ok.push(false);
            }
            remaining.push(cnt);
            i += 1;
        }
        let ghost sk = skip@;
        let ghost s0 = self;
        let jobs = self.jobs;
        let ex = Executor {
            registered: self.registered,
            deps: self.deps,
            adj: self.adj,
            jobs,
            skip,
            status,
            done_ok,
            remaining,
            queue,
            free_slots: jobs,
            failed: Option::None,
        };
        proof {
            assert(ex.comp_seq() =~= sk);
            assert forall|k: int|
                0 <= k < ex.n() implies (#[trigger] ex.remaining@[k]) as int == active_count(
                ex.deps@[k]@,
                ex.comp_seq(),
            ) by {
                assert(active_count(ex.deps@[k]@, ex.comp_seq()) == active_count(
                    ex.deps@[k]@,
                    sk,
                ));
            }
            // a skipped task has only skipped dependencies
            assert forall|a: int, b: int|
                0 <= a < ex.n() && 0 <= b < ex.deps@[a]@.len() && ex.skip@[a] implies ex.skip@[(
            #[trigger] ex.deps@[a]@[b]) as int] by {
                assert(s0.skip_at(arena@, sk, a));
                let ts = arena@[s0.registered@[a] as int].spec_cached_at()->0;
                assert(s0.deps_ok_upto(arena@, sk, a, ts, s0.deps@[a]@.len() as int));
                assert(s0.dep_ok(arena@, sk, a, ts, b));
            }
            lemma_running_zero(ex.status@);
            assert(ex.done_ok@ =~= ex.skip@);
        }
        ex
    }
}

/// Per-task execution status inside phase B.
#[derive(Clone, Copy, PartialEq, Eq, Structural, Debug)]
pub enum Status {
    /// Some dependency is not yet completed.
    Pending,
    /// All dependencies completed; waiting in the must-run queue.
    Ready,
    /// Its action is being executed on a worker.
    Running,
    /// Finished: either validly skipped or its action returned.
    Done,
}

/// How many tasks the status vector marks as running.
pub open spec fn running_count(s: Seq<Status>) -> int
    decreases s.len(),
{
    if s.len() == 0 {
        0
    } else {
        running_count(s.drop_last()) + if s.last() == Status::Running {
            1int
        } else {
            0int
        }
    }
}

pub proof fn lemma_running_nonneg(s: Seq<Status>)
    ensures
        running_count(s) >= 0,
    decreases s.len(),
{
    if s.len() > 0 {
        lemma_running_nonneg(s.drop_last());
    }
}

pub proof fn lemma_running_zero(s: Seq<Status>)
    requires
        forall|i: int| 0 <= i < s.len() ==> s[i] != Status::Running,
    ensures
        running_count(s) == 0,
    decreases s.len(),
{
    if s.len() > 0 {
        lemma_running_zero(s.drop_last());
    }
}

pub proof fn lemma_running_pos(s: Seq<Status>, i: int)
    requires
        0 <= i < s.len(),
        s[i] == Status::Running,
    ensures
        running_count(s) >= 1,
    decreases s.len(),
{
    lemma_running_nonneg(s.drop_last());
    if i < s.len() - 1 {
        lemma_running_pos(s.drop_last(), i);
    }
}

pub proof fn lemma_running_update(s: Seq<Status>, i: int, v: Status)
    requires
        0 <= i < s.len(),
    ensures
        running_count(s.update(i, v)) == running_count(s) - (if s[i] == Status::Running {
            1int
        } else {
            0int
        }) + (if v == Status::Running {
            1int
        } else {
            0int
        }),
    decreases s.len(),
{
    if i == s.len() - 1 {
        assert(s.update(i, v).drop_last() =~= s.drop_last());
    } else {
        assert(s.update(i, v).drop_last() =~= s.drop_last().update(i, v));
        lemma_running_update(s.drop_last(), i, v);
    }
}

/// A positive occurrence count exhibits an occurrence.
pub proof fn lemma_count_pos_contains(s: Seq<usize>, x: usize)
    requires
        count_occ(s, x) > 0,
    ensures
        exists|k: int| 0 <= k < s.len() && s[k] == x,
    decreases s.len(),
{
    lemma_count_occ_nonneg(s.drop_last(), x);
    if s.last() != x {
        lemma_count_pos_contains(s.drop_last(), x);
        let k = choose|k: int| 0 <= k < s.drop_last().len() && s.drop_last()[k] == x;
        assert(s[k] == x);
    } else {
        assert(s[s.len() - 1] == x);
    }
}

/// Phase B: the bounded-parallelism execution state machine. The caller
/// (the driving loop) repeatedly asks [`Executor::start_next`] for a
/// task to hand to a worker, reports completions with
/// [`Executor::finish`], and reads the run's outcome with
/// [`Executor::result`] once [`Executor::is_done`] holds. All scheduler
/// state is mutated only through these calls; workers only report
/// completion.
pub struct Executor {
    /// Arena index of each registered task.
    pub registered: Vec<usize>,
    /// Dependency lists, handles pointing strictly backwards.
    pub deps: Vec<Vec<usize>>,
    /// Forward adjacency, mirroring `deps` with multiplicity.
    pub adj: Vec<Vec<usize>>,
    /// Bounded parallelism limit, at least 1.
    pub jobs: usize,
    /// Phase A classification: tasks to be skipped, never started.
    pub skip: Vec<bool>,
    /// Execution status of each task.
    pub status: Vec<Status>,
    /// For done tasks: completed successfully (skipped tasks count as
    /// successful; results reported after a failure are discarded).
    pub done_ok: Vec<bool>,
    /// In-degree bookkeeping: number of dependency-list entries whose
    /// task is not yet successfully completed.
    pub remaining: Vec<usize>,
    /// The must-run queue, FIFO: tasks become runnable in the order
    /// their dependencies complete.
    pub queue: Vec<usize>,
    /// Free worker slots.
    pub free_slots: usize,
    /// The first task whose action reported failure, if any.
    pub failed: Option<TaskId>,
}

impl Executor {
    pub open spec fn n(&self) -> int {
        self.registered@.len() as int
    }

    /// Task `i` is completed: done, and its outcome was credited.
    pub open spec fn spec_completed(&self, i: int) -> bool {
        self.status@[i] == Status::Done && self.done_ok@[i]
    }

    /// Completion flags of all tasks, as a sequence.
    pub open spec fn comp_seq(&self) -> Seq<bool> {
        Seq::new(self.status@.len(), |i: int| self.spec_completed(i))
    }

    /// The graph shape carried over from the scheduler.
    pub open spec fn graph_wf(&self) -> bool {
        &&& self.deps@.len() == self.registered@.len()
        &&& self.adj@.len() == self.registered@.len()
        &&& self.jobs >= 1
        &&& forall|i: int, j: int|
            0 <= i < self.deps@.len() && 0 <= j < self.deps@[i]@.len() ==> (
            #[trigger] self.deps@[i]@[j]) < i
        &&& forall|d: int, k: int|
            0 <= d < self.adj@.len() && 0 <= k < self.adj@[d]@.len() ==> d < (
            #[trigger] self.adj@[d]@[k]) < self.adj@.len()
        &&& forall|d: usize, i: usize|
            d < self.registered@.len() && i < self.registered@.len() ==> #[trigger] count_occ(
                self.adj@[d as int]@,
                i,
            ) == count_occ(self.deps@[i as int]@, d)
    }

    /// The execution invariant, preserved by every step.
    pub open spec fn inv(&self) -> bool {
        let n = self.n();
        &&& self.graph_wf()
        &&& self.skip@.len() == n
        &&& self.status@.len() == n
        &&& self.done_ok@.len() == n
        &&& self.remaining@.len() == n
        // a skipped task has only skipped dependencies
        &&& forall|i: int, j: int|
            0 <= i < n && 0 <= j < self.deps@[i]@.len() && self.skip@[i] ==> self.skip@[(
            #[trigger] self.deps@[i]@[j]) as int]
        // skipped tasks are completed from the outset and never started
        &&& forall|i: int| 0 <= i < n && self.skip@[i] ==> self.status@[i] == Status::Done
            && self.done_ok@[i]
        // a task is marked successful only once done
        &&& forall|i: int| 0 <= i < n && self.status@[i] != Status::Done ==> !self.done_ok@[i]
        // in-degree bookkeeping is exact
        &&& forall|i: int|
            0 <= i < n ==> (#[trigger] self.remaining@[i]) as int == active_count(
                self.deps@[i]@,
                self.comp_seq(),
            )
        // a pending task has an uncompleted dependency
        &&& forall|i: int|
            0 <= i < n && (#[trigger] self.status@[i]) == Status::Pending ==> self.remaining@[i]
                > 0
        // a task leaves pending only once its dependencies completed
        &&& forall|i: int|
            0 <= i < n && (#[trigger] self.status@[i]) != Status::Pending ==> self.remaining@[i]
                == 0
        // the queue holds exactly the ready tasks, each once
        &&& forall|p: int|
            0 <= p < self.queue@.len() ==> (#[trigger] self.queue@[p]) < n && self.status@[self.queue@[p] as int]
                == Status::Ready
        &&& forall|i: int|
            0 <= i < n && (#[trigger] self.status@[i]) == Status::Ready ==> exists|p: int|
                0 <= p < self.queue@.len() && self.queue@[p] as int == i
        &&& forall|p: int, q: int|
            0 <= p < q < self.queue@.len() ==> self.queue@[p] != self.queue@[q]
        // slot accounting
        &&& running_count(self.status@) <= self.jobs
        &&& self.free_slots == self.jobs - running_count(self.status@)
        // failure bookkeeping
        &&& match self.failed {
            Option::Some(t) => t.0 < n && self.status@[t.0 as int] == Status::Done
                && !self.done_ok@[t.0 as int] && !self.skip@[t.0 as int],
            Option::None => forall|i: int|
                0 <= i < n && (#[trigger] self.status@[i]) == Status::Done ==> self.done_ok@[i],
        }
    }

    /// The arena index behind a handle, for the driving loop to look up
    /// the task's name and action.
    pub fn task_of(&self, id: TaskId) -> (r: usize)
        requires
            id.0 < self.registered@.len(),
        ensures
            r == self.registered@[id.0 as int],
    {
        self.registered[id.0]
    }

    /// The run is over: no worker is outstanding, and either a failure
    /// was recorded (new work is no longer scheduled) or the must-run
    /// queue is exhausted.
    pub open spec fn spec_done(&self) -> bool {
        &&& running_count(self.status@) == 0
        &&& (self.failed is Some || self.queue@.len() == 0)
    }

    pub fn is_done(&self) -> (r: bool)
        requires
            self.inv(),
        ensures
            r == self.spec_done(),
    {
        proof {
            lemma_running_nonneg(self.status@);
        }
        self.free_slots == self.jobs && (self.failed.is_some() || self.queue.len() == 0)
    }

    /// Hands out the next task to run, if a worker slot is free, work is
    /// queued, and no failure has been observed (after the first failure
    /// no new work is started). The task handed out is the queue's
    /// oldest entry, is started exactly once (its status moves from
    /// ready to running), is never a skipped task, and every one of its
    /// dependencies has completed.
    pub fn start_next(&mut self) -> (r: Option<TaskId>)
        requires
            old(self).inv(),
        ensures
            final(self).inv(),
            final(self).registered == old(self).registered,
            final(self).deps == old(self).deps,
            final(self).adj == old(self).adj,
            final(self).jobs == old(self).jobs,
            final(self).skip == old(self).skip,
            match r {
                Option::Some(id) => {
                    &&& old(self).failed is None
                    &&& old(self).free_slots > 0
                    &&& old(self).queue@.len() > 0
                    &&& id.0 == old(self).queue@[0]
                    &&& id.0 < old(self).status@.len()
                    &&& old(self).status@[id.0 as int] == Status::Ready
                    &&& !old(self).skip@[id.0 as int]
                    &&& forall|j: int|
                        0 <= j < old(self).deps@[id.0 as int]@.len() ==> old(self).spec_completed(
                            (#[trigger] old(self).deps@[id.0 as int]@[j]) as int,
                        )
                    &&& final(self).status@ == old(self).status@.update(
                        id.0 as int,
                        Status::Running,
                    )
                    &&& final(self).queue@ == old(self).queue@.subrange(
                        1,
                        old(self).queue@.len() as int,
                    )
                    &&& final(self).free_slots == old(self).free_slots - 1
                    &&& final(self).done_ok == old(self).done_ok
                    &&& final(self).remaining == old(self).remaining
                    &&& final(self).failed is None
                },
                Option::None => {
                    &&& *final(self) == *old(self)
                    &&& (old(self).failed is Some || old(self).free_slots == 0 || old(
                        self,
                    ).queue@.len() == 0)
                },
            },
    {
        if self.failed.is_some() {
            return Option::None;
        }
        if self.free_slots == 0 {
            return Option::None;
        }
        if self.queue.len() == 0 {
            return Option::None;
        }
        let ghost pre = *self;
        let h = self.queue.remove(0);
        let _prev = self.status.remove(h);
        self.status.insert(h, Status::Running);
        self.free_slots = self.free_slots - 1;
        proof {
            let n = self.n();
            let gh = h as int;
            assert(self.status@ =~= pre.status@.update(gh, Status::Running));
            assert(self.queue@ =~= pre.queue@.subrange(1, pre.queue@.len() as int));
            lemma_running_update(pre.status@, gh, Status::Running);
            // completion flags are untouched, so in-degrees stay exact
            assert(self.comp_seq() =~= pre.comp_seq());
            // the started task's dependencies are all completed
            assert(pre.remaining@[gh] == 0);
            lemma_active_zero(pre.deps@[gh]@, pre.comp_seq());
            // every still-ready task keeps a queue slot
            assert forall|hh: int|
                0 <= hh < n && (#[trigger] self.status@[hh]) == Status::Ready implies exists|p: int|
                0 <= p < self.queue@.len() && self.queue@[p] as int == hh by {
                assert(pre.status@[hh] == Status::Ready);
                let p = choose|p: int| 0 <= p < pre.queue@.len() && pre.queue@[p] as int == hh;
                assert(p != 0);
                assert(self.queue@[p - 1] as int == hh);
            }
        }
        Option::Some(TaskId(h))
    }

    /// Records that the worker running `id` finished, successfully or
    /// not. The slot is released in either case. The first failure is
    /// recorded and stops new scheduling; results reported after it are
    /// discarded. A credited success completes the task: each dependent
    /// loses one unit of in-degree per dependency edge, and a dependent
    /// whose last dependency just completed joins the must-run queue
    /// unconditionally.
    #[verifier::rlimit(100)]
    #[verifier::spinoff_prover]
    pub fn finish(&mut self, id: TaskId, ok: bool)
        requires
            old(self).inv(),
            id.0 < old(self).status@.len(),
            old(self).status@[id.0 as int] == Status::Running,
        ensures
            final(self).inv(),
            final(self).registered == old(self).registered,
            final(self).deps == old(self).deps,
            final(self).adj == old(self).adj,
            final(self).jobs == old(self).jobs,
            final(self).skip == old(self).skip,
            final(self).status@.len() == old(self).status@.len(),
            final(self).status@[id.0 as int] == Status::Done,
            forall|i: int|
                0 <= i < old(self).status@.len() && i != id.0 ==> final(self).status@[i]
                    == old(self).status@[i] || (old(self).status@[i] == Status::Pending
                    && final(self).status@[i] == Status::Ready),
            final(self).done_ok@ == old(self).done_ok@.update(
                id.0 as int,
                ok && old(self).failed is None,
            ),
            final(self).free_slots == old(self).free_slots + 1,
            final(self).failed == (if old(self).failed is Some {
                old(self).failed
            } else if !ok {
                Option::Some(id)
            } else {
                Option::None::<TaskId>
            }),
            old(self).queue@.is_prefix_of(final(self).queue@),
            !(ok && old(self).failed is None) ==> final(self).queue@ == old(self).queue@,
    {
        let h = id.0;
        let credited = ok && self.failed.is_none();
        let ghost pre = *self;
        let _prev = self.status.remove(h);
        self.status.insert(h, Status::Done);
        let _prevok = self.done_ok.remove(h);
        self.done_ok.insert(h, credited);
        proof {
            assert(self.status@ =~= pre.status@.update(h as int, Status::Done));
            assert(self.done_ok@ =~= pre.done_ok@.update(h as int, credited));
            lemma_running_pos(pre.status@, h as int);
            lemma_running_update(pre.status@, h as int, Status::Done);
        }
        self.free_slots = self.free_slots + 1;
        if !ok && self.failed.is_none() {
            self.failed = Option::Some(id);
        }
        let ghost mid = *self;
        let ghost comp0 = pre.comp_seq();
        proof {
            assert(!comp0[h as int]);
            if !credited {
                assert(self.comp_seq() =~= comp0);
            } else {
                assert(self.comp_seq() =~= comp0.update(h as int, true));
            }
        }
        if credited {
            proof {
                assert(self.registered.len() == self.registered@.len());
            }
            let m = self.adj[h].len();
            let mut k: usize = 0;
            while k < m
                invariant
                    self.inv_frame(pre, id, credited),
                    self.registered@.len() <= usize::MAX,
                    m == self.adj@[h as int]@.len(),
                    h == id.0,
                    0 <= k <= m,
                    credited,
                    self.comp_seq() =~= comp0.update(h as int, true),
                    !comp0[h as int],
                    comp0.len() == self.n(),
                    self.failed is None,
                    pre.queue@.is_prefix_of(self.queue@),
                    self.free_slots == pre.free_slots + 1,
                    self.status@[h as int] == Status::Done,
                    forall|i: int|
                        0 <= i < self.n() && i != h ==> self.status@[i] == pre.status@[i] || (
                        pre.status@[i] == Status::Pending && self.status@[i] == Status::Ready),
                    forall|i: int|
                        0 <= i < self.n() ==> (#[trigger] self.remaining@[i]) as int
                            == active_count(self.deps@[i]@, comp0) - count_occ(
                            self.adj@[h as int]@.take(k as int),
                            i as usize,
                        ),
                decreases m - k,
            {
                let t = self.adj[h][k];
                let ghost gt = t as int;
                proof {
                    // this occurrence is still uncounted, so the
                    // dependent's in-degree is positive
                    lemma_count_occ_take_succ(self.adj@[h as int]@, t, k as int);
                    lemma_count_occ_take_le(self.adj@[h as int]@, t, k as int + 1);
                    assert(count_occ(self.adj@[h as int]@, t) == count_occ(
                        self.deps@[gt]@,
                        h,
                    ));
                    lemma_active_ge_count(self.deps@[gt]@, comp0, h);
                    lemma_count_occ_nonneg(self.adj@[h as int]@.take(k as int), t);
                    assert(self.remaining@[gt] >= 1);
                }
                let ghost pre_rem = self.remaining@;
                proof {
                    assert(forall|i: int|
                        0 <= i < self.n() ==> (#[trigger] pre_rem[i]) as int == active_count(
                            self.deps@[i]@,
                            comp0,
                        ) - count_occ(self.adj@[h as int]@.take(k as int), i as usize));
                }
                let r = self.remaining[t] - 1;
                let _oldr = self.remaining.remove(t);
                self.remaining.insert(t, r);
                proof {
                    assert(self.remaining@ =~= pre_rem.update(gt, r));
                }
                let ghost pre_step = *self;
                if r == 0 {
                    proof {
                        // the dependent was pending: its in-degree was
                        // still positive before this decrement
                        assert(pre_step.status@[gt] == Status::Pending);
                        // it is not a skipped task: `h` is one of its
                        // dependencies and `h` is not skipped
                        lemma_count_pos_contains(self.deps@[gt]@, h);
                        assert(!self.skip@[gt]);
                    }
                    let _prevs = self.status.remove(t);
                    self.status.insert(t, Status::Ready);
                    self.queue.push(t);
                    proof {
                        assert(self.status@ =~= pre_step.status@.update(gt, Status::Ready));
                        lemma_running_update(pre_step.status@, gt, Status::Ready);
                        assert(self.comp_seq() =~= pre_step.comp_seq());
                        assert forall|hh: int|
                            0 <= hh < self.n() && (#[trigger] self.status@[hh]) == Status::Ready
                            implies exists|p: int|
                            0 <= p < self.queue@.len() && self.queue@[p] as int == hh by {
                            if hh != gt {
                                assert(pre_step.status@[hh] == Status::Ready);
                                let p = choose|p: int|
                                    0 <= p < pre_step.queue@.len() && pre_step.queue@[p] as int
                                        == hh;
                                assert(self.queue@[p] as int == hh);
                            } else {
                                assert(self.queue@[self.queue@.len() - 1] as int == hh);
                            }
                        }
                    }
                }
                proof {
                    assert forall|i: int|
                        0 <= i < self.n() implies (#[trigger] self.remaining@[i]) as int
                            == active_count(self.deps@[i]@, comp0) - count_occ(
                            self.adj@[h as int]@.take(k as int + 1),
                            i as usize,
                        ) by {
                        lemma_count_occ_take_succ(self.adj@[h as int]@, i as usize, k as int);
                        assert(pre_rem[i] as int == active_count(self.deps@[i]@, comp0)
                            - count_occ(self.adj@[h as int]@.take(k as int), i as usize));
                        if i != gt {
                            assert(i as usize as int == i);
                            assert(i as usize != t);
                            assert(self.remaining@[i] == pre_rem[i]);
                        } else {
                            assert(i as usize == t);
                            assert(self.adj@[h as int]@[k as int] == t);
                            assert(self.remaining@[i] == r);
                            assert(r as int == pre_rem[i] as int - 1);
                        }
                    }
                }
                k += 1;
            }
            proof {
                assert(self.adj@[h as int]@.take(m as int) =~= self.adj@[h as int]@);
                assert forall|i: int|
                    0 <= i < self.n() implies (#[trigger] self.remaining@[i]) as int
                        == active_count(self.deps@[i]@, self.comp_seq()) by {
                    lemma_active_update(self.deps@[i]@, comp0, h);
                    assert(count_occ(self.adj@[h as int]@, i as usize) == count_occ(
                        self.deps@[i]@,
                        h,
                    ));
                    assert(active_count(self.deps@[i]@, self.comp_seq()) == active_count(
                        self.deps@[i]@,
                        comp0.update(h as int, true),
                    ));
                }
            }
        } else {
            proof {
                assert forall|i: int|
                    0 <= i < self.n() implies (#[trigger] self.remaining@[i]) as int
                        == active_count(self.deps@[i]@, self.comp_seq()) by {
                    assert(active_count(self.deps@[i]@, self.comp_seq()) == active_count(
                        self.deps@[i]@,
                        comp0,
                    ));
                }
            }
        }
    }

    /// The frame of [`Executor::finish`]'s dependent-update loop: all
    /// invariant conjuncts except the exact in-degree equation, which the
    /// loop re-establishes.
    pub open spec fn inv_frame(&self, pre: Executor, id: TaskId, credited: bool) -> bool {
        let n = self.n();
        &&& self.graph_wf()
        &&& self.skip@.len() == n
        &&& self.status@.len() == n
        &&& self.done_ok@.len() == n
        &&& self.remaining@.len() == n
        &&& self.registered == pre.registered
        &&& self.deps == pre.deps
        &&& self.adj == pre.adj
        &&& self.jobs == pre.jobs
        &&& self.skip == pre.skip
        &&& self.done_ok@ == pre.done_ok@.update(id.0 as int, credited)
        &&& id.0 < n
        &&& forall|i: int, j: int|
            0 <= i < n && 0 <= j < self.deps@[i]@.len() && self.skip@[i] ==> self.skip@[(
            #[trigger] self.deps@[i]@[j]) as int]
        &&& forall|i: int| 0 <= i < n && self.skip@[i] ==> self.status@[i] == Status::Done
            && self.done_ok@[i]
        &&& forall|i: int| 0 <= i < n && self.status@[i] != Status::Done ==> !self.done_ok@[i]
        &&& forall|i: int|
            0 <= i < n && (#[trigger] self.status@[i]) == Status::Pending ==> self.remaining@[i]
                > 0
        &&& forall|i: int|
            0 <= i < n && (#[trigger] self.status@[i]) != Status::Pending ==> self.remaining@[i]
                == 0
        &&& forall|p: int|
            0 <= p < self.queue@.len() ==> (#[trigger] self.queue@[p]) < n && self.status@[self.queue@[p] as int]
                == Status::Ready
        &&& forall|i: int|
            0 <= i < n && (#[trigger] self.status@[i]) == Status::Ready ==> exists|p: int|
                0 <= p < self.queue@.len() && self.queue@[p] as int == i
        &&& forall|p: int, q: int|
            0 <= p < q < self.queue@.len() ==> self.queue@[p] != self.queue@[q]
        &&& running_count(self.status@) <= self.jobs
        &&& self.free_slots == self.jobs - running_count(self.status@)
        &&& match self.failed {
            Option::Some(t) => t.0 < n && self.status@[t.0 as int] == Status::Done
                && !self.done_ok@[t.0 as int] && !self.skip@[t.0 as int],
            Option::None => forall|i: int|
                0 <= i < n && (#[trigger] self.status@[i]) == Status::Done ==> self.done_ok@[i],
        }
    }

    /// Every task is completed when a run with no failure is over: the
    /// driving loop never stalls while uncompleted work remains.
    proof fn lemma_all_completed_rec(&self, i: int)
        requires
            self.inv(),
            self.spec_done(),
            self.failed is None,
            0 <= i < self.n(),
        ensures
            self.spec_completed(i),
        decreases i,
    {
        let st = self.status@[i];
        if st == Status::Done {
        } else if st == Status::Ready {
            let p = choose|p: int| 0 <= p < self.queue@.len() && self.queue@[p] as int == i;
            assert(self.queue@.len() > 0);
        } else if st == Status::Running {
            lemma_running_pos(self.status@, i);
        } else {
            assert(st == Status::Pending);
            assert forall|j: int| 0 <= j < self.deps@[i]@.len() implies self.comp_seq()[(
                #[trigger] self.deps@[i]@[j]) as int] by {
                self.lemma_all_completed_rec(self.deps@[i]@[j] as int);
            }
            lemma_active_all_completed(self.deps@[i]@, self.comp_seq());
            assert(self.remaining@[i] as int == 0);
        }
    }

    pub proof fn lemma_all_completed(&self)
        requires
            self.inv(),
            self.spec_done(),
            self.failed is None,
        ensures
            forall|i: int| 0 <= i < self.n() ==> self.spec_completed(i),
    {
        assert forall|i: int| 0 <= i < self.n() implies self.spec_completed(i) by {
            self.lemma_all_completed_rec(i);
        }
    }

    /// The run's outcome: the first failure observed, in completion
    /// order, or success — in which case every registered task completed
    /// (ran or was validly skipped).
    pub fn result(&self) -> (r: Result<(), ExecutionError>)
        requires
            self.inv(),
            self.spec_done(),
        ensures
            match r {
                Result::Ok(()) => self.failed is None && forall|i: int|
                    0 <= i < self.n() ==> self.spec_completed(i),
                Result::Err(e) => self.failed matches Option::Some(t) && e
                    == (ExecutionError::ActionError { task: t }),
            },
    {
        match self.failed {
            Option::Some(t) => Result::Err(ExecutionError::ActionError { task: t }),
            Option::None => {
                proof {
                    self.lemma_all_completed();
                }
                Result::Ok(())
            },
        }
    }
}

/// Handles strictly decrease along the chain, so position `x` is at
/// most `hs[0] - x`.
proof fn lemma_chain_decreases(hs: Seq<int>, x: int)
    requires
        forall|y: int| 0 <= y < hs.len() - 1 ==> #[trigger] hs[y + 1] < hs[y],
        0 <= x < hs.len(),
    ensures
        hs[x] <= hs[0] - x,
    decreases x,
{
    if x > 0 {
        lemma_chain_decreases(hs, x - 1);
        assert(hs[(x - 1) + 1] < hs[x - 1]);
    }
}

/// Registration admits no dependency cycle: along any chain of
/// dependency edges among registered tasks, handles strictly decrease,
/// so no chain returns to its start. In particular no task on a
/// dependency cycle is ever registered.
pub proof fn lemma_registration_acyclic(s: &Scheduler, hs: Seq<int>)
    requires
        s.wf(),
        hs.len() >= 2,
        forall|x: int| 0 <= x < hs.len() ==> 0 <= #[trigger] hs[x] < s.registered@.len(),
        forall|x: int|
            0 <= x < hs.len() - 1 ==> exists|j: int|
                0 <= j < s.deps@[hs[x]]@.len() && s.deps@[#[trigger] hs[x]]@[j] as int == hs[x
                    + 1],
    ensures
        hs.last() < hs.first(),
{
    assert forall|y: int| 0 <= y < hs.len() - 1 implies #[trigger] hs[y + 1] < hs[y] by {
        let j = choose|j: int|
            0 <= j < s.deps@[hs[y]]@.len() && s.deps@[hs[y]]@[j] as int == hs[y + 1];
        assert(s.deps@[hs[y]]@[j] < hs[y]);
    }
    lemma_chain_decreases(hs, hs.len() - 1);
}

/// Relies on num_cpus::get: the number of logical CPUs available to the
/// current process, which is always at least 1.
#[verifier::external_body]
fn available_parallelism_units() -> (r: usize)
    ensures
        r >= 1,
{
    num_cpus::get()
}

} // verus!
