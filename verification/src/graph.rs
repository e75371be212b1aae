//! The graph resolver: a depth-first walk over declared dependency names
//! starting at the requested entry task. Every referenced name must be
//! declared, cycles are detected and reported, and each task in the
//! entry's transitive closure is registered with the scheduler exactly
//! once, strictly after all of its dependencies.

use vstd::prelude::*;

use crate::sched::{Scheduler, TaskId};
use crate::task::{find_task, Spanned, Task};

verus! {

/// Resolution state of one declared task: not yet visited, currently
/// being resolved (on the depth-first walk's stack), or registered with
/// the scheduler under the carried handle.
#[derive(Clone, Copy, Debug)]
pub enum Mark {
    Unseen,
    InProgress,
    Done(usize),
}

/// An error that aborts resolution; no execution happens after either.
#[derive(Clone, Debug)]
pub enum ResolveError {
    /// A declared dependency name has no matching task; carries the
    /// offending name with its declaration site.
    TaskNotFound { name: Spanned<String> },
    /// A dependency chain revisits a task currently being resolved;
    /// carries the declaration sites of the task being parsed and of the
    /// dependency that closed the cycle.
    CircularDependency { parsing: Spanned<String>, dep: Spanned<String> },
}

/// Internal resolution error: `FoundCircular` is raised where a cycle is
/// detected and replaced by `Circular`, with both declaration sites, one
/// level up, where the dependency's task is at hand.
enum SubmitError {
    NotFound { name: Spanned<String> },
    Circular { parsing: Spanned<String>, dep: Spanned<String> },
    FoundCircular,
}

/// Task `k` declares a dependency carrying task `t`'s name.
pub open spec fn dep_edge(arena: Seq<Task>, k: int, t: int) -> bool {
    exists|j: int|
        0 <= j < arena[k].deps@.len() && arena[k].deps@[j].item@ == arena[t].name.item@
}

/// `p` is a walk through the declared-name dependency graph.
pub open spec fn is_path(arena: Seq<Task>, p: Seq<int>) -> bool {
    &&& forall|x: int| 0 <= x < p.len() ==> 0 <= #[trigger] p[x] < arena.len()
    &&& forall|x: int| 0 <= x < p.len() - 1 ==> dep_edge(arena, #[trigger] p[x], p[x + 1])
}

/// Task `b` is in task `a`'s transitive dependency closure (or is `a`).
pub open spec fn reachable(arena: Seq<Task>, a: int, b: int) -> bool {
    exists|p: Seq<int>|
        is_path(arena, p) && p.len() >= 1 && p.first() == a && p.last() == b
}

/// Some dependency cycle is reachable from `entry`.
pub open spec fn cycle_reachable(arena: Seq<Task>, entry: int) -> bool {
    exists|x: int, c: Seq<int>|
        reachable(arena, entry, x) && is_path(arena, c) && c.len() >= 2 && c.first() == x
            && c.last() == x
}

/// Task names are unique within the declared set.
pub open spec fn distinct_names(arena: Seq<Task>) -> bool {
    forall|a: int, b: int|
        0 <= a < b < arena.len() ==> arena[a].name.item@ != arena[b].name.item@
}

/// Some declared task carries this name.
pub open spec fn declared(arena: Seq<Task>, name: Seq<char>) -> bool {
    exists|k: int| 0 <= k < arena.len() && arena[k].name.item@ == name
}

/// How many tasks the resolver has not visited yet.
pub open spec fn count_unseen(ms: Seq<Mark>) -> int
    decreases ms.len(),
{
    if ms.len() == 0 {
        0
    } else {
        count_unseen(ms.drop_last()) + if ms.last() is Unseen {
            1int
        } else {
            0int
        }
    }
}

pub proof fn lemma_unseen_nonneg(ms: Seq<Mark>)
    ensures
        count_unseen(ms) >= 0,
    decreases ms.len(),
{
    if ms.len() > 0 {
        lemma_unseen_nonneg(ms.drop_last());
    }
}

pub proof fn lemma_unseen_update(ms: Seq<Mark>, k: int, v: Mark)
    requires
        0 <= k < ms.len(),
    ensures
        count_unseen(ms.update(k, v)) == count_unseen(ms) - (if ms[k] is Unseen {
            1int
        } else {
            0int
        }) + (if v is Unseen {
            1int
        } else {
            0int
        }),
    decreases ms.len(),
{
    if k == ms.len() - 1 {
        assert(ms.update(k, v).drop_last() =~= ms.drop_last());
    } else {
        assert(ms.update(k, v).drop_last() =~= ms.drop_last().update(k, v));
        lemma_unseen_update(ms.drop_last(), k, v);
    }
}

/// A dependency edge from the end of a path from `entry` to a task
/// already on that path closes a cycle reachable from `entry`.
proof fn lemma_close_cycle(arena: Seq<Task>, entry: int, chain2: Seq<int>, d: int)
    requires
        is_path(arena, chain2),
        chain2.len() >= 1,
        chain2.first() == entry,
        chain2.contains(d),
        dep_edge(arena, chain2.last(), d),
    ensures
        cycle_reachable(arena, entry),
{
    let pos = choose|p: int| 0 <= p < chain2.len() && chain2[p] == d;
    let c = chain2.subrange(pos, chain2.len() as int).push(d);
    assert(c.first() == d);
    assert(c.last() == d);
    assert(c.len() >= 2);
    assert(is_path(arena, c)) by {
        assert forall|x: int|
            0 <= x < c.len() - 1 implies dep_edge(arena, #[trigger] c[x], c[x + 1]) by {
            if x < c.len() - 2 {
                assert(c[x] == chain2[pos + x]);
                assert(c[x + 1] == chain2[pos + x + 1]);
            } else {
                assert(c[x] == chain2[chain2.len() - 1]);
                assert(c[x + 1] == d);
            }
        }
    }
    let pr = chain2.subrange(0, pos + 1);
    assert(is_path(arena, pr));
    assert(pr.first() == entry && pr.last() == d && pr.len() >= 1);
    assert(reachable(arena, entry, d));
}

/// The graph resolver's working state: one [`Mark`] per declared task.
pub struct TaskGraph {
    /// Resolution marks, indexed like the declaration arena.
    pub marks: Vec<Mark>,
}

impl TaskGraph {
    /// All marks of the given mark vector that are `Done` correspond,
    /// one to one, to the scheduler's registered tasks, and every
    /// registered task's dependency list resolves its declared
    /// dependency names, in order, to earlier registered tasks.
    pub open spec fn wf(&self, arena: Seq<Task>, sched: &Scheduler) -> bool {
        &&& self.marks@.len() == arena.len()
        &&& sched.wf()
        &&& sched.arena_ok(arena)
        &&& forall|k: int|
            0 <= k < arena.len() ==> ((#[trigger] self.marks@[k]) matches Mark::Done(id) ==> (
            id as int) < sched.registered@.len() && sched.registered@[id as int] == k)
        &&& forall|i: int|
            0 <= i < sched.registered@.len() ==> ((#[trigger] self.marks@[sched.registered@[i] as int]) matches Mark::Done(id)
                && id as int == i)
        &&& forall|i: int|
            0 <= i < sched.registered@.len() ==> (#[trigger] sched.deps@[i]@.len())
                == arena[sched.registered@[i] as int].deps@.len()
        &&& forall|i: int, j: int|
            0 <= i < sched.registered@.len() && 0 <= j < sched.deps@[i]@.len()
                ==> arena[sched.registered@[(#[trigger] sched.deps@[i]@[j]) as int] as int].name.item@
                == arena[sched.registered@[i] as int].deps@[j].item@
    }

    /// A fresh resolver: no task visited yet.
    pub open spec fn fresh(&self, arena: Seq<Task>) -> bool {
        &&& self.marks@.len() == arena.len()
        &&& forall|k: int| 0 <= k < arena.len() ==> (#[trigger] self.marks@[k]) is Unseen
    }

    /// Creates a resolver over a declared set of `n` tasks.
    pub fn new(n: usize) -> (g: TaskGraph)
        ensures
            g.marks@.len() == n,
            forall|k: int| 0 <= k < n ==> (#[trigger] g.marks@[k]) is Unseen,
    {
        let mut marks: Vec<Mark> = Vec::new();
        let mut k: usize = 0;
        while k < n
            invariant
                0 <= k <= n,
                marks@.len() == k,
                forall|x: int| 0 <= x < k ==> (#[trigger] marks@[x]) is Unseen,
            decreases n - k,
        {
            marks.push(Mark::Unseen);
            k += 1;
        }
        TaskGraph { marks }
    }
}

impl TaskGraph {
    /// The depth-first resolution step for the task at arena index `t`.
    /// `chain` is the walk's current ancestry: a dependency path from
    /// the entry task whose last element declares a dependency named
    /// like `t`. Tasks on the chain are exactly those marked in
    /// progress; a revisit of such a task closes a cycle.
    #[verifier::rlimit(100)]
    #[verifier::spinoff_prover]
    fn submit_impl(
        &mut self,
        arena: &Vec<Task>,
        t: usize,
        sched: &mut Scheduler,
        Ghost(entry): Ghost<int>,
        Ghost(chain): Ghost<Seq<int>>,
    ) -> (r: Result<TaskId, SubmitError>)
        requires
            old(self).wf(arena@, old(sched)),
            distinct_names(arena@),
            t < arena@.len(),
            0 <= entry < arena@.len(),
            is_path(arena@, chain),
            chain.len() >= 1 ==> chain.first() == entry && dep_edge(arena@, chain.last(), t as int),
            chain.len() == 0 ==> entry == t as int,
            forall|k: int|
                0 <= k < arena@.len() ==> (((#[trigger] old(self).marks@[k]) is InProgress)
                    <==> chain.contains(k)),
            forall|k: int|
                0 <= k < arena@.len() && !((#[trigger] old(self).marks@[k]) is Unseen)
                    ==> reachable(arena@, entry, k),
        ensures
            final(self).wf(arena@, final(sched)),
            final(self).marks@.len() == arena@.len(),
            old(sched).registered@.is_prefix_of(final(sched).registered@),
            final(sched).jobs == old(sched).jobs,
            count_unseen(final(self).marks@) <= count_unseen(old(self).marks@),
            forall|k: int|
                0 <= k < arena@.len() ==> ((#[trigger] old(self).marks@[k]) matches Mark::Done(id)
                    ==> final(self).marks@[k] == Mark::Done(id)),
            forall|k: int|
                0 <= k < arena@.len() && !((#[trigger] final(self).marks@[k]) is Unseen)
                    ==> reachable(arena@, entry, k),
            match r {
                Result::Ok(id) => {
                    &&& final(self).marks@[t as int] == Mark::Done(id.0)
                    &&& id.0 < final(sched).registered@.len()
                    &&& forall|k: int|
                        0 <= k < arena@.len() ==> (((#[trigger] final(self).marks@[k]) is InProgress)
                            <==> chain.contains(k))
                },
                Result::Err(e) => match e {
                    SubmitError::NotFound { name } => !declared(arena@, name.item@) && exists|
                        k: int,
                        j: int,
                    |
                        reachable(arena@, entry, k) && 0 <= k < arena@.len() && 0 <= j < arena@[k].deps@.len()
                            && arena@[k].deps@[j].item@ == name.item@,
                    SubmitError::Circular { .. } => cycle_reachable(arena@, entry),
                    SubmitError::FoundCircular => old(self).marks@[t as int] is InProgress,
                },
            },
        decreases count_unseen(self.marks@),
    {
        match self.marks[t] {
            Mark::Done(id) => {
                return Result::Ok(TaskId(id));
            },
            Mark::InProgress => {
                return Result::Err(SubmitError::FoundCircular);
            },
            Mark::Unseen => {},
        }
        // the task joins the walk's stack
        let ghost chain2 = chain.push(t as int);
        let ghost m0 = self.marks@;
        let _pm = self.marks.remove(t);
        self.marks.insert(t, Mark::InProgress);
        proof {
            assert(self.marks@ =~= m0.update(t as int, Mark::InProgress));
            lemma_unseen_update(m0, t as int, Mark::InProgress);
            assert(!(m0[t as int] is InProgress));
            assert(!chain.contains(t as int));
            assert forall|k: int|
                0 <= k < arena@.len() implies (((#[trigger] self.marks@[k]) is InProgress)
                    <==> chain2.contains(k)) by {
                if k == t as int {
                    assert(chain2[chain2.len() - 1] == t as int);
                    assert(chain2.contains(t as int));
                } else {
                    if chain.contains(k) {
                        let i = choose|i: int| 0 <= i < chain.len() && chain[i] == k;
                        assert(chain2[i] == k);
                        assert(chain2.contains(k));
                    }
                    if chain2.contains(k) {
                        let i = choose|i: int| 0 <= i < chain2.len() && chain2[i] == k;
                        assert(i < chain.len());
                        assert(chain.contains(k));
                    }
                }
            }
            assert(is_path(arena@, chain2)) by {
                assert forall|x: int|
                    0 <= x < chain2.len() - 1 implies dep_edge(
                    arena@,
                    #[trigger] chain2[x],
                    chain2[x + 1],
                ) by {
                    if x < chain2.len() - 2 {
                        assert(chain2[x] == chain[x]);
                        assert(chain2[x + 1] == chain[x + 1]);
                    } else {
                        assert(chain2[x] == chain.last());
                        assert(chain2[x + 1] == t as int);
                    }
                }
            }
            assert(chain2.first() == entry);
            assert(chain2.last() == t as int);
            assert(reachable(arena@, entry, t as int));
        }
        let nd = arena[t].deps.len();
        let mut dep_ids: Vec<TaskId> = Vec::new();
        let mut j: usize = 0;
        while j < nd
            invariant
                self.wf(arena@, sched),
                distinct_names(arena@),
                t < arena@.len(),
                0 <= entry < arena@.len(),
                nd == arena@[t as int].deps@.len(),
                0 <= j <= nd,
                is_path(arena@, chain2),
                chain2 == chain.push(t as int),
                chain2.first() == entry,
                chain2.last() == t as int,
                self.marks@.len() == arena@.len(),
                forall|k: int|
                    0 <= k < arena@.len() ==> (((#[trigger] self.marks@[k]) is InProgress)
                        <==> chain2.contains(k)),
                forall|k: int|
                    0 <= k < arena@.len() && !((#[trigger] self.marks@[k]) is Unseen)
                        ==> reachable(arena@, entry, k),
                forall|k: int|
                    0 <= k < arena@.len() ==> ((#[trigger] old(self).marks@[k]) matches Mark::Done(
                        id,
                    ) ==> self.marks@[k] == Mark::Done(id)),
                count_unseen(self.marks@) < count_unseen(old(self).marks@),
                old(sched).registered@.is_prefix_of(sched.registered@),
                sched.jobs == old(sched).jobs,
                dep_ids@.len() == j,
                forall|x: int|
                    0 <= x < j ==> (#[trigger] dep_ids@[x]).0 < sched.registered@.len(),
                forall|x: int|
                    0 <= x < j
                        ==> arena@[sched.registered@[(#[trigger] dep_ids@[x]).0 as int] as int].name.item@
                        == arena@[t as int].deps@[x].item@,
            decreases nd - j,
        {
            match find_task(arena, &arena[t].deps[j].item) {
                Option::None => {
                    // the declared dependency name matches no task
                    proof {
                        assert(!declared(arena@, arena@[t as int].deps@[j as int].item@));
                        assert(reachable(arena@, entry, t as int));
                    }
                    return Result::Err(
                        SubmitError::NotFound {
                            name: Spanned {
                                item: arena[t].deps[j].item.clone(),
                                span: arena[t].deps[j].span,
                            },
                        },
                    );
                },
                Option::Some(d) => {
                    proof {
                        assert(arena@[d as int].name.item@ == arena@[t as int].deps@[j as int].item@);
                        assert(dep_edge(arena@, t as int, d as int));
                    }
                    proof {
                        lemma_unseen_nonneg(self.marks@);
                        assert(count_unseen(self.marks@) < count_unseen(old(self).marks@));
                    }
                    let res = self.submit_impl(arena, d, sched, Ghost(entry), Ghost(chain2));
                    match res {
                        Result::Ok(did) => {
                            dep_ids.push(did);
                        },
                        Result::Err(e) => match e {
                            SubmitError::FoundCircular => {
                                // the dependency is on the walk's stack:
                                // this edge closes a cycle
                                proof {
                                    assert(chain2.contains(d as int));
                                    lemma_close_cycle(arena@, entry, chain2, d as int);
                                }
                                return Result::Err(
                                    SubmitError::Circular {
                                        parsing: Spanned {
                                            item: arena[d].name.item.clone(),
                                            span: arena[d].name.span,
                                        },
                                        dep: Spanned {
                                            item: arena[t].name.item.clone(),
                                            span: arena[t].name.span,
                                        },
                                    },
                                );
                            },
                            SubmitError::NotFound { name } => {
                                return Result::Err(SubmitError::NotFound { name });
                            },
                            SubmitError::Circular { parsing, dep } => {
                                return Result::Err(SubmitError::Circular { parsing, dep });
                            },
                        },
                    }
                },
            }
            j += 1;
        }
        let id = sched.add_task(t, &dep_ids);
        let ghost m1 = self.marks@;
        let ghost sched1 = *sched;
        let _pm2 = self.marks.remove(t);
        self.marks.insert(t, Mark::Done(id.0));
        proof {
            assert(self.marks@ =~= m1.update(t as int, Mark::Done(id.0)));
            lemma_unseen_update(m1, t as int, Mark::Done(id.0));
            assert forall|k: int|
                0 <= k < arena@.len() implies (((#[trigger] self.marks@[k]) is InProgress)
                    <==> chain.contains(k)) by {
                if k == t as int {
                    assert(!chain.contains(t as int));
                } else {
                    if chain.contains(k) {
                        let i = choose|i: int| 0 <= i < chain.len() && chain[i] == k;
                        assert(chain2[i] == k);
                        assert(chain2.contains(k));
                    }
                    if chain2.contains(k) {
                        let i = choose|i: int| 0 <= i < chain2.len() && chain2[i] == k;
                        assert(i < chain.len());
                        assert(chain.contains(k));
                    }
                }
            }
            assert(sched1.deps@[id.0 as int]@ == dep_ids@.map_values(|x: TaskId| x.0));
            assert forall|i: int, jj: int|
                0 <= i < sched.registered@.len() && 0 <= jj < sched.deps@[i]@.len() implies arena@[sched.registered@[(
            #[trigger] sched.deps@[i]@[jj]) as int] as int].name.item@
                == arena@[sched.registered@[i] as int].deps@[jj].item@ by {
                if i == id.0 as int {
                    assert(sched.deps@[i]@[jj] == dep_ids@[jj].0);
                }
            }
        }
        Result::Ok(id)
    }

    /// Resolves the requested entry task: walks its declared dependency
    /// names depth first, validates that every referenced name is
    /// declared, detects cycles, and registers each task of the entry's
    /// transitive closure with the scheduler exactly once, strictly
    /// after all of its dependencies (handles are assigned in
    /// registration order). On success the registered set is exactly the
    /// entry's closure: the entry is registered, every registered task's
    /// dependencies are registered (see [`TaskGraph::wf`]), and every
    /// registered task is reachable from the entry. On failure nothing
    /// further is registered and the error says why: an undeclared
    /// dependency name, or a dependency cycle reachable from the entry.
    pub fn submit(&mut self, arena: &Vec<Task>, entry: usize, sched: &mut Scheduler) -> (r:
        Result<TaskId, ResolveError>)
        requires
            old(self).fresh(arena@),
            old(sched).wf(),
            old(sched).registered@.len() == 0,
            distinct_names(arena@),
            entry < arena@.len(),
        ensures
            final(self).wf(arena@, final(sched)),
            final(sched).jobs == old(sched).jobs,
            forall|k: int|
                0 <= k < arena@.len() && !((#[trigger] final(self).marks@[k]) is Unseen)
                    ==> reachable(arena@, entry as int, k),
            match r {
                Result::Ok(id) => {
                    &&& final(self).marks@[entry as int] == Mark::Done(id.0)
                    &&& id.0 < final(sched).registered@.len()
                    &&& final(sched).registered@[id.0 as int] == entry
                    &&& forall|i: int|
                        0 <= i < final(sched).registered@.len() ==> reachable(
                            arena@,
                            entry as int,
                            #[trigger] final(sched).registered@[i] as int,
                        )
                },
                Result::Err(ResolveError::TaskNotFound { name }) => !declared(arena@, name.item@)
                    && exists|k: int, j: int|
                    reachable(arena@, entry as int, k) && 0 <= k < arena@.len() && 0 <= j
                        < arena@[k].deps@.len() && arena@[k].deps@[j].item@ == name.item@,
                Result::Err(ResolveError::CircularDependency { .. }) => cycle_reachable(
                    arena@,
                    entry as int,
                ),
            },
    {
        let r = self.submit_impl(
            arena,
            entry,
            sched,
            Ghost(entry as int),
            Ghost(Seq::<int>::empty()),
        );
        match r {
            Result::Ok(id) => {
                proof {
                    assert forall|i: int|
                        0 <= i < sched.registered@.len() implies reachable(
                        arena@,
                        entry as int,
                        #[trigger] sched.registered@[i] as int,
                    ) by {
                        assert(self.marks@[sched.registered@[i] as int] matches Mark::Done(x));
                    }
                }
                Result::Ok(id)
            },
            Result::Err(e) => match e {
                SubmitError::NotFound { name } => Result::Err(
                    ResolveError::TaskNotFound { name },
                ),
                SubmitError::Circular { parsing, dep } => Result::Err(
                    ResolveError::CircularDependency { parsing, dep },
                ),
                SubmitError::FoundCircular => {
                    // impossible: the entry task was unseen when the walk
                    // began, not in progress
                    proof {
                        assert(false);
                    }
                    Result::Err(
                        ResolveError::TaskNotFound {
                            name: Spanned {
                                item: arena[entry].name.item.clone(),
                                span: arena[entry].name.span,
                            },
                        },
                    )
                },
            },
        }
    }
}

} // verus!
