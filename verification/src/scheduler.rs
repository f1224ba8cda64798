//! Readiness tracking and dispatch over a validated build graph.
//!
//! The scheduler owns the completion state.  Nodes with no dependencies are
//! dispatched first; each reported completion enables exactly the consumers
//! whose last dependency it was.  The first failing task aborts the run:
//! nothing further is dispatched.

use vstd::prelude::*;
use crate::graph::{count_trues, BuildGraph};
use crate::graph::{
    lemma_count_not_full,
    lemma_count_trues_bound,
    lemma_count_trues_full,
    lemma_count_trues_update,
    lemma_min_undone,
};
use crate::task::BuildError;

verus! {

/// What the scheduler asks of its caller after ingesting one result.
pub enum SchedulerAction {
    /// Hand these newly ready nodes to the worker pool, in index order.
    Dispatch(Vec<usize>),
    /// Every node completed; the run succeeded.
    Finished,
    /// The reported task failed with this status; stop dispatching and drain.
    Abort(Option<i32>),
}

/// Per-run readiness state: which nodes completed, and how many.
pub struct Scheduler {
    pub done: Vec<bool>,
    pub count: usize,
}

impl Scheduler {
    /// The state talks about every node of `g`, and `count` counts the
    /// completed ones.
    pub open spec fn inv(self, g: BuildGraph) -> bool {
        &&& self.done@.len() == g.size()
        &&& self.count == count_trues(self.done@)
    }

    /// Start a run: nothing is completed, and exactly the nodes with no
    /// dependencies are dispatched, in index order.
    pub fn new(g: &BuildGraph) -> (r: (Scheduler, Vec<usize>))
        requires
            g.wf(),
        ensures
            r.0.inv(*g),
            r.0.count == 0,
            forall|v: int| 0 <= v < g.size() ==> !r.0.done@[v],
            forall|k1: int, k2: int| 0 <= k1 < k2 < r.1@.len() ==> r.1@[k1] < r.1@[k2],
            forall|k: int| 0 <= k < r.1@.len() ==> r.1@[k] < g.size(),
            forall|v: usize| v < g.size() ==> (r.1@.contains(v) <==> g.dep(v as int).len() == 0),
    {
        let n = g.node_count();
        let mut done: Vec<bool> = Vec::new();
        let mut f: usize = 0;
        while f < n
            invariant
                f <= n,
                done@.len() == f,
                forall|j: int| 0 <= j < f ==> !done@[j],
                count_trues(done@) == 0,
            decreases n - f,
        {
            let ghost prev = done@;
            done.push(false);
            proof {
                assert(done@.drop_last() =~= prev);
            }
            f = f + 1;
        }
        let mut initial: Vec<usize> = Vec::new();
        let mut i: usize = 0;
        while i < n
            invariant
                n == g.size(),
                g.wf(),
                i <= n,
                forall|k1: int, k2: int|
                    0 <= k1 < k2 < initial@.len() ==> initial@[k1] < initial@[k2],
                forall|k: int| 0 <= k < initial@.len() ==> initial@[k] < i,
                forall|v: usize| v < i ==> (initial@.contains(v) <==> g.dep(v as int).len() == 0),
            decreases n - i,
        {
            if self_deps_empty(g, i) {
                let ghost pre = initial@;
                initial.push(i);
                proof {
                    assert forall|v: usize| v < i + 1 implies (initial@.contains(v) <==> g.dep(
                        v as int,
                    ).len() == 0) by {
                        if v == i {
                            assert(initial@.last() == i);
                            assert(initial@.contains(v));
                        } else {
                            if initial@.contains(v) {
                                let k = choose|k: int|
                                    0 <= k < initial@.len() && initial@[k] == v;
                                assert(k < pre.len());
                                assert(pre.contains(v));
                            }
                            if pre.contains(v) {
                                let k = choose|k: int| 0 <= k < pre.len() && pre[k] == v;
                                assert(initial@[k] == v);
                                assert(initial@.contains(v));
                            }
                        }
                    }
                }
            } else {
                proof {
                    assert forall|v: usize| v < i + 1 implies (initial@.contains(v) <==> g.dep(
                        v as int,
                    ).len() == 0) by {
                        if v == i && initial@.contains(v) {
                            let k = choose|k: int| 0 <= k < initial@.len() && initial@[k] == v;
                            assert(false);
                        }
                    }
                }
            }
            i = i + 1;
        }
        (Scheduler { done, count: 0 }, initial)
    }

    /// Ingest the result of node `i`.
    ///
    /// A zero status completes the node and reports the consumers whose
    /// dependencies are now all completed — exactly the nodes this completion
    /// made ready.  A non-zero or absent status aborts the run with the state
    /// unchanged.
    pub fn on_result(&mut self, g: &BuildGraph, i: usize, status: Option<i32>) -> (act:
        SchedulerAction)
        requires
            old(self).inv(*g),
            g.wf(),
            i < g.size(),
            !old(self).done@[i as int],
            g.ready_spec(old(self).done@, i as int),
        ensures
            final(self).inv(*g),
            match act {
                SchedulerAction::Abort(st) => {
                    &&& st == status
                    &&& status != Some(0i32)
                    &&& *final(self) == *old(self)
                },
                SchedulerAction::Finished => {
                    &&& status == Some(0i32)
                    &&& final(self).done@ == old(self).done@.update(i as int, true)
                    &&& final(self).count == old(self).count + 1
                    &&& final(self).count == g.size()
                },
                SchedulerAction::Dispatch(newly) => {
                    &&& status == Some(0i32)
                    &&& final(self).done@ == old(self).done@.update(i as int, true)
                    &&& final(self).count == old(self).count + 1
                    &&& final(self).count < g.size()
                    &&& forall|k1: int, k2: int|
                        0 <= k1 < k2 < newly@.len() ==> newly@[k1] < newly@[k2]
                    &&& forall|k: int|
                        0 <= k < newly@.len() ==> newly@[k] < g.size()
                            && !final(self).done@[newly@[k] as int]
                            && g.dep(newly@[k] as int).contains(i)
                            && g.ready_spec(final(self).done@, newly@[k] as int)
                    &&& forall|v: usize|
                        v < g.size() && !final(self).done@[v as int]
                            && g.dep(v as int).contains(i)
                            && g.ready_spec(final(self).done@, v as int) ==> newly@.contains(v)
                },
            },
    {
        let ok = match status {
            Some(code) => code == 0,
            None => false,
        };
        if !ok {
            return SchedulerAction::Abort(status);
        }
        let n = g.node_count();
        proof {
            lemma_count_trues_bound(self.done@);
            if self.count == n {
                lemma_count_trues_full(self.done@);
                assert(false);
            }
            lemma_count_trues_update(self.done@, i as int);
        }
        let ghost old_done = self.done@;
        self.done.set(i, true);
        self.count = self.count + 1;
        proof {
            assert(self.done@ =~= old_done.update(i as int, true));
        }
        if self.count == n {
            return SchedulerAction::Finished;
        }
        let mut newly: Vec<usize> = Vec::new();
        let mut v: usize = 0;
        while v < n
            invariant
                n == g.size(),
                g.wf(),
                self.done@.len() == n,
                v <= n,
                forall|k1: int, k2: int| 0 <= k1 < k2 < newly@.len() ==> newly@[k1] < newly@[k2],
                forall|k: int|
                    0 <= k < newly@.len() ==> newly@[k] < v && !self.done@[newly@[k] as int]
                        && g.dep(newly@[k] as int).contains(i) && g.ready_spec(
                        self.done@,
                        newly@[k] as int,
                    ),
                forall|w: usize|
                    w < v && !self.done@[w as int] && g.dep(w as int).contains(i) && g.ready_spec(
                        self.done@,
                        w as int,
                    ) ==> newly@.contains(w),
            decreases n - v,
        {
            if !self.done[v] && depends_on(g, v, i) && g.is_ready(&self.done, v) {
                let ghost pre = newly@;
                newly.push(v);
                proof {
                    assert forall|w: usize|
                        w < v + 1 && !self.done@[w as int] && g.dep(w as int).contains(i)
                            && g.ready_spec(self.done@, w as int) implies newly@.contains(w) by {
                        if w == v {
                            assert(newly@.last() == v);
                            assert(newly@.contains(w));
                        } else {
                            assert(pre.contains(w));
                            let k = choose|k: int| 0 <= k < pre.len() && pre[k] == w;
                            assert(newly@[k] == w);
                            assert(newly@.contains(w));
                        }
                    }
                }
            } else {
                proof {
                    assert forall|w: usize|
                        w < v + 1 && !self.done@[w as int] && g.dep(w as int).contains(i)
                            && g.ready_spec(self.done@, w as int) implies newly@.contains(w) by {
                        if w < v {
                            assert(newly@.contains(w));
                        }
                    }
                }
            }
            v = v + 1;
        }
        SchedulerAction::Dispatch(newly)
    }
}

/// Node `v` occurs in `order` strictly before position `k`.
pub open spec fn appears_before(order: Seq<usize>, v: usize, k: int) -> bool {
    exists|m: int| 0 <= m < k && order[m] == v
}

/// What one whole run reports: `order` is the sequence of node visits and
/// `res` the run's outcome.
///
/// Every node is visited at most once, only after all its dependencies, and
/// the run returns `Some(0)` exactly when every task exited with zero; a
/// non-zero exit surfaces as the last visit, with everything before it
/// having succeeded.
pub open spec fn run_report(
    g: BuildGraph,
    codes: Seq<i32>,
    res: Option<i32>,
    order: Seq<usize>,
) -> bool {
    &&& order.len() <= g.size()
    &&& forall|k: int| 0 <= k < order.len() ==> order[k] < g.size()
    &&& forall|k1: int, k2: int|
        0 <= k1 < k2 < order.len() ==> #[trigger] order[k1] != #[trigger] order[k2]
    &&& forall|k: int, dk: int|
        #![trigger g.dep(order[k] as int)[dk]]
        0 <= k < order.len() && 0 <= dk < g.dep(order[k] as int).len() ==> appears_before(
            order,
            g.dep(order[k] as int)[dk],
            k,
        )
    &&& ((forall|v: int| 0 <= v < g.size() ==> codes[v] == 0) ==> res == Some(0i32))
    &&& (res == Some(0i32) ==> order.len() == g.size() && (forall|v: usize|
        v < g.size() ==> order.contains(v)) && (forall|v: int|
        0 <= v < g.size() ==> codes[v] == 0))
    &&& res is Some
    &&& (match res {
        Some(c) => c != 0 ==> order.len() >= 1 && codes[order.last() as int] == c && (forall|
            m: int,
        | 0 <= m < order.len() - 1 ==> codes[order[m] as int] == 0),
        None => true,
    })
}

/// Drive an acyclic graph to completion with one worker, reading each node's
/// exit status from `codes`: dispatched nodes are visited first come, first
/// served, and the first non-zero status aborts the run.
#[verifier::rlimit(100)]
pub fn execute_until_failed(g: &BuildGraph, codes: &Vec<i32>) -> (r: (Option<i32>, Vec<usize>))
    requires
        g.wf(),
        g.is_acyclic(),
        codes@.len() == g.size(),
    ensures
        run_report(*g, codes@, r.0, r.1@),
{
    let n = g.node_count();
    if n == 0 {
        return (Some(0), Vec::new());
    }
    let pair = Scheduler::new(g);
    let mut sched = pair.0;
    let mut queue = pair.1;
    let mut h: usize = 0;
    proof {
        assert forall|k: int|
            0 <= k < queue@.len() implies g.ready_spec(sched.done@, queue@[k] as int) by {
            assert(queue@.contains(queue@[k]));
            assert(g.dep(queue@[k] as int).len() == 0);
        }
        assert forall|v: usize|
            v < n && !sched.done@[v as int] && g.ready_spec(sched.done@, v as int) implies queue@.contains(
            v,
        ) by {
            if g.dep(v as int).len() > 0 {
                assert(!sched.done@[g.dep(v as int)[0] as int]);
                assert(!g.ready_spec(sched.done@, v as int));
            }
        }
    }
    while h < queue.len()
        invariant
            n == g.size(),
            n > 0,
            g.wf(),
            g.is_acyclic(),
            codes@.len() == n,
            sched.inv(*g),
            h <= queue@.len(),
            forall|k: int| 0 <= k < queue@.len() ==> queue@[k] < n,
            forall|k1: int, k2: int| 0 <= k1 < k2 < queue@.len() ==> queue@[k1] != queue@[k2],
            forall|v: int|
                0 <= v < n && sched.done@[v] ==> exists|m: int|
                    0 <= m < h && queue@[m] as int == v,
            forall|m: int| 0 <= m < h ==> sched.done@[queue@[m] as int],
            sched.count == h,
            sched.count < n,
            forall|m: int| 0 <= m < h ==> codes@[queue@[m] as int] == 0,
            forall|k: int| h <= k < queue@.len() ==> g.ready_spec(sched.done@, queue@[k] as int),
            forall|v: usize|
                v < n && !sched.done@[v as int] && g.ready_spec(sched.done@, v as int)
                    ==> queue@.contains(v),
            forall|k: int, dk: int|
                #![trigger g.dep(queue@[k] as int)[dk]]
                0 <= k < h && 0 <= dk < g.dep(queue@[k] as int).len() ==> appears_before(
                    queue@,
                    g.dep(queue@[k] as int)[dk],
                    k,
                ),
        decreases n - sched.count,
    {
        let i = queue[h];
        proof {
            assert(g.ready_spec(sched.done@, i as int));
            if sched.done@[i as int] {
                let m = choose|m: int| 0 <= m < h && queue@[m] as int == i as int;
                assert(queue@[m] != queue@[h as int] || m == h);
                assert(false);
            }
        }
        let ghost old_done = sched.done@;
        let act = sched.on_result(g, i, Some(codes[i]));
        match act {
            SchedulerAction::Abort(st) => {
                proof {
                    assert(codes@[i as int] != 0);
                }
                let ghost qs = queue@;
                let mut visited = queue;
                visited.truncate(h + 1);
                proof {
                    assert(visited@ =~= qs.subrange(0, h + 1));
                    assert(visited@.last() == i);
                    assert forall|k: int, dk: int|
                        #![trigger g.dep(visited@[k] as int)[dk]]
                        0 <= k < visited@.len() && 0 <= dk < g.dep(visited@[k] as int).len()
                        implies appears_before(visited@, g.dep(visited@[k] as int)[dk], k) by {
                        assert(visited@[k] == qs[k]);
                        let d = g.dep(qs[k] as int)[dk];
                        if k < h {
                            assert(0 <= dk < g.dep(qs[k] as int).len());
                            let m = choose|m: int| 0 <= m < k && qs[m] == d;
                            assert(visited@[m] == d);
                        } else {
                            assert(old_done[d as int]);
                            let m = choose|m: int| 0 <= m < h && qs[m] as int == d as int;
                            assert(visited@[m] == d);
                        }
                    }
                    if forall|v: int| 0 <= v < n ==> codes@[v] == 0 {
                        assert(codes@[i as int] == 0);
                        assert(false);
                    }
                    assert(run_report(*g, codes@, st, visited@));
                }
                return (st, visited);
            },
            SchedulerAction::Finished => {
                let ghost qs = queue@;
                let mut visited = queue;
                visited.truncate(h + 1);
                proof {
                    assert(visited@ =~= qs.subrange(0, h + 1));
                    assert(visited@.last() == i);
                    lemma_count_trues_full(sched.done@);
                    assert forall|v: usize| v < n implies visited@.contains(v) by {
                        assert(sched.done@[v as int]);
                        if v == i {
                            assert(visited@[h as int] == v);
                        } else {
                            assert(old_done[v as int]);
                            let m = choose|m: int| 0 <= m < h && qs[m] as int == v as int;
                            assert(visited@[m] == v);
                        }
                    }
                    assert forall|v: int| 0 <= v < n implies codes@[v] == 0 by {
                        assert(visited@.contains(v as usize));
                        let m = choose|m: int| 0 <= m < visited@.len() && visited@[m] == v as usize;
                        if m < h {
                            assert(codes@[qs[m] as int] == 0);
                        } else {
                            assert(visited@[m] == i);
                        }
                    }
                    assert forall|k: int, dk: int|
                        #![trigger g.dep(visited@[k] as int)[dk]]
                        0 <= k < visited@.len() && 0 <= dk < g.dep(visited@[k] as int).len()
                        implies appears_before(visited@, g.dep(visited@[k] as int)[dk], k) by {
                        assert(visited@[k] == qs[k]);
                        let d = g.dep(qs[k] as int)[dk];
                        if k < h {
                            assert(0 <= dk < g.dep(qs[k] as int).len());
                            let m = choose|m: int| 0 <= m < k && qs[m] == d;
                            assert(visited@[m] == d);
                        } else {
                            assert(old_done[d as int]);
                            let m = choose|m: int| 0 <= m < h && qs[m] as int == d as int;
                            assert(visited@[m] == d);
                        }
                    }
                    assert(run_report(*g, codes@, Some(0i32), visited@));
                }
                return (Some(0), visited);
            },
            SchedulerAction::Dispatch(mut newly) => {
                let ghost old_queue = queue@;
                let ghost fresh = newly@;
                queue.append(&mut newly);
                h = h + 1;
                proof {
                    let qs = queue@;
                    assert(qs =~= old_queue + fresh);
                    assert(qs.subrange(0, old_queue.len() as int) =~= old_queue);
                    assert forall|k1: int, k2: int|
                        0 <= k1 < k2 < qs.len() implies qs[k1] != qs[k2] by {
                        if k2 >= old_queue.len() {
                            let v = qs[k2];
                            assert(fresh.contains(v)) by {
                                assert(fresh[k2 - old_queue.len()] == v);
                            }
                            assert(!sched.done@[v as int]);
                            assert(g.dep(v as int).contains(i));
                            if k1 < old_queue.len() {
                                if qs[k1] == v {
                                    if k1 <= h - 1 {
                                        if k1 < h - 1 {
                                            assert(old_done[old_queue[k1] as int]);
                                            assert(sched.done@[v as int]);
                                        } else {
                                            assert(old_queue[k1] == i);
                                            assert(sched.done@[v as int]);
                                        }
                                        assert(false);
                                    } else {
                                        assert(g.ready_spec(old_done, v as int));
                                        let dk = choose|dk: int|
                                            0 <= dk < g.dep(v as int).len() && g.dep(v as int)[dk]
                                                == i;
                                        assert(old_done[i as int]);
                                        assert(false);
                                    }
                                }
                            }
                        }
                    }
                    assert forall|v: int|
                        0 <= v < n && sched.done@[v] implies exists|m: int|
                        0 <= m < h && qs[m] as int == v by {
                        if v == i as int {
                            assert(qs[h - 1] as int == v);
                        } else {
                            assert(old_done[v]);
                            let m = choose|m: int| 0 <= m < h - 1 && old_queue[m] as int == v;
                            assert(qs[m] as int == v);
                        }
                    }
                    assert forall|k: int|
                        h <= k < qs.len() implies g.ready_spec(sched.done@, qs[k] as int) by {
                        if k < old_queue.len() {
                            assert(g.ready_spec(old_done, qs[k] as int));
                            assert forall|dk: int|
                                0 <= dk < g.dep(qs[k] as int).len() implies sched.done@[g.dep(
                                qs[k] as int,
                            )[dk] as int] by {
                                assert(old_done[g.dep(qs[k] as int)[dk] as int]);
                            }
                        } else {
                            assert(fresh[k - old_queue.len()] == qs[k]);
                            assert(g.ready_spec(sched.done@, qs[k] as int));
                        }
                    }
                    assert forall|v: usize|
                        v < n && !sched.done@[v as int] && g.ready_spec(sched.done@, v as int)
                            implies qs.contains(v) by {
                        if g.ready_spec(old_done, v as int) {
                            assert(old_queue.contains(v));
                            let m = choose|m: int| 0 <= m < old_queue.len() && old_queue[m] == v;
                            assert(qs[m] == v);
                        } else {
                            let dk = choose|dk: int|
                                0 <= dk < g.dep(v as int).len() && !old_done[g.dep(
                                    v as int,
                                )[dk] as int];
                            assert(sched.done@[g.dep(v as int)[dk] as int]);
                            assert(g.dep(v as int)[dk] == i);
                            assert(g.dep(v as int).contains(i));
                            assert(fresh.contains(v));
                            let m = choose|m: int| 0 <= m < fresh.len() && fresh[m] == v;
                            assert(qs[old_queue.len() + m] == v);
                        }
                    }
                    assert forall|k: int, dk: int|
                        #![trigger g.dep(qs[k] as int)[dk]]
                        0 <= k < h && 0 <= dk < g.dep(qs[k] as int).len() implies appears_before(
                            qs,
                            g.dep(qs[k] as int)[dk],
                            k,
                        ) by {
                        let d = g.dep(qs[k] as int)[dk];
                        if k < h - 1 {
                            assert(qs[k] == old_queue[k]);
                            assert(g.dep(old_queue[k] as int)[dk] == d);
                            let m = choose|m: int| 0 <= m < k && old_queue[m] == d;
                            assert(qs[m] == d);
                        } else {
                            assert(qs[k] == i);
                            assert(old_done[d as int]);
                            let m = choose|m: int| 0 <= m < h - 1 && old_queue[m] as int
                                == d as int;
                            assert(qs[m] == d);
                        }
                    }
                }
            },
        }
    }
    proof {
        lemma_count_not_full(sched.done@, sched.count as int);
        let v0 = choose|v: int| 0 <= v < sched.done@.len() && !sched.done@[v];
        let crank = choose|r: Map<int, nat>| g.valid_rank(r);
        let m = lemma_min_undone(sched.done@, crank, v0);
        assert forall|dk: int| 0 <= dk < g.dep(m).len() implies sched.done@[g.dep(m)[dk] as int] by {
            let d = g.dep(m)[dk] as int;
            if !sched.done@[d] {
                assert(crank[d] < crank[m]);
                assert(crank[m] <= crank[d]);
            }
        }
        assert(g.ready_spec(sched.done@, m));
        assert(queue@.contains(m as usize));
        let k = choose|k: int| 0 <= k < queue@.len() && queue@[k] == m as usize;
        assert(sched.done@[queue@[k] as int]);
        assert(false);
    }
    vstd::pervasive::unreached()
}

/// Validate and run: the cycle check happens before anything is dispatched,
/// so a cyclic graph is refused with nothing visited.
pub fn execute_graph(g: &BuildGraph, codes: &Vec<i32>) -> (r: Result<
    (Option<i32>, Vec<usize>),
    BuildError,
>)
    requires
        g.wf(),
        codes@.len() == g.size(),
    ensures
        match r {
            Ok(run) => g.is_acyclic() && run_report(*g, codes@, run.0, run.1@),
            Err(e) => e == BuildError::GraphCycle && !g.is_acyclic(),
        },
{
    match g.validate() {
        Ok(_) => Ok(execute_until_failed(g, codes)),
        Err(_) => Err(BuildError::GraphCycle),
    }
}

/// Does node `v` of `g` have an empty dependency list?
fn self_deps_empty(g: &BuildGraph, v: usize) -> (r: bool)
    requires
        g.wf(),
        v < g.size(),
    ensures
        r == (g.dep(v as int).len() == 0),
{
    g.deps[v].len() == 0
}

/// Does node `v` of `g` depend on node `d`?
fn depends_on(g: &BuildGraph, v: usize, d: usize) -> (r: bool)
    requires
        g.wf(),
        v < g.size(),
    ensures
        r == g.dep(v as int).contains(d),
{
    let m = g.deps[v].len();
    let mut k: usize = 0;
    while k < m
        invariant
            g.wf(),
            v < g.size(),
            m == g.dep(v as int).len(),
            k <= m,
            forall|j: int| 0 <= j < k ==> g.dep(v as int)[j] != d,
        decreases m - k,
    {
        if g.deps[v][k] == d {
            proof {
                assert(g.dep(v as int).contains(d));
            }
            return true;
        }
        k = k + 1;
    }
    proof {
        if g.dep(v as int).contains(d) {
            let j = choose|j: int| 0 <= j < g.dep(v as int).len() && g.dep(v as int)[j] == d;
            assert(false);
        }
    }
    false
}

} // verus!
