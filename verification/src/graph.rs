//! The build graph: tasks as nodes, "u depends on v" edges, and cycle
//! detection.
//!
//! An edge `u -> v` means `v` must complete before `u` starts.  A graph is
//! acyclic exactly when some rank assignment places every dependency strictly
//! below its dependant; `validate` decides that question.

use vstd::prelude::*;
use crate::task::{BuildError, BuildTask};

verus! {

/// A directed dependency graph of build tasks.
///
/// `deps[i]` lists the nodes `i` depends on (its outgoing neighbours), each
/// listed once.
pub struct BuildGraph {
    pub tasks: Vec<BuildTask>,
    pub deps: Vec<Vec<usize>>,
}

impl BuildGraph {
    /// Number of nodes.
    pub open spec fn size(self) -> int {
        self.tasks@.len() as int
    }

    /// The dependency list of node `i`.
    pub open spec fn dep(self, i: int) -> Seq<usize> {
        self.deps@[i]@
    }

    /// Well-formed: one dependency list per task, every entry a node index,
    /// and no node listed twice in one list.
    pub open spec fn wf(self) -> bool {
        &&& self.deps@.len() == self.tasks@.len()
        &&& forall|i: int, k: int|
            0 <= i < self.size() && 0 <= k < self.dep(i).len() ==> self.dep(i)[k] < self.size()
        &&& forall|i: int, k1: int, k2: int|
            0 <= i < self.size() && 0 <= k1 < k2 < self.dep(i).len() ==> self.dep(i)[k1]
                != self.dep(i)[k2]
    }

    /// Node `v` is ready under completion state `done`: everything it
    /// depends on is completed.
    pub open spec fn ready_spec(self, done: Seq<bool>, v: int) -> bool {
        forall|k: int| 0 <= k < self.dep(v).len() ==> done[self.dep(v)[k] as int]
    }

    /// `rank` certifies acyclicity: every dependency ranks strictly below
    /// its dependant.
    pub open spec fn valid_rank(self, rank: Map<int, nat>) -> bool {
        forall|i: int, k: int|
            0 <= i < self.size() && 0 <= k < self.dep(i).len() ==> rank[self.dep(i)[k] as int]
                < rank[i]
    }

    /// The graph has no dependency cycle.
    pub open spec fn is_acyclic(self) -> bool {
        exists|rank: Map<int, nat>| self.valid_rank(rank)
    }

    /// Every dependency of a completed node is completed and ranked below it.
    pub open spec fn partial_rank_ok(self, done: Seq<bool>, rank: Map<int, nat>, v: int) -> bool {
        forall|k: int|
            0 <= k < self.dep(v).len() ==> done[self.dep(v)[k] as int] && rank[self.dep(
                v,
            )[k] as int] < rank[v]
    }

    pub fn new() -> (g: BuildGraph)
        ensures
            g.wf(),
            g.size() == 0,
    {
        BuildGraph { tasks: Vec::new(), deps: Vec::new() }
    }

    pub fn node_count(&self) -> (n: usize)
        ensures
            n == self.size(),
    {
        self.tasks.len()
    }

    /// Add a node carrying `task`, with no dependencies yet.
    pub fn add_task(&mut self, task: BuildTask) -> (i: usize)
        requires
            old(self).wf(),
        ensures
            final(self).wf(),
            i == old(self).size(),
            final(self).size() == old(self).size() + 1,
            final(self).tasks@ == old(self).tasks@.push(task),
            final(self).deps@.len() == old(self).deps@.len() + 1,
            forall|j: int| 0 <= j < old(self).size() ==> final(self).dep(j) == old(self).dep(j),
            final(self).dep(old(self).size()) == Seq::<usize>::empty(),
    {
        let ghost old_self = *self;
        let i = self.tasks.len();
        self.tasks.push(task);
        self.deps.push(Vec::new());
        proof {
            assert(self.deps@[old_self.size()]@ =~= Seq::<usize>::empty());
            assert(forall|j: int|
                0 <= j < old_self.size() ==> self.deps@[j] == old_self.deps@[j]);
            assert forall|a: int, k: int|
                0 <= a < self.size() && 0 <= k < self.dep(a).len() implies self.dep(a)[k]
                < self.size() by {
                if a < old_self.size() {
                    assert(self.dep(a) == old_self.dep(a));
                }
            }
            assert forall|a: int, k1: int, k2: int|
                0 <= a < self.size() && 0 <= k1 < k2 < self.dep(a).len() implies self.dep(a)[k1]
                != self.dep(a)[k2] by {
                if a < old_self.size() {
                    assert(self.dep(a) == old_self.dep(a));
                }
            }
        }
        i
    }

    /// Record that `u` depends on `v`.  Recording the same edge twice leaves
    /// the graph unchanged.
    pub fn add_dep(&mut self, u: usize, v: usize)
        requires
            old(self).wf(),
            u < old(self).size(),
            v < old(self).size(),
        ensures
            final(self).wf(),
            final(self).size() == old(self).size(),
            final(self).tasks@ == old(self).tasks@,
            forall|j: int|
                0 <= j < old(self).size() && j != u ==> final(self).dep(j) == old(self).dep(j),
            final(self).dep(u as int) == (if old(self).dep(u as int).contains(v) {
                old(self).dep(u as int)
            } else {
                old(self).dep(u as int).push(v)
            }),
    {
        let m = self.deps[u].len();
        let mut k: usize = 0;
        while k < m
            invariant
                *self == *old(self),
                self.wf(),
                u < self.deps@.len(),
                m == self.dep(u as int).len(),
                k <= m,
                forall|j: int| 0 <= j < k ==> self.dep(u as int)[j] != v,
            decreases m - k,
        {
            if self.deps[u][k] == v {
                proof {
                    assert(self.dep(u as int).contains(v));
                }
                return ;
            }
            k = k + 1;
        }
        proof {
            if self.dep(u as int).contains(v) {
                let j = choose|j: int|
                    0 <= j < self.dep(u as int).len() && self.dep(u as int)[j] == v;
                assert(false);
            }
        }
        let ghost old_self = *self;
        let list_mut = &mut self.deps[u];
        list_mut.push(v);
        proof {
            assert(self.tasks@ == old_self.tasks@);
            assert(self.deps@[u as int]@ == old_self.dep(u as int).push(v));
            assert forall|j: int|
                0 <= j < old_self.size() && j != u implies self.dep(j) == old_self.dep(j) by {
                assert(self.deps@[j] == old_self.deps@[j]);
            }
            assert forall|a: int, k2: int|
                0 <= a < self.size() && 0 <= k2 < self.dep(a).len() implies self.dep(a)[k2]
                < self.size() by {
                if a != u {
                    assert(self.dep(a) == old_self.dep(a));
                } else if k2 < old_self.dep(a).len() {
                    assert(self.dep(a)[k2] == old_self.dep(a)[k2]);
                } else {
                    assert(self.dep(a)[k2] == v);
                }
            }
            assert forall|a: int, k1: int, k2: int|
                0 <= a < self.size() && 0 <= k1 < k2 < self.dep(a).len() implies self.dep(a)[k1]
                != self.dep(a)[k2] by {
                if a != u {
                    assert(self.dep(a) == old_self.dep(a));
                } else {
                    if k2 < old_self.dep(a).len() {
                        assert(self.dep(a)[k1] == old_self.dep(a)[k1]);
                        assert(self.dep(a)[k2] == old_self.dep(a)[k2]);
                    } else {
                        assert(self.dep(a)[k2] == v);
                        assert(self.dep(a)[k1] == old_self.dep(a)[k1]);
                        assert(old_self.dep(a).contains(old_self.dep(a)[k1]));
                    }
                }
            }
        }
    }

    /// Does `v` wait on nothing uncompleted?
    pub fn is_ready(&self, done: &Vec<bool>, v: usize) -> (r: bool)
        requires
            self.wf(),
            done@.len() == self.size(),
            v < self.size(),
        ensures
            r == self.ready_spec(done@, v as int),
    {
        let m = self.deps[v].len();
        let mut k: usize = 0;
        while k < m
            invariant
                self.wf(),
                done@.len() == self.size(),
                v < self.size(),
                m == self.dep(v as int).len(),
                k <= m,
                forall|j: int| 0 <= j < k ==> done@[self.dep(v as int)[j] as int],
            decreases m - k,
        {
            if !done[self.deps[v][k]] {
                return false;
            }
            k = k + 1;
        }
        true
    }

    /// Decide acyclicity by a readiness sweep to a fixed point: Ok exactly
    /// when the dependency relation admits a complete execution order.
    #[verifier::rlimit(60)]
    pub fn validate(&self) -> (r: Result<(), BuildError>)
        requires
            self.wf(),
        ensures
            r is Ok <==> self.is_acyclic(),
            r is Err ==> r == Err::<(), BuildError>(BuildError::GraphCycle),
    {
        let n = self.tasks.len();
        if n == 0 {
            proof {
                let rank = Map::<int, nat>::empty();
                assert(self.valid_rank(rank));
            }
            return Ok(());
        }
        let mut done: Vec<bool> = Vec::new();
        let mut f: usize = 0;
        while f < n
            invariant
                f <= n,
                done@.len() == f,
                forall|j: int| 0 <= j < f ==> !done@[j],
                count_trues(done@) == 0,
            decreases n - f,
        {
            let ghost prev = done@;
            done.push(false);
            proof {
                assert(done@.drop_last() =~= prev);
            }
            f = f + 1;
        }
        let mut count: usize = 0;
        let ghost mut rank: Map<int, nat> = Map::empty();
        let ghost mut stamp: nat = 0;
        loop
            invariant
                n == self.size(),
                n > 0,
                self.wf(),
                done@.len() == n,
                count < n,
                count == count_trues(done@),
                forall|v: int|
                    0 <= v < n && done@[v] ==> #[trigger] rank[v] < stamp && self.partial_rank_ok(
                        done@,
                        rank,
                        v,
                    ),
            decreases n - count,
        {
            let ghost done_entry = done@;
            let ghost count_entry = count;
            let mut progressed = false;
            let mut i: usize = 0;
            while i < n
                invariant
                    n == self.size(),
                    n > 0,
                    self.wf(),
                    done@.len() == n,
                    i <= n,
                    count < n,
                    count == count_trues(done@),
                    forall|v: int|
                        0 <= v < n && done@[v] ==> #[trigger] rank[v] < stamp
                            && self.partial_rank_ok(done@, rank, v),
                    !progressed ==> done@ == done_entry && count == count_entry,
                    progressed ==> count > count_entry,
                    !progressed ==> forall|v: int|
                        0 <= v < i && !done@[v] ==> !self.ready_spec(done@, v),
                decreases n - i,
            {
                if !done[i] && self.is_ready(&done, i) {
                    let ghost old_done = done@;
                    let ghost old_rank = rank;
                    let ghost old_stamp = stamp;
                    proof {
                        lemma_count_trues_update(done@, i as int);
                        rank = rank.insert(i as int, stamp);
                        stamp = stamp + 1;
                    }
                    done.set(i, true);
                    count = count + 1;
                    progressed = true;
                    proof {
                        assert(done@ =~= old_done.update(i as int, true));
                        assert forall|v: int|
                            0 <= v < n && done@[v] implies #[trigger] rank[v] < stamp
                            && self.partial_rank_ok(done@, rank, v) by {
                            if v == i {
                                assert(self.ready_spec(old_done, i as int));
                                assert(rank[v] == old_stamp);
                                assert forall|k: int|
                                    0 <= k < self.dep(v).len() implies done@[self.dep(
                                    v,
                                )[k] as int] && rank[self.dep(v)[k] as int] < rank[v] by {
                                    let d = self.dep(v)[k] as int;
                                    assert(old_done[d]);
                                    assert(d != i);
                                    assert(rank[d] == old_rank[d]);
                                    assert(old_rank[d] < old_stamp);
                                }
                            } else {
                                assert(old_done[v]);
                                assert(old_rank[v] < old_stamp);
                                assert(rank[v] == old_rank[v]);
                                assert(self.partial_rank_ok(old_done, old_rank, v));
                                assert forall|k: int|
                                    0 <= k < self.dep(v).len() implies done@[self.dep(
                                    v,
                                )[k] as int] && rank[self.dep(v)[k] as int] < rank[v] by {
                                    let d = self.dep(v)[k] as int;
                                    assert(old_done[d]);
                                    assert(old_rank[d] < old_rank[v]);
                                    assert(d != i);
                                    assert(rank[d] == old_rank[d]);
                                }
                            }
                        }
                    }
                    if count == n {
                        proof {
                            lemma_count_trues_full(done@);
                            assert forall|a: int, k: int|
                                0 <= a < self.size() && 0 <= k < self.dep(a).len() implies rank[self.dep(
                                a,
                            )[k] as int] < rank[a] by {
                                assert(done@[a]);
                                assert(self.partial_rank_ok(done@, rank, a));
                            }
                            assert(self.valid_rank(rank));
                        }
                        return Ok(());
                    }
                    proof {
                        lemma_count_trues_bound(done@);
                        if count == n {
                            assert(false);
                        }
                        lemma_count_not_full(done@, count as int);
                    }
                }
                i = i + 1;
            }
            if !progressed {
                proof {
                    lemma_count_not_full(done@, count as int);
                    let v0 = choose|v: int| 0 <= v < done@.len() && !done@[v];
                    assert(0 <= v0 < n && !done@[v0]);
                    if self.is_acyclic() {
                        let crank = choose|r: Map<int, nat>| self.valid_rank(r);
                        let m = lemma_min_undone(done@, crank, v0);
                        assert(!self.ready_spec(done@, m));
                        let k = choose|k: int|
                            0 <= k < self.dep(m).len() && !done@[self.dep(m)[k] as int];
                        let d = self.dep(m)[k] as int;
                        assert(crank[d] < crank[m]);
                        assert(crank[m] <= crank[d]);
                        assert(false);
                    }
                }
                return Err(BuildError::GraphCycle);
            }
        }
    }
}

/// How many entries of `s` are true.
pub open spec fn count_trues(s: Seq<bool>) -> int
    decreases s.len(),
{
    if s.len() == 0 {
        0
    } else {
        count_trues(s.drop_last()) + (if s.last() {
            1int
        } else {
            0int
        })
    }
}

/// Setting one false entry true raises the count by one.
pub(crate) proof fn lemma_count_trues_update(s: Seq<bool>, i: int)
    requires
        0 <= i < s.len(),
        !s[i],
    ensures
        count_trues(s.update(i, true)) == count_trues(s) + 1,
    decreases s.len(),
{
    let t = s.update(i, true);
    if i == s.len() - 1 {
        assert(t.drop_last() =~= s.drop_last());
        assert(t.last());
    } else {
        assert(t.drop_last() =~= s.drop_last().update(i, true));
        lemma_count_trues_update(s.drop_last(), i);
        assert(t.last() == s.last());
    }
}

/// A count equal to the length means every entry is true.
pub(crate) proof fn lemma_count_trues_full(s: Seq<bool>)
    requires
        count_trues(s) == s.len(),
    ensures
        forall|j: int| 0 <= j < s.len() ==> s[j],
    decreases s.len(),
{
    lemma_count_trues_bound(s);
    if s.len() > 0 {
        lemma_count_trues_bound(s.drop_last());
        assert(s.last());
        lemma_count_trues_full(s.drop_last());
        assert forall|j: int| 0 <= j < s.len() implies s[j] by {
            if j < s.len() - 1 {
                assert(s.drop_last()[j]);
            }
        }
    }
}

/// The count never exceeds the length.
pub(crate) proof fn lemma_count_trues_bound(s: Seq<bool>)
    ensures
        0 <= count_trues(s) <= s.len(),
    decreases s.len(),
{
    if s.len() > 0 {
        lemma_count_trues_bound(s.drop_last());
    }
}

/// A count short of the length leaves some entry false.
pub(crate) proof fn lemma_count_not_full(s: Seq<bool>, c: int)
    requires
        count_trues(s) == c,
        c < s.len(),
    ensures
        exists|j: int| 0 <= j < s.len() && !s[j],
    decreases s.len(),
{
    if s.len() > 0 {
        if !s.last() {
            assert(0 <= s.len() - 1 < s.len() && !s[s.len() - 1]);
        } else {
            lemma_count_not_full(s.drop_last(), c - 1);
            let j = choose|j: int| 0 <= j < s.drop_last().len() && !s.drop_last()[j];
            assert(0 <= j < s.len() && !s[j]);
        }
    }
}

/// Among the uncompleted nodes there is one of minimal rank.
pub(crate) proof fn lemma_min_undone(done: Seq<bool>, rank: Map<int, nat>, v: int) -> (m: int)
    requires
        0 <= v < done.len(),
        !done[v],
    ensures
        0 <= m < done.len(),
        !done[m],
        forall|j: int| 0 <= j < done.len() && !done[j] ==> rank[m] <= rank[j],
    decreases rank[v],
{
    if exists|j: int| 0 <= j < done.len() && !done[j] && rank[j] < rank[v] {
        let j = choose|j: int| 0 <= j < done.len() && !done[j] && rank[j] < rank[v];
        lemma_min_undone(done, rank, j)
    } else {
        v
    }
}

} // verus!
