use vstd::prelude::*;

use crate::graph::{comes_before, views, CycleError, Graph};

verus! {

/// How many entries of `ds` name a rule that `done` does not mark.
pub open spec fn pending(ds: Seq<usize>, done: Seq<bool>) -> nat
    decreases ds.len(),
{
    if ds.len() == 0 {
        0
    } else {
        pending(ds.drop_last(), done) + if done[ds.last() as int] {
            0nat
        } else {
            1nat
        }
    }
}

/// How many entries of `s` are false.
pub open spec fn count_false(s: Seq<bool>) -> nat
    decreases s.len(),
{
    if s.len() == 0 {
        0
    } else {
        count_false(s.drop_last()) + if s.last() {
            0nat
        } else {
            1nat
        }
    }
}

pub(crate) proof fn lemma_count_false_set(s: Seq<bool>, i: int)
    requires
        0 <= i < s.len(),
        !s[i],
    ensures
        count_false(s.update(i, true)) + 1 == count_false(s),
    decreases s.len(),
{
    if i == s.len() - 1 {
        assert(s.update(i, true).drop_last() =~= s.drop_last());
    } else {
        assert(s.update(i, true).drop_last() =~= s.drop_last().update(i, true));
        lemma_count_false_set(s.drop_last(), i);
    }
}

proof fn lemma_pending_none_done(ds: Seq<usize>, done: Seq<bool>)
    requires
        forall|k: int| 0 <= k < ds.len() ==> !done[#[trigger] ds[k] as int],
    ensures
        pending(ds, done) == ds.len(),
    decreases ds.len(),
{
    if ds.len() > 0 {
        lemma_pending_none_done(ds.drop_last(), done);
    }
}

proof fn lemma_pending_zero(ds: Seq<usize>, done: Seq<bool>)
    ensures
        pending(ds, done) == 0 <==> forall|k: int| 0 <= k < ds.len() ==> done[#[trigger] ds[k] as int],
    decreases ds.len(),
{
    if ds.len() > 0 {
        lemma_pending_zero(ds.drop_last(), done);
        if pending(ds, done) == 0 {
            assert forall|k: int| 0 <= k < ds.len() implies done[#[trigger] ds[k] as int] by {
                if k < ds.len() - 1 {
                    assert(ds.drop_last()[k] == ds[k]);
                }
            }
        } else {
            if pending(ds.drop_last(), done) > 0 {
                let k = choose|k: int| 0 <= k < ds.len() - 1 && !done[ds.drop_last()[k] as int];
                assert(ds.drop_last()[k] == ds[k]);
            } else {
                assert(!done[ds[ds.len() - 1] as int]);
            }
        }
    }
}

proof fn lemma_pending_monotone(ds: Seq<usize>, a: Seq<bool>, b: Seq<bool>)
    requires
        forall|k: int| 0 <= k < ds.len() ==> a[#[trigger] ds[k] as int] ==> b[ds[k] as int],
    ensures
        pending(ds, b) <= pending(ds, a),
    decreases ds.len(),
{
    if ds.len() > 0 {
        lemma_pending_monotone(ds.drop_last(), a, b);
    }
}

proof fn lemma_pending_take_step(ds: Seq<usize>, done: Seq<bool>, j: int)
    requires
        0 <= j < ds.len(),
    ensures
        pending(ds.take(j + 1), done) == pending(ds.take(j), done) + if done[ds[j] as int] {
            0nat
        } else {
            1nat
        },
{
    assert(ds.take(j + 1).drop_last() =~= ds.take(j));
}

proof fn lemma_pending_take_bound(ds: Seq<usize>, done: Seq<bool>, j: int)
    requires
        0 <= j <= ds.len(),
    ensures
        pending(ds.take(j), done) <= pending(ds, done),
    decreases ds.len() - j,
{
    if j == ds.len() {
        assert(ds.take(j) =~= ds);
    } else {
        lemma_pending_take_bound(ds, done, j + 1);
        lemma_pending_take_step(ds, done, j);
    }
}

/// A graph that has a topological order has no cycle: the first target of
/// the order that lies in a stuck set would need a prerequisite before it.
pub proof fn lemma_topo_order_has_no_cycle(g: Graph, order: Seq<Seq<char>>)
    requires
        g.is_topo_order(order),
    ensures
        !g.has_cycle(),
{
    if g.has_cycle() {
        let s = choose|s: Set<Seq<char>>| g.is_stuck(s);
        let x = choose|x: Seq<char>| s.contains(x);
        assert(g.waits_on(x, s));
        assert(exists|i: int, j: int|
            0 <= i < g.len() && g.target(i) == x && 0 <= j < g.deps(i).len() && s.contains(
                #[trigger] g.deps(i)[j],
            )) by {
            reveal(Graph::waits_on);
        }
        let (i, j) = choose|i: int, j: int|
            0 <= i < g.len() && g.target(i) == x && 0 <= j < g.deps(i).len() && s.contains(
                #[trigger] g.deps(i)[j],
            );
        assert(order.contains(g.target(i)));
        let p = choose|p: int| 0 <= p < order.len() && order[p] == g.target(i);
        lemma_no_stuck_prefix(g, order, s, p);
    }
}

proof fn lemma_no_stuck_prefix(g: Graph, order: Seq<Seq<char>>, s: Set<Seq<char>>, p: int)
    requires
        g.is_topo_order(order),
        g.is_stuck(s),
        0 <= p < order.len(),
    ensures
        !s.contains(order[p]),
    decreases p,
{
    if s.contains(order[p]) {
        assert(g.waits_on(order[p], s));
        assert(exists|i: int, j: int|
            0 <= i < g.len() && g.target(i) == order[p] && 0 <= j < g.deps(i).len()
                && s.contains(#[trigger] g.deps(i)[j])) by {
            reveal(Graph::waits_on);
        }
        let (i, j) = choose|i: int, j: int|
            0 <= i < g.len() && g.target(i) == order[p] && 0 <= j < g.deps(i).len()
                && s.contains(#[trigger] g.deps(i)[j]);
        assert(comes_before(order, g.deps(i)[j], g.target(i)));
        let (q, pp) = choose|q: int, pp: int|
            0 <= q < pp < order.len() && order[q] == g.deps(i)[j] && order[pp] == g.target(i);
        assert(pp == p) by {
            if pp != p {
                assert(order[pp] == order[p]);
            }
        }
        lemma_no_stuck_prefix(g, order, s, q);
    }
}

proof fn lemma_buildable_mono(g: Graph, x: Seq<char>, s: nat, s2: nat)
    requires
        g.buildable(x, s),
        s <= s2,
    ensures
        g.buildable(x, s2),
    decreases s,
{
    let i = choose|i: int|
        0 <= i < g.len() && g.target(i) == x && forall|j: int|
            0 <= j < g.deps(i).len() ==> g.buildable(#[trigger] g.deps(i)[j], (s - 1) as nat);
    assert forall|j: int| 0 <= j < g.deps(i).len() implies g.buildable(#[trigger] g.deps(i)[j], (s2 - 1) as nat) by {
        lemma_buildable_mono(g, g.deps(i)[j], (s - 1) as nat, (s2 - 1) as nat);
    }
}

/// Each rule that Kahn's algorithm emits at position `k` is buildable in
/// `k + 1` levels.
proof fn lemma_emitted_buildable(g: Graph, d: Seq<Vec<usize>>, res: Seq<usize>, k: int)
    requires
        d.len() == g.len(),
        forall|i: int| 0 <= i < g.len() ==> g.row_resolves(i, (#[trigger] d[i])@),
        forall|m: int| 0 <= m < res.len() ==> #[trigger] res[m] < g.len(),
        forall|m: int, j: int|
            0 <= m < res.len() && 0 <= j < d[res[m] as int]@.len() ==> #[trigger] earlier(
                res,
                m,
                d[res[m] as int]@[j],
            ),
        0 <= k < res.len(),
    ensures
        g.buildable(g.target(res[k] as int), (k + 1) as nat),
    decreases k,
{
    let i = res[k] as int;
    assert(g.row_resolves(i, d[i]@));
    assert forall|j: int| 0 <= j < g.deps(i).len() implies g.buildable(#[trigger] g.deps(i)[j], k as nat) by {
        assert(earlier(res, k, d[res[k] as int]@[j]));
        let m = choose|m: int| 0 <= m < k && res[m] == d[res[k] as int]@[j];
        lemma_emitted_buildable(g, d, res, m);
        lemma_buildable_mono(g, g.target(res[m] as int), (m + 1) as nat, k as nat);
    }
}

/// A rule that Kahn's algorithm does not emit is buildable in no number
/// of levels.
proof fn lemma_unemitted_not_buildable(g: Graph, d: Seq<Vec<usize>>, done: Seq<bool>, s: nat)
    requires
        g.wf(),
        d.len() == g.len(),
        done.len() == g.len(),
        forall|i: int| 0 <= i < g.len() ==> g.row_resolves(i, (#[trigger] d[i])@),
        forall|t: int| 0 <= t < g.len() && !#[trigger] done[t] ==> pending(d[t]@, done) > 0,
    ensures
        forall|u: int| 0 <= u < g.len() && g.buildable(#[trigger] g.target(u), s) ==> done[u],
    decreases s,
{
    assert forall|u: int| 0 <= u < g.len() && g.buildable(#[trigger] g.target(u), s) implies done[u] by {
        let i = choose|i: int|
            0 <= i < g.len() && g.target(i) == g.target(u) && forall|j: int|
                0 <= j < g.deps(i).len() ==> g.buildable(#[trigger] g.deps(i)[j], (s - 1) as nat);
        assert(i == u) by {
            if i != u {
                assert(g.target(i) != g.target(u));
            }
        }
        lemma_unemitted_not_buildable(g, d, done, (s - 1) as nat);
        assert(g.row_resolves(u, d[u]@));
        assert forall|j: int| 0 <= j < d[u]@.len() implies done[#[trigger] d[u]@[j] as int] by {
            let w = d[u]@[j] as int;
            assert(g.target(w) == g.deps(u)[j]);
            assert(g.buildable(g.deps(u)[j], (s - 1) as nat));
        }
        lemma_pending_zero(d[u]@, done);
    }
}

/// `x` stands in `res` before position `k`.
pub open spec fn earlier(res: Seq<usize>, k: int, x: usize) -> bool {
    exists|m: int| 0 <= m < k && res[m] == x
}

impl Graph {
    /// For each rule, the positions of its prerequisites; the first
    /// prerequisite, in rule order, that names no rule is an error.
    pub fn resolve(&self) -> (r: Result<Vec<Vec<usize>>, CycleError>)
        ensures
            r matches Ok(d) ==> self.all_resolved() && d@.len() == self.len() && forall|i: int|
                0 <= i < self.len() ==> self.row_resolves(i, (#[trigger] d@[i])@),
            r matches Err(e) ==> !self.all_resolved() && (e matches CycleError::MissingTarget {
                target,
            } && !self.defines(target@) && exists|i: int, j: int|
                0 <= i < self.len() && 0 <= j < self.deps(i).len() && self.deps(i)[j]
                    == target@),
    {
        let mut d: Vec<Vec<usize>> = Vec::new();
        let mut i: usize = 0;
        while i < self.nodes.len()
            invariant
                i <= self.len(),
                d@.len() == i,
                forall|a: int| 0 <= a < i ==> self.row_resolves(a, (#[trigger] d@[a])@),
            decreases self.len() - i,
        {
            let deps = &self.nodes[i].dependencies;
            let mut row: Vec<usize> = Vec::new();
            let mut j: usize = 0;
            while j < deps.len()
                invariant
                    i < self.len(),
                    deps == &self.nodes@[i as int].dependencies,
                    self.deps(i as int).len() == deps@.len(),
                    forall|b: int|
                        0 <= b < deps@.len() ==> #[trigger] self.deps(i as int)[b] == deps@[b]@,
                    j <= deps@.len(),
                    row@.len() == j,
                    forall|b: int|
                        0 <= b < j ==> row@[b] < self.len() && self.target(#[trigger] row@[b] as int)
                            == self.deps(i as int)[b],
                decreases deps@.len() - j,
            {
                match self.find(&deps[j]) {
                    Some(k) => {
                        row.push(k);
                        assert(self.deps(i as int)[j as int] == deps@[j as int]@);
                    },
                    None => {
                        proof {
                            assert(self.deps(i as int)[j as int] == deps@[j as int]@);
                        }
                        return Err(CycleError::MissingTarget { target: deps[j].clone() });
                    },
                }
                j = j + 1;
            }
            d.push(row);
            i = i + 1;
        }
        proof {
            assert forall|a: int, j: int|
                0 <= a < self.len() && 0 <= j < self.deps(a).len() implies self.defines(
                #[trigger] self.deps(a)[j],
            ) by {
                assert(self.row_resolves(a, d@[a]@));
                assert(self.target(d@[a]@[j] as int) == self.deps(a)[j]);
            }
        }
        Ok(d)
    }

    /// `x` is the target of a rule before position `t` that `done` does not
    /// mark.
    pub open spec fn undone_target(&self, x: Seq<char>, t: int, done: Seq<bool>) -> bool {
        exists|u: int| 0 <= u < t && !done[u] && x == #[trigger] self.target(u)
    }

    /// Whether no build order exists: a prerequisite names no rule, or the
    /// rules depend on each other in a cycle.
    pub fn detect_cycles(&self) -> (r: bool)
        requires
            self.wf(),
        ensures
            r == !(self.all_resolved() && !self.has_cycle()),
    {
        match self.kahns() {
            Ok(_) => false,
            Err(_) => true,
        }
    }

    /// The target names in an order that puts every prerequisite before
    /// the rules that need it.
    pub fn topo_sort(&self) -> (r: Result<Vec<String>, CycleError>)
        requires
            self.wf(),
        ensures
            r.is_ok() <==> self.all_resolved() && !self.has_cycle(),
            r matches Ok(order) ==> self.is_topo_order(views(order@)),
            r matches Err(CycleError::MissingTarget { target }) ==> !self.all_resolved()
                && !self.defines(target@) && exists|i: int, j: int|
                0 <= i < self.len() && 0 <= j < self.deps(i).len() && self.deps(i)[j] == target@,
            r matches Err(CycleError::CircularDependency { cycle }) ==> self.all_resolved()
                && self.is_stuck(views(cycle@).to_set()) && views(cycle@).no_duplicates() && (forall|k: int|
                0 <= k < cycle@.len() ==> self.defines(#[trigger] views(cycle@)[k])) && (forall|i: int|
                0 <= i < self.len() ==> (views(cycle@).contains(#[trigger] self.target(i))
                    <==> !self.is_buildable(self.target(i)))),
            !(r matches Err(CycleError::DuplicateTarget { .. })),
    {
        self.kahns()
    }

    fn kahns(&self) -> (r: Result<Vec<String>, CycleError>)
        requires
            self.wf(),
        ensures
            r.is_ok() <==> self.all_resolved() && !self.has_cycle(),
            r matches Ok(order) ==> self.is_topo_order(views(order@)),
            r matches Err(CycleError::MissingTarget { target }) ==> !self.all_resolved()
                && !self.defines(target@) && exists|i: int, j: int|
                0 <= i < self.len() && 0 <= j < self.deps(i).len() && self.deps(i)[j] == target@,
            r matches Err(CycleError::CircularDependency { cycle }) ==> self.all_resolved()
                && self.is_stuck(views(cycle@).to_set()) && views(cycle@).no_duplicates() && (forall|k: int|
                0 <= k < cycle@.len() ==> self.defines(#[trigger] views(cycle@)[k])) && (forall|i: int|
                0 <= i < self.len() ==> (views(cycle@).contains(#[trigger] self.target(i))
                    <==> !self.is_buildable(self.target(i)))),
            !(r matches Err(CycleError::DuplicateTarget { .. })),
    {
        let d = match self.resolve() {
            Ok(d) => d,
            Err(e) => {
                return Err(e);
            },
        };
        let n = self.nodes.len();
        let (res, done) = self.kahn_positions(&d);
        let mut all_done = true;
        let mut t: usize = 0;
        while t < n
            invariant
                n == self.len(),
                done@.len() == n,
                t <= n,
                all_done == forall|u: int| 0 <= u < t ==> #[trigger] done@[u],
            decreases n - t,
        {
            if !done[t] {
                all_done = false;
            }
            t = t + 1;
        }
        if all_done {
            let mut order: Vec<String> = Vec::new();
            let mut k: usize = 0;
            while k < res.len()
                invariant
                    n == self.len(),
                    k <= res@.len(),
                    order@.len() == k,
                    forall|m: int| 0 <= m < res@.len() ==> #[trigger] res@[m] < n,
                    forall|m: int| 0 <= m < k ==> #[trigger] order@[m]@ == self.target(res@[m] as int),
                decreases res@.len() - k,
            {
                order.push(self.nodes[res[k]].target.clone());
                k = k + 1;
            }
            proof {
                let o = views(order@);
                assert forall|a: int, b: int| 0 <= a < o.len() && 0 <= b < o.len() && a != b implies o[a] != o[b] by {
                    assert(o[a] == self.target(res@[a] as int));
                    assert(o[b] == self.target(res@[b] as int));
                    assert(res@[a] != res@[b]);
                }
                assert forall|k: int| 0 <= k < o.len() implies self.defines(#[trigger] o[k]) by {
                    assert(o[k] == self.target(res@[k] as int));
                }
                assert forall|i: int| 0 <= i < self.len() implies o.contains(#[trigger] self.target(i)) by {
                    assert(done@[i]);
                    let m = choose|m: int| 0 <= m < res@.len() && res@[m] == i as usize;
                    assert(o[m] == self.target(i));
                }
                assert forall|i: int, j: int|
                    0 <= i < self.len() && 0 <= j < self.deps(i).len() implies comes_before(
                    o,
                    #[trigger] self.deps(i)[j],
                    self.target(i),
                ) by {
                    assert(done@[i]);
                    let p = choose|p: int| 0 <= p < res@.len() && res@[p] == i as usize;
                    assert(self.row_resolves(i, d@[i]@));
                    assert(earlier(res@, p, d@[res@[p] as int]@[j]));
                    let q = choose|q: int| 0 <= q < p && res@[q] == d@[res@[p] as int]@[j];
                    assert(o[q] == self.target(res@[q] as int));
                    assert(o[p] == self.target(i));
                }
                lemma_topo_order_has_no_cycle(*self, o);
            }
            Ok(order)
        } else {
            let mut cycle: Vec<String> = Vec::new();
            let mut t: usize = 0;
            while t < n
                invariant
                    n == self.len(),
                    done@.len() == n,
                    t <= n,
                    forall|m: int| 0 <= m < cycle@.len() ==> self.undone_target(#[trigger] cycle@[m]@, t as int, done@),
                    views(cycle@).no_duplicates(),
                    self.wf(),
                    forall|u: int| 0 <= u < t && !done@[u] ==> views(cycle@).contains(#[trigger] self.target(u)),
                decreases n - t,
            {
                if !done[t] {
                    let ghost c0 = cycle@;
                    cycle.push(self.nodes[t].target.clone());
                    proof {
                        assert forall|a: int, b: int|
                            0 <= a < cycle@.len() && 0 <= b < cycle@.len() && a != b implies views(cycle@)[a]
                            != views(cycle@)[b] by {
                            if a < c0.len() && b < c0.len() {
                                assert(views(c0)[a] != views(c0)[b]);
                            } else {
                                let o = if a < c0.len() { a } else { b };
                                assert(o < c0.len());
                                assert(self.undone_target(c0[o]@, t as int, done@));
                                let u = choose|u: int| 0 <= u < t && !done@[u] && c0[o]@ == #[trigger] self.target(u);
                                assert(self.target(u) != self.target(t as int));
                                assert(views(cycle@)[o] == c0[o]@);
                                assert(views(cycle@)[c0.len() as int] == self.target(t as int));
                            }
                        }
                        assert forall|m: int| 0 <= m < cycle@.len() implies self.undone_target(#[trigger] cycle@[m]@, t + 1, done@) by {
                            if m < c0.len() {
                                assert(cycle@[m] == c0[m]);
                                assert(self.undone_target(c0[m]@, t as int, done@));
                                let u = choose|u: int| 0 <= u < t && !done@[u] && c0[m]@ == #[trigger] self.target(u);
                                assert(0 <= u < t + 1 && !done@[u] && cycle@[m]@ == self.target(u));
                            } else {
                                assert(cycle@[m]@ == self.target(t as int));
                            }
                        }
                        assert forall|u: int| 0 <= u < t + 1 && !done@[u] implies views(cycle@).contains(#[trigger] self.target(u)) by {
                            if u < t {
                                let m = choose|m: int| 0 <= m < views(c0).len() && views(c0)[m] == self.target(u);
                                assert(views(cycle@)[m] == self.target(u));
                            } else {
                                assert(views(cycle@)[c0.len() as int] == self.target(u));
                            }
                        }
                    }
                }
                t = t + 1;
            }
            proof {
                let s = views(cycle@).to_set();
                let u0 = choose|u: int| 0 <= u < n && !done@[u];
                assert(s.contains(self.target(u0)));
                assert forall|x: Seq<char>| #[trigger] s.contains(x) implies self.waits_on(x, s) by {
                    let m = choose|m: int| 0 <= m < views(cycle@).len() && views(cycle@)[m] == x;
                    assert(cycle@[m]@ == x);
                    assert(self.undone_target(cycle@[m]@, n as int, done@));
                    let u = choose|u: int| 0 <= u < n && !done@[u] && cycle@[m]@ == #[trigger] self.target(u);
                    assert(pending(d@[u]@, done@) > 0);
                    lemma_pending_zero(d@[u]@, done@);
                    let j = choose|j: int| 0 <= j < d@[u]@.len() && !done@[d@[u]@[j] as int];
                    assert(self.row_resolves(u, d@[u]@));
                    let w = d@[u]@[j] as int;
                    assert(s.contains(self.target(w)));
                    assert(self.deps(u)[j] == self.target(w));
                    reveal(Graph::waits_on);
                }
                assert(self.is_stuck(s));
                let cv = views(cycle@);
                assert forall|k: int| 0 <= k < cycle@.len() implies self.defines(#[trigger] cv[k]) by {
                    assert(self.undone_target(cycle@[k]@, n as int, done@));
                    let u = choose|u: int| 0 <= u < n && !done@[u] && cycle@[k]@ == #[trigger] self.target(u);
                }
                assert forall|i: int| 0 <= i < self.len() implies (cv.contains(#[trigger] self.target(i))
                    <==> !self.is_buildable(self.target(i))) by {
                    if done@[i] {
                        let k = choose|k: int| 0 <= k < res@.len() && res@[k] == i as usize;
                        lemma_emitted_buildable(*self, d@, res@, k);
                        if cv.contains(self.target(i)) {
                            let m = choose|m: int| 0 <= m < cv.len() && cv[m] == self.target(i);
                            assert(self.undone_target(cycle@[m]@, n as int, done@));
                            let u = choose|u: int| 0 <= u < n && !done@[u] && cycle@[m]@ == #[trigger] self.target(u);
                            assert(u != i);
                        }
                    } else {
                        assert(cv.contains(self.target(i)));
                        if self.is_buildable(self.target(i)) {
                            let st = choose|st: nat| self.buildable(self.target(i), st);
                            lemma_unemitted_not_buildable(*self, d@, done@, st);
                        }
                    }
                }
            }
            Err(CycleError::CircularDependency { cycle })
        }
    }

    /// Kahn's algorithm on the resolved graph `d`: rule positions in an
    /// order that puts each prerequisite first, or the positions of the
    /// rules that could not be emitted.
    fn kahn_positions(&self, d: &Vec<Vec<usize>>) -> (r: (Vec<usize>, Vec<bool>))
        requires
            d@.len() == self.len(),
            forall|i: int| 0 <= i < self.len() ==> self.row_resolves(i, (#[trigger] d@[i])@),
        ensures
            r.1@.len() == self.len(),
            r.0@.no_duplicates(),
            forall|k: int| 0 <= k < r.0@.len() ==> #[trigger] r.0@[k] < self.len() && r.1@[r.0@[k] as int],
            forall|t: int| 0 <= t < self.len() && #[trigger] r.1@[t] ==> r.0@.contains(t as usize),
            forall|k: int, j: int|
                0 <= k < r.0@.len() && 0 <= j < d@[r.0@[k] as int]@.len() ==> #[trigger] earlier(
                    r.0@,
                    k,
                    d@[r.0@[k] as int]@[j],
                ),
            forall|t: int|
                0 <= t < self.len() && !#[trigger] r.1@[t] ==> pending(d@[t]@, r.1@) > 0,
    {
        let n = self.nodes.len();
        let mut in_deg: Vec<usize> = Vec::new();
        let mut done: Vec<bool> = Vec::new();
        let mut i: usize = 0;
        while i < n
            invariant
                n == self.len(),
                d@.len() == n,
                i <= n,
                in_deg@.len() == i,
                done@.len() == i,
                forall|k: int| 0 <= k < i ==> #[trigger] in_deg@[k] == d@[k]@.len(),
                forall|k: int| 0 <= k < i ==> !#[trigger] done@[k],
            decreases n - i,
        {
            in_deg.push(d[i].len());
            done.push(false);
            i = i + 1;
        }
        proof {
            assert forall|t: int| 0 <= t < n implies #[trigger] in_deg@[t] == pending(
                d@[t]@,
                done@,
            ) by {
                assert(self.row_resolves(t, d@[t]@));
                lemma_pending_none_done(d@[t]@, done@);
            }
        }
        let mut queue: Vec<usize> = Vec::new();
        i = 0;
        while i < n
            invariant
                n == self.len(),
                i <= n,
                in_deg@.len() == n,
                done@.len() == n,
                forall|a: int, b: int| 0 <= a < b < queue@.len() ==> queue@[a] < queue@[b],
                forall|a: int| 0 <= a < queue@.len() ==> #[trigger] queue@[a] < i && in_deg@[queue@[a] as int] == 0,
                forall|t: int| 0 <= t < i && in_deg@[t] == 0 ==> queue@.contains(t as usize),
            decreases n - i,
        {
            let ghost q0 = queue@;
            if in_deg[i] == 0 {
                queue.push(i);
                assert(queue@[queue@.len() - 1] == i);
            }
            proof {
                assert forall|t: int| 0 <= t < i + 1 && in_deg@[t] == 0 implies queue@.contains(
                    t as usize,
                ) by {
                    if t < i {
                        let a = choose|a: int| 0 <= a < q0.len() && q0[a] == t as usize;
                        assert(queue@[a] == t as usize);
                    } else {
                        assert(queue@[queue@.len() - 1] == i);
                    }
                }
            }
            i = i + 1;
        }
        let mut res: Vec<usize> = Vec::new();
        while queue.len() > 0
            invariant
                n == self.len(),
                d@.len() == n,
                forall|i: int| 0 <= i < n ==> self.row_resolves(i, (#[trigger] d@[i])@),
                in_deg@.len() == n,
                done@.len() == n,
                forall|t: int| 0 <= t < n ==> #[trigger] in_deg@[t] == pending(d@[t]@, done@),
                queue@.no_duplicates(),
                forall|a: int| 0 <= a < queue@.len() ==> #[trigger] queue@[a] < n && !done@[queue@[a] as int] && in_deg@[queue@[a] as int] == 0,
                forall|t: int| 0 <= t < n && !done@[t] && in_deg@[t] == 0 ==> queue@.contains(t as usize),
                res@.no_duplicates(),
                forall|k: int| 0 <= k < res@.len() ==> #[trigger] res@[k] < n && done@[res@[k] as int],
                forall|t: int| 0 <= t < n && #[trigger] done@[t] ==> res@.contains(t as usize),
                forall|k: int, j: int|
                    0 <= k < res@.len() && 0 <= j < d@[res@[k] as int]@.len() ==> #[trigger] earlier(
                        res@,
                        k,
                        d@[res@[k] as int]@[j],
                    ),
            decreases count_false(done@),
        {
            let ghost qpre = queue@;
            let cur = queue.pop().unwrap();
            let ghost done_old = done@;
            let ghost res_old = res@;
            let ghost queue_old = queue@;
            proof {
                lemma_pending_zero(d@[cur as int]@, done_old);
                lemma_count_false_set(done_old, cur as int);
                assert(qpre =~= queue_old.push(cur));
                assert forall|u: int| 0 <= u < n && done_old[u] implies pending(
                    #[trigger] d@[u]@,
                    done_old,
                ) == 0 by {
                    let k = choose|k: int| 0 <= k < res_old.len() && res_old[k] == u as usize;
                    assert forall|j: int| 0 <= j < d@[u]@.len() implies done_old[#[trigger] d@[u]@[j] as int] by {
                        assert(earlier(res_old, k, d@[res_old[k] as int]@[j]));
                        let m = choose|m: int| 0 <= m < k && res_old[m] == d@[res_old[k] as int]@[j];
                    }
                    lemma_pending_zero(d@[u]@, done_old);
                }
                assert forall|u: int| 0 <= u < n && u != cur && qpre.contains(u as usize) implies #[trigger] queue_old.contains(u as usize) by {
                    let a = choose|a: int| 0 <= a < qpre.len() && qpre[a] == u as usize;
                    assert(a < queue_old.len());
                    assert(queue_old[a] == u as usize);
                }
            }
            done.set(cur, true);
            res.push(cur);
            proof {
                let k = res_old.len() as int;
                assert forall|j: int| 0 <= j < d@[cur as int]@.len() implies #[trigger] earlier(
                    res@,
                    k,
                    d@[cur as int]@[j],
                ) by {
                    assert(self.row_resolves(cur as int, d@[cur as int]@));
                    let x = d@[cur as int]@[j];
                    assert(done_old[x as int]);
                    assert(res_old.contains(x));
                    let m = choose|m: int| 0 <= m < res_old.len() && res_old[m] == x;
                    assert(res@[m] == x);
                }
                assert forall|k2: int, j: int|
                    0 <= k2 < res@.len() && 0 <= j < d@[res@[k2] as int]@.len() implies #[trigger] earlier(
                        res@,
                        k2,
                        d@[res@[k2] as int]@[j],
                    ) by {
                    if k2 < k {
                        assert(res@[k2] == res_old[k2]);
                        assert(earlier(res_old, k2, d@[res_old[k2] as int]@[j]));
                        let m = choose|m: int| 0 <= m < k2 && res_old[m] == d@[res_old[k2] as int]@[j];
                        assert(res@[m] == res_old[m]);
                    } else {
                        assert(res@[k2] == cur);
                    }
                }
                assert forall|t: int| 0 <= t < n && #[trigger] done@[t] implies res@.contains(t as usize) by {
                    if t != cur {
                        assert(res_old.contains(t as usize));
                        let m = choose|m: int| 0 <= m < res_old.len() && res_old[m] == t as usize;
                        assert(res@[m] == t as usize);
                    } else {
                        assert(res@[k] == cur);
                    }
                }
            }
            let mut t: usize = 0;
            while t < n
                invariant
                    n == self.len(),
                    d@.len() == n,
                    forall|i: int| 0 <= i < n ==> self.row_resolves(i, (#[trigger] d@[i])@),
                    cur < n,
                    !done_old[cur as int],
                    done_old.len() == n,
                    done@ == done_old.update(cur as int, true),
                    pending(d@[cur as int]@, done_old) == 0,
                    in_deg@.len() == n,
                    t <= n,
                    forall|u: int| 0 <= u < t ==> #[trigger] in_deg@[u] == pending(d@[u]@, done@),
                    forall|u: int| t <= u < n ==> #[trigger] in_deg@[u] == pending(d@[u]@, done_old),
                    forall|u: int| 0 <= u < n && done_old[u] ==> pending(#[trigger] d@[u]@, done_old) == 0,
                    queue@.no_duplicates(),
                    forall|a: int| 0 <= a < queue@.len() ==> #[trigger] queue@[a] < n && !done@[queue@[a] as int] && in_deg@[queue@[a] as int] == 0,
                    forall|u: int| 0 <= u < t && !done@[u] && in_deg@[u] == 0 ==> queue@.contains(u as usize),
                    forall|u: int| t <= u < n && !done@[u] && in_deg@[u] == 0 ==> queue@.contains(u as usize),
                decreases n - t,
            {
                let before = in_deg[t];
                let ghost ds = d@[t as int]@;
                proof {
                    assert(self.row_resolves(t as int, ds));
                    lemma_pending_take_bound(ds, done_old, 0);
                    assert(ds.take(0) =~= Seq::<usize>::empty());
                }
                let ghost deg0 = in_deg@;
                let row = &d[t];
                let mut j: usize = 0;
                while j < row.len()
                    invariant
                        n == self.len(),
                        row@ == ds,
                        forall|b: int| 0 <= b < ds.len() ==> #[trigger] ds[b] < n,
                        cur < n,
                        !done_old[cur as int],
                        done_old.len() == n,
                        done@ == done_old.update(cur as int, true),
                        t < n,
                        in_deg@.len() == n,
                        j <= ds.len(),
                        before as nat == pending(ds, done_old),
                        in_deg@[t as int] as int == pending(ds.take(j as int), done@) + pending(ds, done_old) - pending(ds.take(j as int), done_old),
                        in_deg@.len() == deg0.len(),
                        forall|u: int| 0 <= u < n && u != t ==> in_deg@[u] == deg0[u],
                    decreases ds.len() - j,
                {
                    proof {
                        lemma_pending_take_step(ds, done@, j as int);
                        lemma_pending_take_step(ds, done_old, j as int);
                        lemma_pending_take_bound(ds, done_old, j as int + 1);
                    }
                    if row[j] == cur {
                        let v = in_deg[t] - 1;
                        in_deg.set(t, v);
                    }
                    j = j + 1;
                }
                proof {
                    assert(ds.take(ds.len() as int) =~= ds);
                    lemma_pending_monotone(ds, done_old, done@);
                    assert forall|u: int| 0 <= u < t + 1 implies #[trigger] in_deg@[u] == pending(d@[u]@, done@) by {
                        if u < t {
                            assert(deg0[u] == pending(d@[u]@, done@));
                        }
                    }
                    assert forall|u: int| t + 1 <= u < n implies #[trigger] in_deg@[u] == pending(d@[u]@, done_old) by {
                        assert(deg0[u] == pending(d@[u]@, done_old));
                    }
                }
                if in_deg[t] == 0 && before > 0 {
                    proof {
                        if done_old[t as int] {
                            assert(pending(d@[t as int]@, done_old) == 0);
                        }
                        assert(!queue@.contains(t)) by {
                            if queue@.contains(t) {
                                let a = choose|a: int| 0 <= a < queue@.len() && queue@[a] == t;
                                assert(in_deg@[queue@[a] as int] == 0);
                            }
                        }
                    }
                    let ghost q0 = queue@;
                    queue.push(t);
                    proof {
                        assert forall|a: int| 0 <= a < queue@.len() implies #[trigger] queue@[a] < n && !done@[queue@[a] as int] && in_deg@[queue@[a] as int] == 0 by {
                            if a < q0.len() {
                                assert(queue@[a] == q0[a]);
                            }
                        }
                        assert forall|u: int| 0 <= u <= t && !done@[u] && in_deg@[u] == 0 implies queue@.contains(u as usize) by {
                            if u < t {
                                assert(q0.contains(u as usize));
                                let a = choose|a: int| 0 <= a < q0.len() && q0[a] == u as usize;
                                assert(queue@[a] == u as usize);
                            } else {
                                assert(queue@[q0.len() as int] == t);
                            }
                        }
                        assert forall|u: int| t < u < n && !done@[u] && in_deg@[u] == 0 implies queue@.contains(u as usize) by {
                            assert(q0.contains(u as usize));
                            let a = choose|a: int| 0 <= a < q0.len() && q0[a] == u as usize;
                            assert(queue@[a] == u as usize);
                        }
                    }
                }
                t = t + 1;
            }
        }
        proof {
            assert forall|u: int| 0 <= u < n && !#[trigger] done@[u] implies pending(d@[u]@, done@) > 0 by {
                if in_deg@[u] == 0 {
                    assert(queue@.contains(u as usize));
                }
            }
        }
        (res, done)
    }
}

} // verus!
