use vstd::prelude::*;

use crate::graph::topo::count_false;
use crate::graph::{views, Graph};

verus! {

impl Graph {
    /// `x` is a target that `roots` needs within `steps` prerequisite
    /// steps: a requested target, or a prerequisite of a needed one.
    pub open spec fn needed(&self, roots: Seq<Seq<char>>, x: Seq<char>, steps: nat) -> bool
        decreases steps,
    {
        self.defines(x) && (roots.contains(x) || (steps > 0 && exists|i: int, j: int|
            0 <= i < self.len() && 0 <= j < self.deps(i).len() && #[trigger] self.deps(i)[j] == x
                && self.needed(roots, self.target(i), (steps - 1) as nat)))
    }

    /// `x` lies in the transitive prerequisite closure of `roots`.
    pub open spec fn is_required(&self, roots: Seq<Seq<char>>, x: Seq<char>) -> bool {
        exists|s: nat| self.needed(roots, x, s)
    }

    /// `row` gives, for each prerequisite of rule `a`, the position of the
    /// rule that it names, or the number of rules where no rule has that name.
    pub open spec fn row_partial(&self, a: int, row: Seq<usize>) -> bool {
        &&& row.len() == self.deps(a).len()
        &&& forall|j: int|
            0 <= j < row.len() ==> (#[trigger] row[j] < self.len() && self.target(row[j] as int) == self.deps(a)[j])
                || (row[j] == self.len() && !self.defines(self.deps(a)[j]))
    }

    /// For each rule, the positions of its prerequisites, with the number of
    /// rules standing for a name that no rule defines.
    fn resolve_partial(&self) -> (d: Vec<Vec<usize>>)
        ensures
            d@.len() == self.len(),
            forall|i: int| 0 <= i < self.len() ==> self.row_partial(i, (#[trigger] d@[i])@),
    {
        let n = self.nodes.len();
        let mut d: Vec<Vec<usize>> = Vec::new();
        let mut i: usize = 0;
        while i < n
            invariant
                n == self.len(),
                i <= n,
                d@.len() == i,
                forall|a: int| 0 <= a < i ==> self.row_partial(a, (#[trigger] d@[a])@),
            decreases n - i,
        {
            let deps = &self.nodes[i].dependencies;
            let mut row: Vec<usize> = Vec::new();
            let mut j: usize = 0;
            while j < deps.len()
                invariant
                    n == self.len(),
                    i < n,
                    deps == &self.nodes@[i as int].dependencies,
                    self.deps(i as int).len() == deps@.len(),
                    forall|b: int| 0 <= b < deps@.len() ==> #[trigger] self.deps(i as int)[b] == deps@[b]@,
                    j <= deps@.len(),
                    row@.len() == j,
                    forall|b: int|
                        0 <= b < j ==> (#[trigger] row@[b] < n && self.target(row@[b] as int) == self.deps(i as int)[b])
                            || (row@[b] == n && !self.defines(self.deps(i as int)[b])),
                decreases deps@.len() - j,
            {
                match self.find(&deps[j]) {
                    Some(k) => {
                        row.push(k);
                    },
                    None => {
                        row.push(n);
                    },
                }
                assert(self.deps(i as int)[j as int] == deps@[j as int]@);
                j = j + 1;
            }
            d.push(row);
            i = i + 1;
        }
        d
    }

    /// The names of `targets` that no rule defines, in order.
    pub fn unknown_targets(&self, targets: &Vec<String>) -> (r: Vec<String>)
        ensures
            views(r@) == views(targets@).filter(|t: Seq<char>| !self.defines(t)),
    {
        let mut r: Vec<String> = Vec::new();
        let mut k: usize = 0;
        while k < targets.len()
            invariant
                k <= targets@.len(),
                views(r@) == views(targets@).take(k as int).filter(|t: Seq<char>| !self.defines(t)),
            decreases targets@.len() - k,
        {
            let ghost r0 = r@;
            proof {
                assert(views(targets@).take(k + 1).drop_last() =~= views(targets@).take(k as int));
                assert(views(targets@).take(k + 1).last() == targets@[k as int]@);
                reveal_with_fuel(Seq::filter, 1);
            }
            if self.find(&targets[k]).is_none() {
                r.push(targets[k].clone());
                assert(views(r@) =~= views(r0).push(targets@[k as int]@));
            }
            k = k + 1;
        }
        assert(views(targets@).take(targets@.len() as int) =~= views(targets@));
        r
    }

    /// For each rule, whether the requested `targets` need it: the
    /// transitive prerequisite closure of the targets that the graph
    /// defines. Names that no rule defines are left out.
    pub fn get_required_targets(&self, targets: &Vec<String>) -> (r: Vec<bool>)
        requires
            self.wf(),
        ensures
            r@.len() == self.len(),
            forall|t: int|
                0 <= t < self.len() ==> (#[trigger] r@[t] <==> self.is_required(
                    views(targets@),
                    self.target(t),
                )),
    {
        let ghost roots = views(targets@);
        let d = self.resolve_partial();
        let n = self.nodes.len();
        let mut marked: Vec<bool> = Vec::new();
        let mut i: usize = 0;
        while i < n
            invariant
                i <= n,
                marked@.len() == i,
                forall|t: int| 0 <= t < i ==> !#[trigger] marked@[t],
            decreases n - i,
        {
            marked.push(false);
            i = i + 1;
        }
        let mut stack: Vec<usize> = Vec::new();
        let mut k: usize = 0;
        while k < targets.len()
            invariant
                n == self.len(),
                roots == views(targets@),
                k <= targets@.len(),
                marked@.len() == n,
                forall|a: int| 0 <= a < stack@.len() ==> #[trigger] stack@[a] < n && marked@[stack@[a] as int],
                forall|t: int| 0 <= t < n && #[trigger] marked@[t] ==> stack@.contains(t as usize),
                forall|t: int| 0 <= t < n && #[trigger] marked@[t] ==> self.is_required(roots, self.target(t)),
                forall|a: int| 0 <= a < k ==> self.defines(#[trigger] roots[a]) ==> exists|t: int|
                    0 <= t < n && marked@[t] && self.target(t) == roots[a],
            decreases targets@.len() - k,
        {
            match self.find(&targets[k]) {
                Some(t) => {
                    proof {
                        assert(roots[k as int] == self.target(t as int));
                        assert(roots.contains(self.target(t as int)));
                        assert(self.defines(self.target(t as int)));
                        assert(self.needed(roots, self.target(t as int), 0));
                    }
                    if !marked[t] {
                        let ghost s0 = stack@;
                        marked.set(t, true);
                        stack.push(t);
                        proof {
                            assert forall|u: int| 0 <= u < n && #[trigger] marked@[u] implies stack@.contains(u as usize) by {
                                if u != t {
                                    let a = choose|a: int| 0 <= a < s0.len() && s0[a] == u as usize;
                                    assert(stack@[a] == u as usize);
                                } else {
                                    assert(stack@[s0.len() as int] == t);
                                }
                            }
                        }
                    }
                },
                None => {},
            }
            k = k + 1;
        }
        while stack.len() > 0
            invariant
                n == self.len(),
                roots == views(targets@),
                d@.len() == n,
                forall|i: int| 0 <= i < n ==> self.row_partial(i, (#[trigger] d@[i])@),
                marked@.len() == n,
                forall|a: int| 0 <= a < stack@.len() ==> #[trigger] stack@[a] < n && marked@[stack@[a] as int],
                forall|t: int| 0 <= t < n && #[trigger] marked@[t] ==> self.is_required(roots, self.target(t)),
                forall|a: int| 0 <= a < roots.len() ==> self.defines(#[trigger] roots[a]) ==> exists|t: int|
                    0 <= t < n && marked@[t] && self.target(t) == roots[a],
                forall|t: int, j: int|
                    0 <= t < n && marked@[t] && !stack@.contains(t as usize) && 0 <= j < d@[t]@.len() && d@[t]@[j] < n ==> marked@[#[trigger] d@[t]@[j] as int],
            decreases count_false(marked@), stack@.len(),
        {
            let ghost spre = stack@;
            let cur = stack.pop().unwrap();
            let ghost s1 = stack@;
            let ghost m0 = marked@;
            proof {
                assert(spre =~= s1.push(cur));
                assert(marked@[cur as int]);
                assert(self.row_partial(cur as int, d@[cur as int]@));
            }
            let row = &d[cur];
            let mut j: usize = 0;
            while j < row.len()
                invariant
                    n == self.len(),
                    roots == views(targets@),
                    d@.len() == n,
                    forall|i: int| 0 <= i < n ==> self.row_partial(i, (#[trigger] d@[i])@),
                    cur < n,
                    row@ == d@[cur as int]@,
                    j <= row@.len(),
                    marked@.len() == n,
                    marked@[cur as int],
                    m0.len() == n,
                    forall|t: int| 0 <= t < n && #[trigger] m0[t] ==> marked@[t],
                    forall|a: int| 0 <= a < s1.len() ==> #[trigger] stack@[a] == s1[a],
                    s1.len() <= stack@.len(),
                    forall|a: int| 0 <= a < stack@.len() ==> #[trigger] stack@[a] < n && marked@[stack@[a] as int],
                    forall|t: int| 0 <= t < n && #[trigger] marked@[t] ==> self.is_required(roots, self.target(t)),
                    forall|t: int| 0 <= t < n && #[trigger] marked@[t] && !m0[t] ==> stack@.contains(t as usize),
                    forall|b: int| 0 <= b < j && row@[b] < n ==> marked@[#[trigger] row@[b] as int],
                    count_false(marked@) < count_false(m0) || (marked@ == m0 && stack@ == s1),
                decreases row@.len() - j,
            {
                let x = row[j];
                if x < n && !marked[x] {
                    let ghost mb = marked@;
                    let ghost sb = stack@;
                    proof {
                        crate::graph::topo::lemma_count_false_set(mb, x as int);
                        let s = choose|s: nat| self.needed(roots, self.target(cur as int), s);
                        assert(self.deps(cur as int)[j as int] == self.target(x as int));
                        assert(self.needed(roots, self.target(x as int), s + 1));
                    }
                    marked.set(x, true);
                    stack.push(x);
                    proof {
                        assert forall|t: int| 0 <= t < n && #[trigger] marked@[t] && !m0[t] implies stack@.contains(t as usize) by {
                            if t != x {
                                let a = choose|a: int| 0 <= a < sb.len() && sb[a] == t as usize;
                                assert(stack@[a] == t as usize);
                            } else {
                                assert(stack@[sb.len() as int] == x);
                            }
                        }
                    }
                }
                j = j + 1;
            }
            proof {
                assert forall|t: int, j: int|
                    0 <= t < n && marked@[t] && !stack@.contains(t as usize) && 0 <= j < d@[t]@.len() && d@[t]@[j] < n implies marked@[#[trigger] d@[t]@[j] as int] by {
                    if t == cur {
                        assert(marked@[row@[j] as int]);
                    } else {
                        if m0[t] {
                            if spre.contains(t as usize) {
                                let a = choose|a: int| 0 <= a < spre.len() && spre[a] == t as usize;
                                assert(a < s1.len());
                                assert(stack@[a] == t as usize);
                            }
                            assert(m0[d@[t]@[j] as int]);
                        }
                    }
                }
                assert forall|a: int| 0 <= a < roots.len() && self.defines(#[trigger] roots[a]) implies exists|t: int|
                    0 <= t < n && marked@[t] && self.target(t) == roots[a] by {
                    let t = choose|t: int| 0 <= t < n && m0[t] && self.target(t) == roots[a];
                    assert(marked@[t]);
                }
            }
        }
        proof {
            assert forall|t: int| 0 <= t < n && self.is_required(roots, self.target(t)) implies #[trigger] marked@[t] by {
                let s = choose|s: nat| self.needed(roots, self.target(t), s);
                self.lemma_closed_contains_needed(roots, d@, marked@, self.target(t), s);
            }
        }
        marked
    }

    proof fn lemma_closed_contains_needed(
        &self,
        roots: Seq<Seq<char>>,
        d: Seq<Vec<usize>>,
        marked: Seq<bool>,
        x: Seq<char>,
        s: nat,
    )
        requires
            self.wf(),
            d.len() == self.len(),
            forall|i: int| 0 <= i < self.len() ==> self.row_partial(i, (#[trigger] d[i])@),
            marked.len() == self.len(),
            forall|a: int| 0 <= a < roots.len() ==> self.defines(#[trigger] roots[a]) ==> exists|t: int|
                0 <= t < self.len() && marked[t] && self.target(t) == roots[a],
            forall|t: int, j: int|
                0 <= t < self.len() && marked[t] && 0 <= j < d[t]@.len() && d[t]@[j] < self.len() ==> marked[#[trigger] d[t]@[j] as int],
            self.needed(roots, x, s),
        ensures
            forall|t: int| 0 <= t < self.len() && self.target(t) == x ==> marked[t],
        decreases s,
    {
        assert forall|t: int| 0 <= t < self.len() && self.target(t) == x implies marked[t] by {
            if roots.contains(x) {
                let a = choose|a: int| 0 <= a < roots.len() && roots[a] == x;
                let u = choose|u: int| 0 <= u < self.len() && marked[u] && self.target(u) == roots[a];
                if u != t {
                    assert(self.target(u) != self.target(t));
                }
            } else {
                let (i, j) = choose|i: int, j: int|
                    0 <= i < self.len() && 0 <= j < self.deps(i).len() && #[trigger] self.deps(i)[j] == x
                        && self.needed(roots, self.target(i), (s - 1) as nat);
                self.lemma_closed_contains_needed(roots, d, marked, self.target(i), (s - 1) as nat);
                assert(self.row_partial(i, d[i]@));
                assert(self.defines(x));
                let w = d[i]@[j] as int;
                assert(marked[w]);
                if w != t {
                    assert(self.target(w) != self.target(t));
                }
            }
        }
    }
}

/// A requested name that no rule defines adds nothing to the closure.
pub proof fn lemma_unknown_target_adds_nothing(
    g: Graph,
    roots: Seq<Seq<char>>,
    unknown: Seq<char>,
    x: Seq<char>,
)
    requires
        !g.defines(unknown),
    ensures
        g.is_required(roots.push(unknown), x) == g.is_required(roots, x),
{
    if g.is_required(roots.push(unknown), x) {
        let s = choose|s: nat| g.needed(roots.push(unknown), x, s);
        lemma_needed_without_unknown(g, roots, unknown, x, s);
    }
    if g.is_required(roots, x) {
        let s = choose|s: nat| g.needed(roots, x, s);
        lemma_needed_with_more(g, roots, unknown, x, s);
    }
}

proof fn lemma_needed_without_unknown(
    g: Graph,
    roots: Seq<Seq<char>>,
    unknown: Seq<char>,
    x: Seq<char>,
    s: nat,
)
    requires
        !g.defines(unknown),
        g.needed(roots.push(unknown), x, s),
    ensures
        g.needed(roots, x, s),
    decreases s,
{
    let r2 = roots.push(unknown);
    if r2.contains(x) {
        let a = choose|a: int| 0 <= a < r2.len() && r2[a] == x;
        if a < roots.len() {
            assert(roots[a] == x);
        }
    } else {
        let (i, j) = choose|i: int, j: int|
            0 <= i < g.len() && 0 <= j < g.deps(i).len() && #[trigger] g.deps(i)[j] == x
                && g.needed(r2, g.target(i), (s - 1) as nat);
        lemma_needed_without_unknown(g, roots, unknown, g.target(i), (s - 1) as nat);
    }
}

proof fn lemma_needed_with_more(
    g: Graph,
    roots: Seq<Seq<char>>,
    more: Seq<char>,
    x: Seq<char>,
    s: nat,
)
    requires
        g.needed(roots, x, s),
    ensures
        g.needed(roots.push(more), x, s),
    decreases s,
{
    let r2 = roots.push(more);
    if roots.contains(x) {
        let a = choose|a: int| 0 <= a < roots.len() && roots[a] == x;
        assert(r2[a] == x);
    } else {
        let (i, j) = choose|i: int, j: int|
            0 <= i < g.len() && 0 <= j < g.deps(i).len() && #[trigger] g.deps(i)[j] == x
                && g.needed(roots, g.target(i), (s - 1) as nat);
        lemma_needed_with_more(g, roots, more, g.target(i), (s - 1) as nat);
    }
}

} // verus!
