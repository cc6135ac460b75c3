use vstd::prelude::*;

use crate::graph::node::{Node, NodeStatus};

pub mod node;
pub mod topo;
pub mod closure;
pub mod schedule;

verus! {

/// The dependency graph: the rules of a rule file, in the order in which
/// they were defined, with unique target names.
pub struct Graph {
    /// All rules of the graph; no two share a target name.
    pub nodes: Vec<Node>,
    /// The most targets that may build at one time.
    pub jobs: usize,
    /// The target of the first rule read, or empty.
    pub default_target: String,
}

/// Why no build order could be given.
#[derive(Debug, PartialEq, Eq)]
pub enum CycleError {
    /// The rules listed here could not be ordered: each of them waits on
    /// another of them.
    CircularDependency { cycle: Vec<String> },
    /// A prerequisite names a target that no rule defines.
    MissingTarget { target: String },
    /// A rule for this target is already in the graph.
    DuplicateTarget { target: String },
}

/// The views of a sequence of strings.
pub open spec fn views(v: Seq<String>) -> Seq<Seq<char>> {
    v.map_values(|s: String| s@)
}

/// `a` stands in `order` before `b`.
pub open spec fn comes_before(order: Seq<Seq<char>>, a: Seq<char>, b: Seq<char>) -> bool {
    exists|q: int, p: int| 0 <= q < p < order.len() && order[q] == a && order[p] == b
}

impl Graph {
    pub open spec fn len(&self) -> nat {
        self.nodes@.len()
    }

    pub open spec fn target(&self, i: int) -> Seq<char> {
        self.nodes@[i].target@
    }

    pub open spec fn deps(&self, i: int) -> Seq<Seq<char>> {
        views(self.nodes@[i].dependencies@)
    }

    pub open spec fn cmds(&self, i: int) -> Seq<Seq<char>> {
        views(self.nodes@[i].commands@)
    }

    /// `row` gives, for each prerequisite of rule `a`, the position of the
    /// rule that it names.
    pub open spec fn row_resolves(&self, a: int, row: Seq<usize>) -> bool {
        &&& row.len() == self.deps(a).len()
        &&& forall|j: int|
            0 <= j < row.len() ==> row[j] < self.len() && self.target(#[trigger] row[j] as int)
                == self.deps(a)[j]
    }

    /// No two rules share a target name.
    pub open spec fn wf(&self) -> bool {
        forall|i: int, j: int|
            0 <= i < self.len() && 0 <= j < self.len() && i != j ==> self.target(i) != self.target(
                j,
            )
    }

    /// Some rule builds `name`.
    pub open spec fn defines(&self, name: Seq<char>) -> bool {
        exists|i: int| 0 <= i < self.len() && self.target(i) == name
    }

    /// Every prerequisite of every rule names a rule of the graph.
    pub open spec fn all_resolved(&self) -> bool {
        forall|i: int, j: int|
            0 <= i < self.len() && 0 <= j < self.deps(i).len() ==> self.defines(
                #[trigger] self.deps(i)[j],
            )
    }

    /// The rule for `x` has a prerequisite in `s`.
    #[verifier::opaque]
    pub open spec fn waits_on(&self, x: Seq<char>, s: Set<Seq<char>>) -> bool {
        exists|i: int, j: int|
            0 <= i < self.len() && self.target(i) == x && 0 <= j < self.deps(i).len() && s.contains(
                #[trigger] self.deps(i)[j],
            )
    }

    /// `s` is a non-empty set of targets of which each has a prerequisite in
    /// `s`: none of them can be built first.
    pub open spec fn is_stuck(&self, s: Set<Seq<char>>) -> bool {
        &&& exists|x: Seq<char>| s.contains(x)
        &&& forall|x: Seq<char>| #[trigger] s.contains(x) ==> self.waits_on(x, s)
    }

    /// `x` is the target of a rule whose prerequisites can all be built
    /// before it, in at most `steps` levels.
    pub open spec fn buildable(&self, x: Seq<char>, steps: nat) -> bool
        decreases steps,
    {
        steps > 0 && exists|i: int|
            0 <= i < self.len() && self.target(i) == x && forall|j: int|
                0 <= j < self.deps(i).len() ==> self.buildable(#[trigger] self.deps(i)[j], (steps - 1) as nat)
    }

    /// Kahn's algorithm emits `x`: some number of levels builds it.
    pub open spec fn is_buildable(&self, x: Seq<char>) -> bool {
        exists|s: nat| self.buildable(x, s)
    }

    /// The dependency relation has a cycle.
    pub open spec fn has_cycle(&self) -> bool {
        exists|s: Set<Seq<char>>| self.is_stuck(s)
    }

    /// `order` lists each target once and nothing else, each prerequisite
    /// of a rule before the rule's target.
    pub open spec fn is_topo_order(&self, order: Seq<Seq<char>>) -> bool {
        &&& order.no_duplicates()
        &&& forall|k: int| 0 <= k < order.len() ==> self.defines(#[trigger] order[k])
        &&& forall|i: int| 0 <= i < self.len() ==> order.contains(#[trigger] self.target(i))
        &&& forall|i: int, j: int|
            0 <= i < self.len() && 0 <= j < self.deps(i).len() ==> comes_before(
                order,
                #[trigger] self.deps(i)[j],
                self.target(i),
            )
    }

    /// An empty graph in which at most `num_threads` targets build at once.
    pub fn new(num_threads: usize) -> (r: Graph)
        ensures
            r.len() == 0,
            r.wf(),
            r.jobs == num_threads,
            r.default_target@.len() == 0,
    {
        Graph { nodes: Vec::new(), jobs: num_threads, default_target: String::new() }
    }

    /// The position of the rule for `name`, if there is one.
    pub fn find(&self, name: &String) -> (r: Option<usize>)
        ensures
            r.is_none() <==> !self.defines(name@),
            r matches Some(i) ==> i < self.len() && self.target(i as int) == name@,
    {
        let mut i: usize = 0;
        while i < self.nodes.len()
            invariant
                i <= self.len(),
                forall|k: int| 0 <= k < i ==> self.target(k) != name@,
            decreases self.len() - i,
        {
            if self.nodes[i].target == *name {
                assert(self.target(i as int) == name@);
                return Some(i);
            }
            i = i + 1;
        }
        None
    }

    /// A copy of the rule for `target`, if there is one.
    pub fn get_node(&self, target: &str) -> (r: Result<Option<Node>, CycleError>)
        ensures
            r matches Ok(o) && (o is None <==> !self.defines(target@)),
            r matches Ok(Some(n)) ==> exists|i: int|
                0 <= i < self.len() && self.target(i) == target@ && n.same(#[trigger] self.nodes@[i]),
    {
        let name = String::from_str(target);
        match self.find(&name) {
            Some(i) => Ok(Some(self.nodes[i].duplicate())),
            None => Ok(None),
        }
    }

    /// Adds a rule; fails where a rule for its target is already there.
    pub fn add_node(&mut self, node: Node) -> (r: Result<(), CycleError>)
        requires
            old(self).wf(),
        ensures
            final(self).wf(),
            final(self).jobs == old(self).jobs,
            final(self).default_target == old(self).default_target,
            r.is_ok() <==> !old(self).defines(node.target@),
            r.is_ok() ==> final(self).nodes@ == old(self).nodes@.push(node),
            r matches Err(e) ==> final(self).nodes@ == old(self).nodes@ && e == (
            CycleError::DuplicateTarget { target: node.target }),
    {
        match self.find(&node.target) {
            Some(_) => Err(CycleError::DuplicateTarget { target: node.target }),
            None => {
                let ghost before = *self;
                self.nodes.push(node);
                proof {
                    assert forall|i: int, j: int|
                        0 <= i < self.len() && 0 <= j < self.len() && i != j implies self.target(i)
                        != self.target(j) by {
                        if i < before.len() && j < before.len() {
                            assert(before.target(i) != before.target(j));
                        } else if i < before.len() {
                            assert(before.target(i) == self.target(i));
                        } else {
                            assert(before.target(j) == self.target(j));
                        }
                    }
                }
                Ok(())
            },
        }
    }
}

} // verus!
