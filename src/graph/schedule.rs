use vstd::prelude::*;

use crate::graph::node::{Node, NodeStatus};
use crate::graph::{views, CycleError, Graph};
use crate::parser::copy_strings;

verus! {

/// One command to run: command `command` of the rule at position `target`.
#[derive(Debug, Clone, Copy, PartialEq, Eq)]
pub struct Job {
    pub target: usize,
    pub command: usize,
}

/// A build in progress: the graph with the state of each rule, the rules
/// that the build needs, and where each rule stands in its commands.
pub struct Build {
    pub graph: Graph,
    /// For each rule, the positions of its prerequisites.
    pub deps: Vec<Vec<usize>>,
    /// For each rule, whether the build needs it.
    pub required: Vec<bool>,
    /// For each rule, the command that runs or runs next.
    pub next_command: Vec<usize>,
    /// How many rules are `Building`.
    pub building: usize,
}

/// How many of `nodes` are `Building`.
pub open spec fn building_count(nodes: Seq<Node>) -> nat
    decreases nodes.len(),
{
    if nodes.len() == 0 {
        0
    } else {
        building_count(nodes.drop_last()) + if nodes.last().state is Building {
            1nat
        } else {
            0nat
        }
    }
}

proof fn lemma_building_count_update(nodes: Seq<Node>, t: int, x: Node)
    requires
        0 <= t < nodes.len(),
    ensures
        building_count(nodes.update(t, x)) + (if nodes[t].state is Building {
            1int
        } else {
            0int
        }) == building_count(nodes) + (if x.state is Building {
            1int
        } else {
            0int
        }),
    decreases nodes.len(),
{
    if t == nodes.len() - 1 {
        assert(nodes.update(t, x).drop_last() =~= nodes.drop_last());
    } else {
        assert(nodes.update(t, x).drop_last() =~= nodes.drop_last().update(t, x));
        lemma_building_count_update(nodes.drop_last(), t, x);
    }
}

/// The targets that a build of `targets` starts from: those targets, or the
/// default target when none is named and the graph has one.
pub open spec fn requested_roots(g: Graph, targets: Seq<Seq<char>>) -> Seq<Seq<char>> {
    if targets.len() > 0 {
        targets
    } else if g.default_target@.len() > 0 {
        seq![g.default_target@]
    } else {
        Seq::empty()
    }
}

proof fn lemma_building_count_none(nodes: Seq<Node>)
    requires
        forall|t: int| 0 <= t < nodes.len() ==> !(#[trigger] nodes[t].state is Building),
    ensures
        building_count(nodes) == 0,
    decreases nodes.len(),
{
    if nodes.len() > 0 {
        lemma_building_count_none(nodes.drop_last());
    }
}

impl Build {
    /// A build of `targets` (of the default target, where none is named):
    /// every rule `Pending`, the rules that the targets need marked. Fails
    /// where a prerequisite names no rule or the rules form a cycle.
    pub fn new(graph: Graph, targets: &Vec<String>) -> (r: Result<Build, CycleError>)
        requires
            graph.wf(),
            graph.jobs >= 1,
        ensures
            r is Ok <==> graph.all_resolved() && !graph.has_cycle(),
            r matches Err(CycleError::MissingTarget { target }) ==> !graph.all_resolved()
                && !graph.defines(target@) && exists|i: int, j: int|
                0 <= i < graph.len() && 0 <= j < graph.deps(i).len() && graph.deps(i)[j] == target@,
            r matches Err(CycleError::CircularDependency { cycle }) ==> graph.all_resolved()
                && graph.is_stuck(views(cycle@).to_set()) && views(cycle@).no_duplicates() && (forall|k: int|
                0 <= k < cycle@.len() ==> graph.defines(#[trigger] views(cycle@)[k])) && (forall|i: int|
                0 <= i < graph.len() ==> (views(cycle@).contains(#[trigger] graph.target(i))
                    <==> !graph.is_buildable(graph.target(i)))),
            !(r matches Err(CycleError::DuplicateTarget { .. })),
            r matches Ok(b) ==> {
                &&& b.wf()
                &&& b.len() == graph.len()
                &&& b.building == 0
                &&& b.graph.jobs == graph.jobs
                &&& b.graph.default_target == graph.default_target
                &&& forall|t: int| 0 <= t < b.len() ==> #[trigger] b.state(t) is Pending
                &&& forall|t: int| 0 <= t < b.len() ==> #[trigger] b.graph.cmds(t) == graph.cmds(t)
                &&& forall|t: int| 0 <= t < b.len() ==> #[trigger] b.graph.target(t) == graph.target(t)
                &&& forall|t: int| 0 <= t < b.len() ==> #[trigger] b.graph.deps(t) == graph.deps(t)
                &&& forall|t: int|
                    0 <= t < b.len() ==> (#[trigger] b.required@[t] <==> graph.is_required(
                        requested_roots(graph, views(targets@)),
                        graph.target(t),
                    ))
            },
    {
        match graph.topo_sort() {
            Ok(_) => {},
            Err(e) => {
                return Err(e);
            },
        }
        let deps = match graph.resolve() {
            Ok(d) => d,
            Err(e) => {
                return Err(e);
            },
        };
        let mut roots: Vec<String> = Vec::new();
        if targets.len() > 0 {
            roots = copy_strings(targets);
        } else if graph.default_target.as_str().unicode_len() > 0 {
            roots.push(graph.default_target.clone());
            assert(views(roots@) =~= seq![graph.default_target@]);
        } else {
            assert(views(roots@) =~= Seq::<Seq<char>>::empty());
        }
        let required = graph.get_required_targets(&roots);
        let ghost g0 = graph;
        let mut g = graph;
        let n = g.nodes.len();
        let mut next_command: Vec<usize> = Vec::new();
        let mut t: usize = 0;
        while t < n
            invariant
                n == g0.len(),
                g.len() == n,
                g.wf(),
                g.jobs == g0.jobs,
                g.default_target == g0.default_target,
                t <= n,
                next_command@.len() == t,
                forall|u: int| 0 <= u < t ==> #[trigger] next_command@[u] == 0,
                forall|u: int| 0 <= u < t ==> #[trigger] g.nodes@[u].state is Pending,
                forall|u: int| 0 <= u < n ==> #[trigger] g.cmds(u) == g0.cmds(u),
                forall|u: int| 0 <= u < n ==> #[trigger] g.target(u) == g0.target(u),
                forall|u: int| 0 <= u < n ==> #[trigger] g.deps(u) == g0.deps(u),
            decreases n - t,
        {
            let ghost gb = g;
            g.nodes[t].state = NodeStatus::Pending;
            next_command.push(0);
            proof {
                assert forall|u: int| 0 <= u < n && u != t implies #[trigger] g.nodes@[u] == gb.nodes@[u] by {}
                assert forall|i: int, j: int|
                    0 <= i < g.len() && 0 <= j < g.len() && i != j implies g.target(i) != g.target(j) by {
                    assert(gb.target(i) != gb.target(j));
                }
                assert forall|u: int| 0 <= u < n implies #[trigger] g.cmds(u) == g0.cmds(u) by {
                    assert(gb.cmds(u) == g0.cmds(u));
                }
                assert forall|u: int| 0 <= u < n implies #[trigger] g.target(u) == g0.target(u) by {
                    assert(gb.target(u) == g0.target(u));
                }
                assert forall|u: int| 0 <= u < n implies #[trigger] g.deps(u) == g0.deps(u) by {
                    assert(gb.deps(u) == g0.deps(u));
                }
            }
            t = t + 1;
        }
        let b = Build { graph: g, deps, required, next_command, building: 0 };
        proof {
            lemma_same_shape_cycle(g0, b.graph);
            let rv = views(roots@);
            assert forall|t: int, j: int|
                0 <= t < n && b.required@[t] && 0 <= j < b.n_deps(t) implies b.required@[#[trigger] b.dep_at(t, j)] by {
                assert(g0.row_resolves(t, b.deps@[t]@));
                let d = b.dep_at(t, j);
                assert(g0.target(d) == g0.deps(t)[j]);
                assert(g0.is_required(rv, g0.target(t)));
                let st = choose|st: nat| g0.needed(rv, g0.target(t), st);
                assert(g0.defines(g0.target(d)));
                assert(g0.needed(rv, g0.target(d), st + 1));
                assert(g0.is_required(rv, g0.target(d)));
            }
            lemma_building_count_none(b.graph.nodes@);
            assert forall|u: int| 0 <= u < n implies b.graph.row_resolves(u, (#[trigger] b.deps@[u])@) by {
                assert(g0.row_resolves(u, b.deps@[u]@));
                assert forall|j: int| 0 <= j < b.deps@[u]@.len() implies b.deps@[u]@[j] < n
                    && b.graph.target(#[trigger] b.deps@[u]@[j] as int) == b.graph.deps(u)[j] by {
                    assert(g0.target(b.deps@[u]@[j] as int) == g0.deps(u)[j]);
                }
            }
            assert forall|u: int| 0 <= u < n implies #[trigger] b.state(u) is Pending by {
                assert(b.graph.nodes@[u].state is Pending);
            }
            assert(b.after_prerequisites());
            assert forall|u: int| 0 <= u < n implies {
                let c = #[trigger] b.next_command@[u] as int;
                let m = b.graph.cmds(u).len() as int;
                &&& 0 <= c <= m
                &&& (b.state(u) is Pending || b.state(u) is Ready) ==> c == 0
                &&& b.state(u) is Building ==> c < m
                &&& b.state(u) is Complete ==> c == m
            } by {
                assert(b.state(u) is Pending);
            }
        }
        Ok(b)
    }

    pub open spec fn len(&self) -> nat {
        self.graph.len()
    }

    pub open spec fn state(&self, t: int) -> NodeStatus {
        self.graph.nodes@[t].state
    }

    pub open spec fn dep_at(&self, t: int, j: int) -> int {
        self.deps@[t]@[j] as int
    }

    pub open spec fn n_deps(&self, t: int) -> int {
        self.deps@[t]@.len() as int
    }

    /// Every prerequisite of rule `t` is `Complete`.
    pub open spec fn deps_complete(&self, t: int) -> bool {
        forall|j: int| 0 <= j < self.n_deps(t) ==> (#[trigger] self.state(self.dep_at(t, j))) is Complete
    }

    /// No more rules are `Building` than the build allows.
    pub open spec fn within_cap(&self) -> bool {
        &&& self.building as nat == building_count(self.graph.nodes@)
        &&& self.building <= self.graph.jobs
    }

    /// A rule that is `Ready`, `Building` or `Complete` has every
    /// prerequisite `Complete`.
    pub open spec fn after_prerequisites(&self) -> bool {
        forall|t: int|
            0 <= t < self.len() && (self.state(t) is Ready || self.state(t) is Building || self.state(
                t,
            ) is Complete) ==> #[trigger] self.deps_complete(t)
    }

    /// Commands run one after another, in the order of the rule: a rule
    /// that has not started is at its first command, a `Building` one at the
    /// command that runs, a `Complete` one past its last.
    pub open spec fn commands_in_order(&self) -> bool {
        forall|t: int|
            0 <= t < self.len() ==> {
                let c = #[trigger] self.next_command@[t] as int;
                let m = self.graph.cmds(t).len() as int;
                &&& 0 <= c <= m
                &&& (self.state(t) is Pending || self.state(t) is Ready) ==> c == 0
                &&& self.state(t) is Building ==> c < m
                &&& self.state(t) is Complete ==> c == m
            }
    }

    /// The prerequisites of a needed rule are needed.
    pub open spec fn required_closed(&self) -> bool {
        forall|t: int, j: int|
            0 <= t < self.len() && self.required@[t] && 0 <= j < self.n_deps(t) ==> self.required@[#[trigger] self.dep_at(
                t,
                j,
            )]
    }

    pub open spec fn wf(&self) -> bool {
        &&& self.graph.wf()
        &&& self.graph.jobs >= 1
        &&& self.deps@.len() == self.len()
        &&& forall|t: int| 0 <= t < self.len() ==> self.graph.row_resolves(t, (#[trigger] self.deps@[t])@)
        &&& self.required@.len() == self.len()
        &&& self.next_command@.len() == self.len()
        &&& forall|t: int| 0 <= t < self.len() && !#[trigger] self.required@[t] ==> self.state(t) is Pending
        &&& self.within_cap()
        &&& self.after_prerequisites()
        &&& self.commands_in_order()
        &&& self.required_closed()
        &&& !self.graph.has_cycle()
    }

    /// Sets the state of rule `t`; nothing else changes.
    fn set_state(&mut self, t: usize, st: NodeStatus)
        requires
            t < old(self).len(),
        ensures
            final(self).graph.nodes@ == old(self).graph.nodes@.update(
                t as int,
                Node { state: st, ..old(self).graph.nodes@[t as int] },
            ),
            final(self).graph.jobs == old(self).graph.jobs,
            final(self).graph.default_target == old(self).graph.default_target,
            final(self).deps == old(self).deps,
            final(self).required == old(self).required,
            final(self).next_command == old(self).next_command,
            final(self).building == old(self).building,
            final(self).graph.wf() == old(self).graph.wf(),
            forall|u: int| 0 <= u < final(self).len() ==> #[trigger] final(self).graph.cmds(u) == old(self).graph.cmds(u),
            forall|u: int| 0 <= u < final(self).len() ==> #[trigger] final(self).graph.target(u) == old(self).graph.target(u),
            forall|u: int| 0 <= u < final(self).len() ==> #[trigger] final(self).graph.deps(u) == old(self).graph.deps(u),
            forall|u: int| 0 <= u < final(self).len() && u != t ==> #[trigger] final(self).state(u) == old(self).state(u),
            final(self).state(t as int) == st,
            building_count(final(self).graph.nodes@) + (if old(self).state(t as int) is Building {
                1int
            } else {
                0int
            }) == building_count(old(self).graph.nodes@) + (if st is Building {
                1int
            } else {
                0int
            }),
    {
        let ghost before = *self;
        self.graph.nodes[t].state = st;
        proof {
            assert(self.graph.nodes@ =~= before.graph.nodes@.update(
                t as int,
                Node { state: st, ..before.graph.nodes@[t as int] },
            ));
            lemma_building_count_update(
                before.graph.nodes@,
                t as int,
                Node { state: st, ..before.graph.nodes@[t as int] },
            );
            if self.graph.wf() != before.graph.wf() {
                if before.graph.wf() {
                    assert forall|i: int, j: int|
                        0 <= i < self.len() && 0 <= j < self.len() && i != j implies self.graph.target(i)
                        != self.graph.target(j) by {
                        assert(before.graph.target(i) != before.graph.target(j));
                    }
                } else {
                    let (i, j) = choose|i: int, j: int|
                        0 <= i < before.len() && 0 <= j < before.len() && i != j && before.graph.target(i)
                        == before.graph.target(j);
                    assert(self.graph.target(i) == self.graph.target(j));
                }
            }
        }
    }

    /// Whether every rule that the build needs is `Complete`.
    pub fn is_success(&self) -> (r: bool)
        requires
            self.wf(),
        ensures
            r == forall|t: int| 0 <= t < self.len() && #[trigger] self.required@[t] ==> self.state(t) is Complete,
    {
        let mut t: usize = 0;
        while t < self.required.len()
            invariant
                self.wf(),
                t <= self.len(),
                forall|u: int| 0 <= u < t && #[trigger] self.required@[u] ==> self.state(u) is Complete,
            decreases self.len() - t,
        {
            if self.required[t] {
                match self.graph.nodes[t].state {
                    NodeStatus::Complete => {},
                    _ => {
                        return false;
                    },
                }
            }
            t = t + 1;
        }
        true
    }

    /// Records that command `job.command` of rule `job.target` has ended,
    /// with `ok` whether it succeeded and `reason` what went wrong if not.
    /// Hands out the rule's next command, if it has one and this one
    /// succeeded; otherwise the rule becomes `Complete` or `Failed(reason)`.
    pub fn command_done(&mut self, job: Job, ok: bool, reason: String) -> (r: Option<Job>)
        requires
            old(self).wf(),
            job.target < old(self).len(),
            old(self).state(job.target as int) is Building,
            old(self).next_command@[job.target as int] == job.command,
        ensures
            final(self).wf(),
            final(self).graph.rules() == old(self).graph.rules(),
            final(self).required == old(self).required,
            forall|u: int| 0 <= u < final(self).len() && u != job.target ==> #[trigger] final(self).state(u) == old(self).state(u),
            final(self).graph.default_target == old(self).graph.default_target,
            final(self).graph.jobs == old(self).graph.jobs,
            forall|u: int|
                0 <= u < final(self).len() && u != job.target ==> #[trigger] final(self).next_command@[u]
                    == old(self).next_command@[u],
            ok && job.command + 1 < old(self).graph.cmds(job.target as int).len()
                ==> final(self).next_command@[job.target as int] == job.command + 1,
            ok && job.command + 1 < old(self).graph.cmds(job.target as int).len() ==> r == Some(
                Job { target: job.target, command: (job.command + 1) as usize },
            ) && final(self).state(job.target as int) is Building && final(self).building == old(self).building,
            ok && job.command + 1 == old(self).graph.cmds(job.target as int).len() ==> r is None
                && final(self).state(job.target as int) is Complete && final(self).building + 1 == old(self).building,
            !ok ==> r is None && final(self).state(job.target as int) == NodeStatus::Failed(reason)
                && final(self).building + 1 == old(self).building,
    {
        let t = job.target;
        let ghost before = *self;
        let m = self.graph.nodes[t].commands.len();
        proof {
            assert(self.graph.cmds(t as int).len() == m);
            assert(self.next_command@[t as int] < m);
        }
        if ok && job.command + 1 < m {
            self.next_command.set(t, job.command + 1);
            proof {
                assert(self.graph == before.graph);
                assert(self.deps == before.deps);
                assert forall|u: int|
                    0 <= u < self.len() && (self.state(u) is Ready || self.state(u) is Building || self.state(
                        u,
                    ) is Complete) implies #[trigger] self.deps_complete(u) by {
                    assert(before.deps_complete(u));
                    assert forall|j: int| 0 <= j < self.n_deps(u) implies (#[trigger] self.state(self.dep_at(u, j))) is Complete by {
                        assert(before.state(before.dep_at(u, j)) is Complete);
                    }
                }
                assert forall|u: int| 0 <= u < self.len() && !#[trigger] self.required@[u] implies self.state(u) is Pending by {
                    assert(!before.required@[u]);
                }
                assert(self.graph.rules() =~= before.graph.rules());
                lemma_same_shape_cycle(before.graph, self.graph);
                assert forall|u: int, j: int|
                    0 <= u < self.len() && self.required@[u] && 0 <= j < self.n_deps(u) implies self.required@[#[trigger] self.dep_at(
                    u,
                    j,
                )] by {
                    assert(before.required@[before.dep_at(u, j)]);
                }
            }
            return Some(Job { target: t, command: job.command + 1 });
        }
        if ok {
            self.next_command.set(t, m);
            self.set_state(t, NodeStatus::Complete);
        } else {
            self.set_state(t, NodeStatus::Failed(reason));
        }
        self.building = self.building - 1;
        proof {
            assert forall|u: int| 0 <= u < self.len() implies #[trigger] self.graph.target(u) == before.graph.target(u)
                && self.graph.deps(u) == before.graph.deps(u) by {}
            lemma_same_shape_cycle(before.graph, self.graph);
            assert forall|u: int, j: int|
                0 <= u < self.len() && self.required@[u] && 0 <= j < self.n_deps(u) implies self.required@[#[trigger] self.dep_at(
                u,
                j,
            )] by {
                assert(before.required@[before.dep_at(u, j)]);
            }

            assert(self.graph.nodes@.len() == before.graph.nodes@.len());
            assert forall|u: int| 0 <= u < self.len() implies #[trigger] self.graph.row_resolves(u, self.deps@[u]@) by {
                assert(before.graph.row_resolves(u, before.deps@[u]@));
            }
            assert forall|u: int| 0 <= u < self.len() && !#[trigger] self.required@[u] implies self.state(u) is Pending by {
                assert(!before.required@[u]);
                if u == t {
                    assert(before.state(u) is Pending);
                }
            }
            assert forall|u: int|
                0 <= u < self.len() && (self.state(u) is Ready || self.state(u) is Building || self.state(
                    u,
                ) is Complete) implies #[trigger] self.deps_complete(u) by {
                assert(before.deps_complete(u));
                assert forall|j: int| 0 <= j < self.n_deps(u) implies (#[trigger] self.state(self.dep_at(u, j))) is Complete by {
                    assert(before.state(before.dep_at(u, j)) is Complete);
                    if before.dep_at(u, j) == t as int {
                        assert(false);
                    }
                }
            }
            assert forall|u: int| 0 <= u < self.len() implies {
                let c = #[trigger] self.next_command@[u] as int;
                let mm = self.graph.cmds(u).len() as int;
                &&& 0 <= c <= mm
                &&& (self.state(u) is Pending || self.state(u) is Ready) ==> c == 0
                &&& self.state(u) is Building ==> c < mm
                &&& self.state(u) is Complete ==> c == mm
            } by {
                let c0 = before.next_command@[u];
                if u != t {
                    assert(self.next_command@[u] == c0);
                }
            }
            assert(self.graph.rules() =~= before.graph.rules()) by {
                assert forall|u: int| 0 <= u < self.len() implies #[trigger] self.graph.rules()[u] == before.graph.rules()[u] by {
                    assert(self.graph.cmds(u) == before.graph.cmds(u));
                    assert(self.graph.target(u) == before.graph.target(u));
                    assert(self.graph.deps(u) == before.graph.deps(u));
                }
            }
        }
        None
    }

    /// Nothing is left to settle: each needed `Pending` rule waits on a
    /// prerequisite that is not `Complete`, and none of its prerequisites
    /// has `Failed`.
    pub open spec fn settled(&self) -> bool {
        forall|u: int|
            0 <= u < self.len() && self.required@[u] && (#[trigger] self.state(u)) is Pending ==> !self.deps_complete(u)
                && forall|j: int| 0 <= j < self.n_deps(u) ==> !((#[trigger] self.state(self.dep_at(u, j))) is Failed)
    }

    /// Rule `u` failed because its prerequisite at position `j` failed, and
    /// its reason says so.
    pub open spec fn failed_by(&self, u: int, j: int) -> bool {
        &&& 0 <= j < self.n_deps(u)
        &&& 0 <= self.dep_at(u, j) < self.len()
        &&& self.state(self.dep_at(u, j)) is Failed
        &&& self.state(u) matches NodeStatus::Failed(r) && r@ == "prerequisite "@ + self.graph.target(
            self.dep_at(u, j),
        ) + " failed"@
    }

    /// `self` is `before` moved on by settling and starting rules: the
    /// structure is kept; `Complete`, `Failed` and `Building` rules stay as
    /// they were; a `Ready` rule stays `Ready` or moves to `Building` or
    /// `Complete`; a `Pending` rule that failed did so because of a failed
    /// prerequisite; a rule that became `Complete` has no commands.
    pub open spec fn moved_on_from(&self, before: Build) -> bool {
        &&& self.len() == before.len()
        &&& self.graph.wf() == before.graph.wf()
        &&& self.graph.jobs == before.graph.jobs
        &&& self.graph.default_target == before.graph.default_target
        &&& self.deps == before.deps
        &&& self.required == before.required
        &&& forall|u: int| 0 <= u < self.len() ==> #[trigger] self.graph.cmds(u) == before.graph.cmds(u)
        &&& forall|u: int| 0 <= u < self.len() ==> #[trigger] self.graph.target(u) == before.graph.target(u)
        &&& forall|u: int| 0 <= u < self.len() ==> #[trigger] self.graph.deps(u) == before.graph.deps(u)
        &&& forall|u: int|
            0 <= u < self.len() && (before.state(u) is Complete || before.state(u) is Failed || before.state(u) is Building)
                ==> #[trigger] self.state(u) == before.state(u)
        &&& forall|u: int|
            0 <= u < self.len() && before.state(u) is Ready ==> (#[trigger] self.state(u) is Ready || self.state(u) is Building
                || self.state(u) is Complete)
        &&& forall|u: int|
            0 <= u < self.len() && before.state(u) is Pending && (#[trigger] self.state(u)) is Failed
                ==> exists|j: int| self.failed_by(u, j)
        &&& forall|u: int|
            0 <= u < self.len() && !(before.state(u) is Complete) && (#[trigger] self.state(u)) is Complete
                ==> self.graph.cmds(u).len() == 0
    }

    /// One pass over the rules that the build needs: a `Pending` rule with
    /// a `Failed` prerequisite fails, and one whose prerequisites are all
    /// `Complete` becomes `Ready`. Says whether any rule changed; where
    /// none did, nothing is left to settle.
    fn settle_pass(&mut self) -> (changed: bool)
        requires
            old(self).wf(),
        ensures
            final(self).wf(),
            final(self).moved_on_from(*old(self)),
            final(self).next_command == old(self).next_command,
            final(self).building == old(self).building,
            forall|u: int| 0 <= u < final(self).len() && (#[trigger] final(self).state(u)) is Ready ==> old(self).state(u) is Ready
                || old(self).state(u) is Pending,
            forall|u: int| 0 <= u < final(self).len() && (#[trigger] final(self).state(u)) is Building ==> old(self).state(u) is Building,
            changed ==> weight_sum(final(self).graph.nodes@) < weight_sum(old(self).graph.nodes@),
            !changed ==> weight_sum(final(self).graph.nodes@) == weight_sum(old(self).graph.nodes@) && final(self).settled(),
    {
        let ghost start = *self;
        proof {
            lemma_moved_on_refl(start);
        }
        let n = self.graph.nodes.len();
        let mut changed = false;
        let mut t: usize = 0;
        while t < n
            invariant
                self.wf(),
                start.wf(),
                n == self.len(),
                self.moved_on_from(start),
                self.next_command == start.next_command,
                self.building == start.building,
                t <= n,
                forall|u: int| 0 <= u < n && (#[trigger] self.state(u)) is Ready ==> start.state(u) is Ready
                    || start.state(u) is Pending,
                forall|u: int| 0 <= u < n && (#[trigger] self.state(u)) is Building ==> start.state(u) is Building,
                changed ==> weight_sum(self.graph.nodes@) < weight_sum(start.graph.nodes@),
                !changed ==> self.graph.nodes@ == start.graph.nodes@,
                !changed ==> forall|u: int|
                    0 <= u < t && self.required@[u] && (#[trigger] self.state(u)) is Pending ==> !self.deps_complete(u)
                        && forall|j: int| 0 <= j < self.n_deps(u) ==> !((#[trigger] self.state(self.dep_at(u, j))) is Failed),
            decreases n - t,
        {
            if self.required[t] && matches!(self.graph.nodes[t].state, NodeStatus::Pending) {
                let mut all_complete = true;
                let mut failed: Option<usize> = None;
                let mut j: usize = 0;
                proof {
                    assert(self.graph.row_resolves(t as int, self.deps@[t as int]@));
                }
                while j < self.deps[t].len()
                    invariant
                        self.wf(),
                        n == self.len(),
                        t < n,
                        j <= self.n_deps(t as int),
                        all_complete == forall|b: int| 0 <= b < j ==> (#[trigger] self.state(self.dep_at(t as int, b))) is Complete,
                        failed is None ==> forall|b: int| 0 <= b < j ==> !((#[trigger] self.state(self.dep_at(t as int, b))) is Failed),
                        failed matches Some(f) ==> f < self.n_deps(t as int) && self.state(self.dep_at(t as int, f as int)) is Failed,
                    decreases self.n_deps(t as int) - j,
                {
                    let x = self.deps[t][j];
                    proof {
                        assert(self.graph.row_resolves(t as int, self.deps@[t as int]@));
                        assert(x == self.dep_at(t as int, j as int));
                    }
                    if !matches!(self.graph.nodes[x].state, NodeStatus::Complete) {
                        all_complete = false;
                        if matches!(self.graph.nodes[x].state, NodeStatus::Failed(_)) {
                            failed = Some(j);
                        }
                    }
                    proof {
                        let ghost jj = j as int;
                        if all_complete {
                            assert forall|b: int| 0 <= b < jj + 1 implies (#[trigger] self.state(self.dep_at(t as int, b))) is Complete by {
                                if b == jj {
                                    assert(self.state(x as int) is Complete);
                                }
                            }
                        } else {
                            if !(self.state(x as int) is Complete) {
                                assert(!(self.state(self.dep_at(t as int, jj)) is Complete));
                            }
                        }
                    }
                    j = j + 1;
                }
                match failed {
                    Some(f) => {
                        let x = self.deps[t][f];
                        proof {
                            assert(self.graph.row_resolves(t as int, self.deps@[t as int]@));
                        }
                        let reason = String::from_str("prerequisite ").concat(
                            self.graph.nodes[x].target.as_str(),
                        ).concat(" failed");
                        let ghost b = *self;
                        self.set_state(t, NodeStatus::Failed(reason));
                        proof {
                            lemma_one_rule_changed(b, *self, t as int);
                            assert(self.dep_at(t as int, f as int) != t as int);
                            assert(self.failed_by(t as int, f as int));
                            lemma_moved_on_step(start, b, *self, t as int);
                            lemma_weight_update(b.graph.nodes@, t as int, self.graph.nodes@[t as int]);
                        }
                        changed = true;
                    },
                    None => {
                        if all_complete {
                            let ghost b = *self;
                            self.set_state(t, NodeStatus::Ready);
                            proof {
                                assert forall|k: int| 0 <= k < self.n_deps(t as int) implies (#[trigger] self.state(self.dep_at(t as int, k))) is Complete by {
                                    assert(b.state(b.dep_at(t as int, k)) is Complete);
                                    assert(b.graph.row_resolves(t as int, b.deps@[t as int]@));
                                }
                                lemma_one_rule_changed(b, *self, t as int);
                                lemma_moved_on_step(start, b, *self, t as int);
                                lemma_weight_update(b.graph.nodes@, t as int, self.graph.nodes@[t as int]);
                            }
                            changed = true;
                        }
                    },
                }
            }
            t = t + 1;
        }
        changed
    }

    /// Settles the rules, completes at once the `Ready` rules that have no
    /// commands, and starts a `Ready` rule if fewer than `jobs` rules are
    /// `Building`: its first command is the job handed out. Returns `None`
    /// only when nothing is left to settle and no rule can start.
    pub fn next_job(&mut self) -> (r: Option<Job>)
        requires
            old(self).wf(),
        ensures
            final(self).wf(),
            final(self).moved_on_from(*old(self)),
            final(self).next_command@ == old(self).next_command@,
            r matches Some(job) ==> job.target < final(self).len() && job.command == 0
                && final(self).state(job.target as int) is Building
                && !(old(self).state(job.target as int) is Building)
                && final(self).graph.cmds(job.target as int).len() > 0
                && final(self).next_command@[job.target as int] == 0
                && final(self).building == old(self).building + 1,
            r matches Some(job) ==> forall|u: int|
                0 <= u < final(self).len() && u != job.target && (#[trigger] final(self).state(u)) is Building
                    ==> old(self).state(u) is Building,
            r is None ==> final(self).building == old(self).building,
            r is None ==> forall|u: int| 0 <= u < final(self).len() ==> !((#[trigger] final(self).state(u)) is Building)
                || old(self).state(u) is Building,
            r is None ==> final(self).settled(),
            r is None ==> forall|u: int|
                0 <= u < final(self).len() && (#[trigger] final(self).state(u)) is Ready
                    ==> final(self).graph.cmds(u).len() > 0 && final(self).building == final(self).graph.jobs,
    {
        let ghost start = *self;
        proof {
            lemma_moved_on_refl(start);
        }
        let n = self.graph.nodes.len();
        loop
            invariant
                start == *old(self),
                start.wf(),
                self.wf(),
                n == self.len(),
                self.moved_on_from(start),
                self.building == start.building,
                self.next_command == start.next_command,
                forall|u: int| 0 <= u < n && (#[trigger] self.state(u)) is Building ==> start.state(u) is Building,
            decreases weight_sum(self.graph.nodes@),
        {
            let ghost w0 = weight_sum(self.graph.nodes@);
            let ghost s_before = *self;
            let settle_changed = self.settle_pass();
            let ghost after_settle = *self;
            proof {
                lemma_moved_on_trans(start, s_before, after_settle);
                assert forall|u: int| 0 <= u < n && (#[trigger] self.state(u)) is Building implies start.state(u) is Building by {
                    assert(s_before.state(u) is Building);
                }
            }
            let mut scan_changed = false;
            let mut t: usize = 0;
            while t < n
                invariant
                    start == *old(self),
                    start.wf(),
                    self.wf(),
                    n == self.len(),
                    t <= n,
                    self.moved_on_from(start),
                    self.building == start.building,
                    self.next_command == start.next_command,
                    forall|u: int| 0 <= u < n && (#[trigger] self.state(u)) is Building ==> start.state(u) is Building,
                    weight_sum(self.graph.nodes@) <= weight_sum(after_settle.graph.nodes@),
                    settle_changed ==> weight_sum(after_settle.graph.nodes@) < w0,
                    !settle_changed ==> weight_sum(after_settle.graph.nodes@) == w0,
                    scan_changed ==> weight_sum(self.graph.nodes@) < weight_sum(after_settle.graph.nodes@),
                    !settle_changed && !scan_changed ==> self.settled(),
                    !scan_changed ==> self.graph.nodes@ == after_settle.graph.nodes@,
                    forall|u: int|
                        0 <= u < t && (#[trigger] self.state(u)) is Ready ==> self.graph.cmds(u).len() > 0
                            && self.building == self.graph.jobs,
                decreases n - t,
            {
                if matches!(self.graph.nodes[t].state, NodeStatus::Ready) {
                    if self.graph.nodes[t].commands.len() == 0 {
                        let ghost b = *self;
                        proof {
                            assert(b.graph.cmds(t as int).len() == 0);
                            assert(b.next_command@[t as int] == 0);
                        }
                        self.set_state(t, NodeStatus::Complete);
                        proof {
                            assert(b.deps_complete(t as int));
                            assert forall|k: int| 0 <= k < self.n_deps(t as int) implies (#[trigger] self.state(self.dep_at(t as int, k))) is Complete by {
                                assert(b.state(b.dep_at(t as int, k)) is Complete);
                                assert(b.graph.row_resolves(t as int, b.deps@[t as int]@));
                            }
                            lemma_one_rule_changed(b, *self, t as int);
                            lemma_moved_on_step(start, b, *self, t as int);
                            lemma_weight_update(b.graph.nodes@, t as int, self.graph.nodes@[t as int]);
                            assert forall|u: int|
                                0 <= u < t + 1 && (#[trigger] self.state(u)) is Ready implies self.graph.cmds(u).len() > 0
                                    && self.building == self.graph.jobs by {
                                assert(self.state(u) == b.state(u));
                            }
                            assert forall|u: int| 0 <= u < n && (#[trigger] self.state(u)) is Building implies start.state(u) is Building by {
                                assert(self.state(u) == b.state(u));
                            }
                        }
                        scan_changed = true;
                    } else if self.building < self.graph.jobs {
                        let ghost b = *self;
                        proof {
                            assert(b.graph.cmds(t as int).len() > 0);
                            assert(b.next_command@[t as int] == 0);
                        }
                        self.set_state(t, NodeStatus::Building);
                        self.building = self.building + 1;
                        proof {
                            assert(b.deps_complete(t as int));
                            assert forall|k: int| 0 <= k < self.n_deps(t as int) implies (#[trigger] self.state(self.dep_at(t as int, k))) is Complete by {
                                assert(b.state(b.dep_at(t as int, k)) is Complete);
                                assert(b.graph.row_resolves(t as int, b.deps@[t as int]@));
                            }
                            lemma_one_rule_changed(b, *self, t as int);
                            lemma_moved_on_step(start, b, *self, t as int);
                            assert(!(start.state(t as int) is Building)) by {
                                if start.state(t as int) is Building {
                                    assert(b.state(t as int) == start.state(t as int));
                                }
                            }
                            assert forall|u: int|
                                0 <= u < n && u != t && (#[trigger] self.state(u)) is Building implies start.state(u) is Building by {
                                assert(self.state(u) == b.state(u));
                            }
                        }
                        return Some(Job { target: t, command: 0 });
                    }
                }
                t = t + 1;
            }
            if !settle_changed && !scan_changed {
                return None;
            }
        }
    }
}

/// How far a state is from the end of settling: `Pending` counts two,
/// `Ready` one.
pub open spec fn weight(s: NodeStatus) -> nat {
    match s {
        NodeStatus::Pending => 2,
        NodeStatus::Ready => 1,
        _ => 0,
    }
}

pub open spec fn weight_sum(nodes: Seq<Node>) -> nat
    decreases nodes.len(),
{
    if nodes.len() == 0 {
        0
    } else {
        weight_sum(nodes.drop_last()) + weight(nodes.last().state)
    }
}

proof fn lemma_weight_update(nodes: Seq<Node>, t: int, x: Node)
    requires
        0 <= t < nodes.len(),
    ensures
        weight_sum(nodes.update(t, x)) + weight(nodes[t].state) == weight_sum(nodes) + weight(x.state),
    decreases nodes.len(),
{
    if t == nodes.len() - 1 {
        assert(nodes.update(t, x).drop_last() =~= nodes.drop_last());
    } else {
        assert(nodes.update(t, x).drop_last() =~= nodes.drop_last().update(t, x));
        lemma_weight_update(nodes.drop_last(), t, x);
    }
}

proof fn lemma_moved_on_refl(b: Build)
    ensures
        b.moved_on_from(b),
{
}

proof fn lemma_moved_on_trans(a: Build, b: Build, c: Build)
    requires
        b.moved_on_from(a),
        c.moved_on_from(b),
    ensures
        c.moved_on_from(a),
{
    assert forall|u: int|
        0 <= u < c.len() && a.state(u) is Pending && (#[trigger] c.state(u)) is Failed implies exists|j: int|
        c.failed_by(u, j) by {
        if b.state(u) is Failed {
            let j = choose|j: int| b.failed_by(u, j);
            assert(c.state(b.dep_at(u, j)) == b.state(b.dep_at(u, j)));
            assert(c.graph.target(c.dep_at(u, j)) == b.graph.target(b.dep_at(u, j)));
            assert(c.failed_by(u, j));
        }
    }
    assert forall|u: int|
        0 <= u < c.len() && !(a.state(u) is Complete) && (#[trigger] c.state(u)) is Complete implies c.graph.cmds(u).len()
        == 0 by {
        assert(c.graph.cmds(u) == b.graph.cmds(u));
    }
    assert forall|u: int|
        0 <= u < c.len() && a.state(u) is Ready implies (#[trigger] c.state(u) is Ready || c.state(u) is Building
        || c.state(u) is Complete) by {
        if b.state(u) is Building || b.state(u) is Complete {
            assert(c.state(u) == b.state(u));
        }
    }
}

proof fn lemma_moved_on_step(start: Build, b: Build, a: Build, t: int)
    requires
        b.moved_on_from(start),
        0 <= t < b.len(),
        a.len() == b.len(),
        a.graph.wf() == b.graph.wf(),
        a.graph.jobs == b.graph.jobs,
        a.graph.default_target == b.graph.default_target,
        a.deps == b.deps,
        a.required == b.required,
        forall|u: int| 0 <= u < a.len() ==> #[trigger] a.graph.cmds(u) == b.graph.cmds(u),
        forall|u: int| 0 <= u < a.len() ==> #[trigger] a.graph.target(u) == b.graph.target(u),
        forall|u: int| 0 <= u < a.len() ==> #[trigger] a.graph.deps(u) == b.graph.deps(u),
        forall|u: int| 0 <= u < a.len() && u != t ==> #[trigger] a.state(u) == b.state(u),
        (b.state(t) is Pending && (a.state(t) is Ready || (a.state(t) is Failed && exists|j: int| a.failed_by(t, j))))
            || (b.state(t) is Ready && (a.state(t) is Building || (a.state(t) is Complete && a.graph.cmds(t).len() == 0))),
    ensures
        a.moved_on_from(start),
{
    assert forall|u: int|
        0 <= u < a.len() && start.state(u) is Pending && (#[trigger] a.state(u)) is Failed implies exists|j: int|
        a.failed_by(u, j) by {
        if u != t {
            assert(b.state(u) is Failed);
            let j = choose|j: int| b.failed_by(u, j);
            let d = b.dep_at(u, j);
            if d == t {
                assert(b.state(t) is Failed);
            }
            assert(a.state(d) == b.state(d));
            assert(a.failed_by(u, j));
        } else {
            assert(b.state(t) is Pending || b.state(t) is Ready);
            if b.state(t) is Ready {
                assert(start.state(t) is Ready || start.state(t) is Pending);
            }
        }
    }
    assert forall|u: int|
        0 <= u < a.len() && (start.state(u) is Complete || start.state(u) is Failed || start.state(u) is Building)
            implies #[trigger] a.state(u) == start.state(u) by {
        if u == t {
            assert(b.state(t) == start.state(t));
        }
    }
    assert forall|u: int|
        0 <= u < a.len() && start.state(u) is Ready implies (#[trigger] a.state(u) is Ready || a.state(u) is Building
        || a.state(u) is Complete) by {
        if u == t {
            assert(b.state(t) is Ready || b.state(t) is Building || b.state(t) is Complete);
        }
    }
    assert forall|u: int|
        0 <= u < a.len() && !(start.state(u) is Complete) && (#[trigger] a.state(u)) is Complete implies a.graph.cmds(u).len()
        == 0 by {
        if u != t {
            assert(b.state(u) is Complete);
        }
    }
}

proof fn lemma_waits_on_move(g1: Graph, g2: Graph, x: Seq<char>, s: Set<Seq<char>>)
    requires
        g1.waits_on(x, s),
        g1.len() == g2.len(),
        forall|u: int| 0 <= u < g1.len() ==> #[trigger] g1.target(u) == g2.target(u),
        forall|u: int| 0 <= u < g1.len() ==> #[trigger] g1.deps(u) == g2.deps(u),
    ensures
        g2.waits_on(x, s),
{
    reveal(Graph::waits_on);
    let (i, j) = choose|i: int, j: int|
        0 <= i < g1.len() && g1.target(i) == x && 0 <= j < g1.deps(i).len() && s.contains(
            #[trigger] g1.deps(i)[j],
        );
    assert(g2.target(i) == x && g2.deps(i)[j] == g1.deps(i)[j]);
}

/// Graphs with the same targets and prerequisites have a cycle alike.
proof fn lemma_same_shape_cycle(g1: Graph, g2: Graph)
    requires
        g1.len() == g2.len(),
        forall|u: int| 0 <= u < g1.len() ==> #[trigger] g1.target(u) == g2.target(u),
        forall|u: int| 0 <= u < g1.len() ==> #[trigger] g1.deps(u) == g2.deps(u),
    ensures
        g1.has_cycle() == g2.has_cycle(),
{
    if g1.has_cycle() {
        let s = choose|s: Set<Seq<char>>| g1.is_stuck(s);
        assert forall|x: Seq<char>| #[trigger] s.contains(x) implies g2.waits_on(x, s) by {
            lemma_waits_on_move(g1, g2, x, s);
        }
        assert(g2.is_stuck(s));
    }
    if g2.has_cycle() {
        let s = choose|s: Set<Seq<char>>| g2.is_stuck(s);
        assert forall|x: Seq<char>| #[trigger] s.contains(x) implies g1.waits_on(x, s) by {
            lemma_waits_on_move(g2, g1, x, s);
        }
        assert(g1.is_stuck(s));
    }
}

/// A change of rule `t` alone keeps a build well formed when it keeps the
/// structure and leaves rule `t` itself in order.
proof fn lemma_one_rule_changed(before: Build, after: Build, t: int)
    requires
        before.wf(),
        0 <= t < before.len(),
        after.len() == before.len(),
        after.graph.wf(),
        after.graph.jobs == before.graph.jobs,
        after.deps == before.deps,
        after.required == before.required,
        after.next_command@.len() == before.len(),
        forall|u: int| 0 <= u < after.len() ==> #[trigger] after.graph.cmds(u) == before.graph.cmds(u),
        forall|u: int| 0 <= u < after.len() ==> #[trigger] after.graph.target(u) == before.graph.target(u),
        forall|u: int| 0 <= u < after.len() ==> #[trigger] after.graph.deps(u) == before.graph.deps(u),
        forall|u: int| 0 <= u < after.len() && u != t ==> #[trigger] after.state(u) == before.state(u),
        forall|u: int| 0 <= u < after.len() && u != t ==> #[trigger] after.next_command@[u] == before.next_command@[u],
        before.required@[t] || after.state(t) is Pending,
        before.state(t) is Complete ==> after.state(t) is Complete,
        (after.state(t) is Ready || after.state(t) is Building || after.state(t) is Complete)
            ==> after.deps_complete(t),
        ({
            let c = after.next_command@[t] as int;
            let m = after.graph.cmds(t).len() as int;
            &&& 0 <= c <= m
            &&& (after.state(t) is Pending || after.state(t) is Ready) ==> c == 0
            &&& after.state(t) is Building ==> c < m
            &&& after.state(t) is Complete ==> c == m
        }),
        after.within_cap(),
    ensures
        after.wf(),
{
    lemma_same_shape_cycle(before.graph, after.graph);
    assert forall|t: int, j: int|
        0 <= t < after.len() && after.required@[t] && 0 <= j < after.n_deps(t) implies after.required@[#[trigger] after.dep_at(
        t,
        j,
    )] by {
        assert(before.required@[before.dep_at(t, j)]);
    }
    assert forall|u: int| 0 <= u < after.len() implies after.graph.row_resolves(u, (#[trigger] after.deps@[u])@) by {
        assert(before.graph.row_resolves(u, before.deps@[u]@));
        assert(after.graph.deps(u) == before.graph.deps(u));
        assert forall|j: int| 0 <= j < after.deps@[u]@.len() implies after.deps@[u]@[j] < after.len()
            && after.graph.target(#[trigger] after.deps@[u]@[j] as int) == after.graph.deps(u)[j] by {
            assert(before.graph.target(before.deps@[u]@[j] as int) == before.graph.deps(u)[j]);
        }
    }
    assert forall|u: int| 0 <= u < after.len() && !#[trigger] after.required@[u] implies after.state(u) is Pending by {
        assert(!before.required@[u]);
    }
    assert forall|u: int|
        0 <= u < after.len() && (after.state(u) is Ready || after.state(u) is Building || after.state(
            u,
        ) is Complete) implies #[trigger] after.deps_complete(u) by {
        if u != t {
            assert(before.deps_complete(u));
            assert forall|j: int| 0 <= j < after.n_deps(u) implies (#[trigger] after.state(after.dep_at(u, j))) is Complete by {
                assert(before.state(before.dep_at(u, j)) is Complete);
                assert(before.dep_at(u, j) < before.len()) by {
                    assert(before.graph.row_resolves(u, before.deps@[u]@));
                }
            }
        }
    }
    assert forall|u: int| 0 <= u < after.len() implies {
        let c = #[trigger] after.next_command@[u] as int;
        let m = after.graph.cmds(u).len() as int;
        &&& 0 <= c <= m
        &&& (after.state(u) is Pending || after.state(u) is Ready) ==> c == 0
        &&& after.state(u) is Building ==> c < m
        &&& after.state(u) is Complete ==> c == m
    } by {
        if u != t {
            assert(before.next_command@[u] == after.next_command@[u]);
        }
    }
}

proof fn lemma_two_building(nodes: Seq<Node>, t: int, u: int)
    requires
        0 <= t < nodes.len(),
        0 <= u < nodes.len(),
        t != u,
        nodes[t].state is Building,
        nodes[u].state is Building,
    ensures
        building_count(nodes) >= 2,
    decreases nodes.len(),
{
    let l = nodes.len() - 1;
    if t == l || u == l {
        let v = if t == l {
            u
        } else {
            t
        };
        lemma_one_building(nodes.drop_last(), v);
    } else {
        lemma_two_building(nodes.drop_last(), t, u);
    }
}

proof fn lemma_one_building(nodes: Seq<Node>, t: int)
    requires
        0 <= t < nodes.len(),
        nodes[t].state is Building,
    ensures
        building_count(nodes) >= 1,
    decreases nodes.len(),
{
    if t < nodes.len() - 1 {
        lemma_one_building(nodes.drop_last(), t);
    }
}

/// At no time are more rules `Building` than the build allows; with one
/// job at a time, at most one rule is `Building`.
pub proof fn lemma_building_within_cap(b: Build)
    requires
        b.wf(),
    ensures
        building_count(b.graph.nodes@) <= b.graph.jobs,
        b.graph.jobs == 1 ==> forall|t: int, u: int|
            0 <= t < b.len() && 0 <= u < b.len() && (#[trigger] b.state(t)) is Building && (
            #[trigger] b.state(u)) is Building ==> t == u,
{
    if b.graph.jobs == 1 {
        assert forall|t: int, u: int|
            0 <= t < b.len() && 0 <= u < b.len() && (#[trigger] b.state(t)) is Building && (
            #[trigger] b.state(u)) is Building implies t == u by {
            if t != u {
                lemma_two_building(b.graph.nodes@, t, u);
            }
        }
    }
}

/// A rule is `Complete` only once each of its prerequisites is.
pub proof fn lemma_complete_after_prerequisites(b: Build, t: int, j: int)
    requires
        b.wf(),
        0 <= t < b.len(),
        0 <= j < b.graph.deps(t).len(),
        b.state(t) is Complete,
    ensures
        b.graph.target(b.dep_at(t, j)) == b.graph.deps(t)[j],
        b.state(b.dep_at(t, j)) is Complete,
{
    assert(b.deps_complete(t));
    assert(b.graph.row_resolves(t, b.deps@[t]@));
}

/// Two builds of the same targets over the same rules need the same rules;
/// when both succeed, each ran every command of every needed rule, so both
/// ran the same commands.
pub proof fn lemma_builds_agree(g: Graph, targets: Seq<Seq<char>>, b1: Build, b2: Build)
    requires
        b1.wf(),
        b2.wf(),
        b1.len() == g.len(),
        b2.len() == g.len(),
        forall|t: int| 0 <= t < g.len() ==> #[trigger] b1.graph.cmds(t) == g.cmds(t),
        forall|t: int| 0 <= t < g.len() ==> #[trigger] b2.graph.cmds(t) == g.cmds(t),
        forall|t: int|
            0 <= t < g.len() ==> (#[trigger] b1.required@[t] <==> g.is_required(
                requested_roots(g, targets),
                g.target(t),
            )),
        forall|t: int|
            0 <= t < g.len() ==> (#[trigger] b2.required@[t] <==> g.is_required(
                requested_roots(g, targets),
                g.target(t),
            )),
        forall|t: int| 0 <= t < g.len() && #[trigger] b1.required@[t] ==> b1.state(t) is Complete,
        forall|t: int| 0 <= t < g.len() && #[trigger] b2.required@[t] ==> b2.state(t) is Complete,
    ensures
        b1.required@ == b2.required@,
        forall|t: int|
            0 <= t < g.len() && #[trigger] b1.required@[t] ==> b1.next_command@[t] == g.cmds(t).len()
                && b2.next_command@[t] == g.cmds(t).len(),
{
    assert(b1.required@ =~= b2.required@) by {
        assert forall|t: int| 0 <= t < g.len() implies b1.required@[t] == b2.required@[t] by {
            assert(b1.required@[t] == g.is_required(requested_roots(g, targets), g.target(t)));
            assert(b2.required@[t] == g.is_required(requested_roots(g, targets), g.target(t)));
        }
    }
    assert forall|t: int| 0 <= t < g.len() && #[trigger] b1.required@[t] implies b1.next_command@[t]
        == g.cmds(t).len() && b2.next_command@[t] == g.cmds(t).len() by {
        assert(b1.commands_in_order());
        assert(b2.commands_in_order());
        assert(b2.required@[t]);
    }
}

proof fn lemma_waits_on_intro(g: Graph, x: Seq<char>, s: Set<Seq<char>>, i: int, j: int)
    requires
        0 <= i < g.len(),
        g.target(i) == x,
        0 <= j < g.deps(i).len(),
        s.contains(g.deps(i)[j]),
    ensures
        g.waits_on(x, s),
{
    reveal(Graph::waits_on);
}

/// A build that has nothing left to settle, no rule `Building` and no rule
/// `Ready` has finished: every rule it needs is `Complete` or `Failed`.
pub proof fn lemma_build_finished(b: Build)
    requires
        b.wf(),
        b.settled(),
        b.building == 0,
        forall|u: int| 0 <= u < b.len() ==> !((#[trigger] b.state(u)) is Ready),
    ensures
        forall|t: int|
            0 <= t < b.len() && #[trigger] b.required@[t] ==> b.state(t) is Complete || b.state(t) is Failed,
{
    assert forall|u: int| 0 <= u < b.len() implies !((#[trigger] b.state(u)) is Building) by {
        if b.state(u) is Building {
            lemma_one_building(b.graph.nodes@, u);
        }
    }
    let s = Set::new(|x: Seq<char>| exists|u: int| 0 <= u < b.len() && b.required@[u] && b.state(u) is Pending && b.graph.target(u) == x);
    if exists|t: int| 0 <= t < b.len() && b.required@[t] && !(b.state(t) is Complete || b.state(t) is Failed) {
        let t = choose|t: int| 0 <= t < b.len() && b.required@[t] && !(b.state(t) is Complete || b.state(t) is Failed);
        assert(b.state(t) is Pending);
        assert(s.contains(b.graph.target(t)));
        assert forall|x: Seq<char>| #[trigger] s.contains(x) implies b.graph.waits_on(x, s) by {
            let u = choose|u: int| 0 <= u < b.len() && b.required@[u] && b.state(u) is Pending && b.graph.target(u) == x;
            assert(!b.deps_complete(u));
            let j = choose|j: int| 0 <= j < b.n_deps(u) && !((#[trigger] b.state(b.dep_at(u, j))) is Complete);
            let d = b.dep_at(u, j);
            assert(b.graph.row_resolves(u, b.deps@[u]@));
            assert(!(b.state(d) is Failed));
            assert(b.required@[d]);
            assert(b.state(d) is Pending);
            assert(b.graph.target(d) == b.graph.deps(u)[j]);
            assert(s.contains(b.graph.target(d)));
            lemma_waits_on_intro(b.graph, x, s, u, j);
        }
        assert(b.graph.is_stuck(s));
    }
}

} // verus!
