use vstd::prelude::*;

use crate::graph::node::{Node, NodeStatus};
use crate::graph::{views, Graph};

verus! {

/// What the command line asks for.
pub struct Args {
    /// The rule file.
    pub file: String,
    /// The most targets that may build at one time.
    pub threads: u8,
    /// The targets to build; empty for the default target.
    pub targets: Vec<String>,
}

/// Why a rule file could not be read into the graph.
#[derive(Debug)]
pub enum ParseError {
    /// The file could not be read.
    Io { message: String },
    /// A line does not follow the grammar; `line` counts from 1.
    Syntax { line: usize, message: String },
    /// The rules depend on each other in a cycle.
    CircularDependency,
    /// A requested target has no rule.
    TargetNotFound { target: String },
}

/// The kinds of syntax error.
pub enum SyntaxKind {
    MissingColon,
    MissingTarget,
    CommentTarget,
    DuplicateTarget,
    CommandBeforeTarget,
}

pub open spec fn kind_message(k: SyntaxKind) -> Seq<char> {
    match k {
        SyntaxKind::MissingColon => "Rule missing colon"@,
        SyntaxKind::MissingTarget => "Rule missing target"@,
        SyntaxKind::CommentTarget => "Target starts with '#'"@,
        SyntaxKind::DuplicateTarget => "Duplicate target"@,
        SyntaxKind::CommandBeforeTarget => "Command before target"@,
    }
}

/// The whitespace of the grammar.
pub open spec fn is_ws(c: char) -> bool {
    c == ' ' || c == '\t' || c == '\n' || c == '\r' || c == '\x0B' || c == '\x0C'
}

fn is_space(c: char) -> (r: bool)
    ensures
        r == is_ws(c),
{
    c == ' ' || c == '\t' || c == '\n' || c == '\r' || c == '\x0B' || c == '\x0C'
}

/// The first `k` characters of `s` are whitespace, and the next is not.
pub open spec fn ws_prefix(s: Seq<char>, k: int) -> bool {
    &&& 0 <= k <= s.len()
    &&& forall|m: int| 0 <= m < k ==> is_ws(#[trigger] s[m])
    &&& k == s.len() || !is_ws(s[k])
}

/// The length of the leading whitespace of `s`.
pub open spec fn lead(s: Seq<char>) -> int {
    choose|k: int| ws_prefix(s, k)
}

/// `c` is the position of the first colon of `s`.
pub open spec fn colon_at(s: Seq<char>, c: int) -> bool {
    &&& 0 <= c < s.len()
    &&& s[c] == ':'
    &&& forall|m: int| 0 <= m < c ==> #[trigger] s[m] != ':'
}

/// The words of `s` that end before its end, and the word being read at its
/// end.
pub open spec fn words_acc(s: Seq<char>) -> (Seq<Seq<char>>, Seq<char>)
    decreases s.len(),
{
    if s.len() == 0 {
        (Seq::empty(), Seq::empty())
    } else {
        let (ws, cur) = words_acc(s.drop_last());
        if is_ws(s.last()) {
            if cur.len() > 0 {
                (ws.push(cur), Seq::empty())
            } else {
                (ws, Seq::empty())
            }
        } else {
            (ws, cur.push(s.last()))
        }
    }
}

/// The maximal runs of non-whitespace characters of `s`, in order.
pub open spec fn words(s: Seq<char>) -> Seq<Seq<char>> {
    let (ws, cur) = words_acc(s);
    if cur.len() > 0 {
        ws.push(cur)
    } else {
        ws
    }
}

fn split_words(s: &str) -> (r: Vec<String>)
    ensures
        views(r@) == words(s@),
{
    let n = s.unicode_len();
    let mut out: Vec<String> = Vec::new();
    let mut start: usize = 0;
    let mut in_word = false;
    let mut i: usize = 0;
    while i < n
        invariant
            n == s@.len(),
            i <= n,
            start <= i,
            in_word ==> start < i,
            words_acc(s@.take(i as int)).0 == views(out@),
            words_acc(s@.take(i as int)).1 == if in_word {
                s@.subrange(start as int, i as int)
            } else {
                Seq::empty()
            },
        decreases n - i,
    {
        let c = s.get_char(i);
        proof {
            assert(s@.take(i + 1).drop_last() =~= s@.take(i as int));
            assert(s@.take(i + 1).last() == c);
        }
        if is_space(c) {
            if in_word {
                let w = String::from_str(s.substring_char(start, i));
                let ghost o0 = out@;
                out.push(w);
                assert(views(out@) =~= views(o0).push(w@));
                in_word = false;
            }
        } else {
            if !in_word {
                start = i;
                in_word = true;
            }
            assert(s@.subrange(start as int, i + 1) =~= (if start == i {
                Seq::<char>::empty()
            } else {
                s@.subrange(start as int, i as int)
            }).push(c));
        }
        i = i + 1;
    }
    proof {
        assert(s@.take(n as int) =~= s@);
    }
    if in_word {
        let w = String::from_str(s.substring_char(start, n));
        let ghost o0 = out@;
        out.push(w);
        assert(views(out@) =~= views(o0).push(w@));
    }
    out
}

/// A rule as the grammar gives it.
pub struct RuleSpec {
    pub target: Seq<char>,
    pub deps: Seq<Seq<char>>,
    pub cmds: Seq<Seq<char>>,
}

/// What has been read so far: the rules, the position of the first rule of
/// the last header, and the first target read.
pub struct ParseState {
    pub rules: Seq<RuleSpec>,
    pub block: Option<int>,
    pub first: Option<Seq<char>>,
}

pub open spec fn rule_of(n: Node) -> RuleSpec {
    RuleSpec { target: n.target@, deps: views(n.dependencies@), cmds: views(n.commands@) }
}

pub open spec fn rules_of(nodes: Seq<Node>) -> Seq<RuleSpec> {
    nodes.map_values(|n: Node| rule_of(n))
}

pub open spec fn defined_in(rules: Seq<RuleSpec>, t: Seq<char>) -> bool {
    exists|i: int| 0 <= i < rules.len() && (#[trigger] rules[i]).target == t
}

/// The state before the first line, over the rules already there.
pub open spec fn start_state(rules: Seq<RuleSpec>) -> ParseState {
    ParseState { rules, block: None, first: None }
}

/// `body` added as the last command of each rule from position `b` on.
pub open spec fn add_command(st: ParseState, b: int, body: Seq<char>) -> ParseState {
    ParseState { rules: with_command(st.rules, b, body), block: st.block, first: st.first }
}

pub open spec fn with_command(rules: Seq<RuleSpec>, b: int, body: Seq<char>) -> Seq<RuleSpec> {
    Seq::new(rules.len(), |i: int| command_added(rules[i], i >= b, body))
}

pub open spec fn command_added(r: RuleSpec, add: bool, body: Seq<char>) -> RuleSpec {
    if add {
        RuleSpec { target: r.target, deps: r.deps, cmds: r.cmds.push(body) }
    } else {
        r
    }
}

pub open spec fn new_rule(t: Seq<char>, ps: Seq<Seq<char>>) -> RuleSpec {
    RuleSpec { target: t, deps: ps, cmds: Seq::empty() }
}

/// One rule for each target of a header, all with the prerequisites `ps`.
pub open spec fn header_rules(ts: Seq<Seq<char>>, ps: Seq<Seq<char>>) -> Seq<RuleSpec> {
    ts.map_values(|t: Seq<char>| new_rule(t, ps))
}

pub open spec fn add_header(st: ParseState, ts: Seq<Seq<char>>, ps: Seq<Seq<char>>) -> ParseState {
    ParseState {
        rules: st.rules + header_rules(ts, ps),
        block: Some(st.rules.len() as int),
        first: if st.first is None {
            Some(ts[0])
        } else {
            st.first
        },
    }
}

/// The command of a command line: one leading tab taken off, or all
/// leading whitespace where the line starts with a space.
pub open spec fn command_body(line: Seq<char>) -> Seq<char> {
    if line[0] == '\t' {
        line.drop_first()
    } else {
        line.skip(lead(line))
    }
}

/// The rule-file grammar, one line at a time.
pub open spec fn step(st: ParseState, line: Seq<char>) -> Result<ParseState, SyntaxKind> {
    let k = lead(line);
    if k == line.len() || line[k] == '#' {
        Ok(st)
    } else if line[0] == '\t' || line[0] == ' ' {
        match st.block {
            None => Err(SyntaxKind::CommandBeforeTarget),
            Some(b) => Ok(add_command(st, b, command_body(line))),
        }
    } else if !(exists|c: int| colon_at(line, c)) {
        Err(SyntaxKind::MissingColon)
    } else {
        let c = choose|c: int| colon_at(line, c);
        let ts = words(line.take(c));
        let ps = words(line.skip(c + 1));
        if ts.len() == 0 {
            Err(SyntaxKind::MissingTarget)
        } else if exists|a: int| 0 <= a < ts.len() && (#[trigger] ts[a])[0] == '#' {
            Err(SyntaxKind::CommentTarget)
        } else if !ts.no_duplicates() || exists|a: int|
            0 <= a < ts.len() && defined_in(st.rules, #[trigger] ts[a]) {
            Err(SyntaxKind::DuplicateTarget)
        } else {
            Ok(add_header(st, ts, ps))
        }
    }
}

/// The state after `lines`, or the number of the first bad line (from 1) and
/// what is wrong with it.
pub open spec fn parse_lines(st: ParseState, lines: Seq<Seq<char>>) -> Result<
    ParseState,
    (int, SyntaxKind),
>
    decreases lines.len(),
{
    if lines.len() == 0 {
        Ok(st)
    } else {
        match parse_lines(st, lines.drop_last()) {
            Err(e) => Err(e),
            Ok(s1) => match step(s1, lines.last()) {
                Ok(s2) => Ok(s2),
                Err(k) => Err((lines.len() as int, k)),
            },
        }
    }
}

/// No name of `ts` begins with `#`.
fn names_ok(ts: &Vec<String>) -> (r: bool)
    requires
        forall|a: int| 0 <= a < views(ts@).len() ==> (#[trigger] views(ts@)[a]).len() > 0,
    ensures
        r == !exists|a: int| 0 <= a < views(ts@).len() && (#[trigger] views(ts@)[a])[0] == '#',
{
    let mut a: usize = 0;
    while a < ts.len()
        invariant
            a <= ts@.len(),
            forall|b: int| 0 <= b < views(ts@).len() ==> (#[trigger] views(ts@)[b]).len() > 0,
            forall|b: int| 0 <= b < a ==> (#[trigger] views(ts@)[b])[0] != '#',
        decreases ts@.len() - a,
    {
        let name = ts[a].as_str();
        assert(views(ts@)[a as int] == name@);
        if name.get_char(0) == '#' {
            return false;
        }
        a = a + 1;
    }
    true
}

/// A copy of `v`.
pub(crate) fn copy_strings(v: &Vec<String>) -> (r: Vec<String>)
    ensures
        r@ == v@,
{
    let mut r: Vec<String> = Vec::new();
    let mut i: usize = 0;
    while i < v.len()
        invariant
            i <= v@.len(),
            r@ == v@.take(i as int),
        decreases v@.len() - i,
    {
        r.push(v[i].clone());
        i = i + 1;
        assert(r@ =~= v@.take(i as int));
    }
    assert(v@.take(v@.len() as int) =~= v@);
    r
}

fn syntax_error(line: usize, kind: SyntaxKind) -> (r: ParseError)
    ensures
        r matches ParseError::Syntax { line: l, message } && l == line && message@ == kind_message(
            kind,
        ),
{
    let text = match kind {
        SyntaxKind::MissingColon => "Rule missing colon",
        SyntaxKind::MissingTarget => "Rule missing target",
        SyntaxKind::CommentTarget => "Target starts with '#'",
        SyntaxKind::DuplicateTarget => "Duplicate target",
        SyntaxKind::CommandBeforeTarget => "Command before target",
    };
    ParseError::Syntax { line, message: String::from_str(text) }
}

pub(crate) proof fn lemma_ws_prefix_unique(s: Seq<char>, k: int)
    requires
        ws_prefix(s, k),
    ensures
        lead(s) == k,
{
    let l = lead(s);
    assert(ws_prefix(s, l));
    if l < k {
        assert(is_ws(s[l]));
    } else if k < l {
        assert(is_ws(s[k]));
    }
}

/// The length of the leading whitespace of `line`.
fn leading_ws(line: &str) -> (k: usize)
    ensures
        ws_prefix(line@, k as int),
        k == lead(line@),
{
    let n = line.unicode_len();
    let mut k: usize = 0;
    while k < n && is_space(line.get_char(k))
        invariant
            n == line@.len(),
            k <= n,
            forall|m: int| 0 <= m < k ==> is_ws(#[trigger] line@[m]),
        decreases n - k,
    {
        k = k + 1;
    }
    proof {
        lemma_ws_prefix_unique(line@, k as int);
    }
    k
}

/// The position of the first colon of `line`, if it has one.
fn first_colon(line: &str) -> (r: Option<usize>)
    ensures
        r is None <==> !(exists|c: int| colon_at(line@, c)),
        r matches Some(c) ==> colon_at(line@, c as int) && c == (choose|c: int| colon_at(line@, c)),
{
    let n = line.unicode_len();
    let mut c: usize = 0;
    while c < n
        invariant
            n == line@.len(),
            c <= n,
            forall|m: int| 0 <= m < c ==> #[trigger] line@[m] != ':',
        decreases n - c,
    {
        if line.get_char(c) == ':' {
            proof {
                assert(colon_at(line@, c as int));
                let d = choose|d: int| colon_at(line@, d);
                if d < c {
                    assert(line@[d] != ':');
                } else if c < d {
                    assert(line@[c as int] != ':');
                }
            }
            return Some(c);
        }
        c = c + 1;
    }
    None
}

impl Graph {
    /// `rules_of` over this graph's nodes.
    pub open spec fn rules(&self) -> Seq<RuleSpec> {
        rules_of(self.nodes@)
    }

    /// Adds `body` as the last command of each rule from position `b` on.
    fn push_command_from(&mut self, b: usize, body: &String)
        requires
            b <= old(self).len(),
        ensures
            final(self).rules() == add_command(start_state(old(self).rules()), b as int, body@).rules,
            final(self).len() == old(self).len(),
            forall|i: int| 0 <= i < old(self).len() ==> #[trigger] final(self).target(i) == old(self).target(i),
            forall|i: int| 0 <= i < b ==> #[trigger] final(self).nodes@[i] == old(self).nodes@[i],
            forall|i: int|
                0 <= i < old(self).len() ==> (#[trigger] final(self).nodes@[i]).state == old(self).nodes@[i].state
                    && final(self).nodes@[i].output == old(self).nodes@[i].output
                    && final(self).nodes@[i].target == old(self).nodes@[i].target,
            final(self).jobs == old(self).jobs,
            final(self).default_target == old(self).default_target,
    {
        let ghost start = *self;
        let ghost want = with_command(start.rules(), b as int, body@);
        let mut j: usize = b;
        while j < self.nodes.len()
            invariant
                b <= j <= self.len(),
                self.len() == start.len(),
                self.jobs == start.jobs,
                self.default_target == start.default_target,
                want == with_command(start.rules(), b as int, body@),
                want.len() == start.len(),
                forall|i: int| 0 <= i < j ==> #[trigger] rule_of(self.nodes@[i]) == want[i],
                forall|i: int| j <= i < self.len() ==> #[trigger] self.nodes@[i] == start.nodes@[i],
                forall|i: int| 0 <= i < b ==> #[trigger] self.nodes@[i] == start.nodes@[i],
                forall|i: int| 0 <= i < self.len() ==> #[trigger] self.target(i) == start.target(i),
                forall|i: int|
                    0 <= i < self.len() ==> (#[trigger] self.nodes@[i]).state == start.nodes@[i].state
                        && self.nodes@[i].output == start.nodes@[i].output
                        && self.nodes@[i].target == start.nodes@[i].target,
            decreases self.len() - j,
        {
            let ghost n0 = self.nodes@[j as int];
            let ghost s0 = self.nodes@;
            let ghost g0 = *self;
            let copy = body.clone();
            self.nodes[j].commands.push(copy);
            proof {
                let n1 = self.nodes@[j as int];
                assert(n1.target == n0.target);
                assert(n1.dependencies == n0.dependencies);
                assert(n1.commands@ == n0.commands@.push(copy));
                assert(views(n1.commands@) =~= views(n0.commands@).push(body@));
                assert(n0 == start.nodes@[j as int]);
                assert(start.rules()[j as int] == rule_of(n0));
                assert(j >= b);
                assert(want[j as int] == command_added(start.rules()[j as int], true, body@));
                assert(want[j as int] == RuleSpec {
                    target: rule_of(n0).target,
                    deps: rule_of(n0).deps,
                    cmds: rule_of(n0).cmds.push(body@),
                });
                assert(rule_of(n1) == want[j as int]);
                assert(self.target(j as int) == start.target(j as int));
                assert forall|i: int| 0 <= i < self.len() && i != j implies #[trigger] self.nodes@[i] == s0[i] by {}
                assert forall|i: int| 0 <= i < self.len() implies #[trigger] self.target(i) == start.target(i) by {
                    assert(g0.target(i) == start.target(i));
                    if i != j {
                        assert(self.nodes@[i] == s0[i]);
                    }
                }
            }
            j = j + 1;
        }
        proof {
            assert(self.rules() =~= want);
        }
    }

    /// Adds one rule for each target of `ts`, each with the prerequisites
    /// `ps`; adds nothing where a target is already defined or named twice.
    fn push_header(&mut self, ts: &Vec<String>, ps: &Vec<String>) -> (r: bool)
        requires
            old(self).wf(),
        ensures
            final(self).wf(),
            final(self).jobs == old(self).jobs,
            final(self).default_target == old(self).default_target,
            r == (views(ts@).no_duplicates() && !exists|a: int|
                0 <= a < views(ts@).len() && defined_in(old(self).rules(), #[trigger] views(ts@)[a])),
            r ==> final(self).rules() == old(self).rules() + header_rules(views(ts@), views(ps@)),
            r ==> final(self).nodes@.take(old(self).len() as int) == old(self).nodes@,
            r ==> final(self).len() == old(self).len() + ts@.len(),
            r ==> forall|i: int|
                old(self).len() <= i < final(self).len() ==> (#[trigger] final(self).nodes@[i]).state is Pending
                    && final(self).nodes@[i].output == Some(final(self).nodes@[i].target),
            !r ==> final(self).nodes@ == old(self).nodes@,
    {
        let ghost start = *self;
        let ghost tv = views(ts@);
        let ghost hr = header_rules(tv, views(ps@));
        let base = self.nodes.len();
        let mut a: usize = 0;
        while a < ts.len()
            invariant
                start == *old(self),
                start.wf(),
                self.wf(),
                self.jobs == start.jobs,
                self.default_target == start.default_target,
                base == start.len(),
                a <= ts@.len(),
                tv == views(ts@),
                hr == header_rules(tv, views(ps@)),
                self.len() == base + a,
                self.nodes@.take(base as int) == start.nodes@,
                self.rules() == start.rules() + hr.take(a as int),
                forall|k: int| 0 <= k < a ==> !defined_in(start.rules(), #[trigger] tv[k]),
                forall|i: int|
                    base <= i < self.len() ==> (#[trigger] self.nodes@[i]).state is Pending
                        && self.nodes@[i].output == Some(self.nodes@[i].target),
                tv.take(a as int).no_duplicates(),
            decreases ts@.len() - a,
        {
            let mut node = Node::new(ts[a].clone());
            node.dependencies = copy_strings(ps);
            node.output = Some(ts[a].clone());
            let ghost before = *self;
            let ghost nd = node;
            match self.add_node(node) {
                Ok(()) => {
                    proof {
                        assert(nd.state is Pending && nd.output == Some(nd.target));
                        assert forall|i: int|
                            base <= i < self.len() implies (#[trigger] self.nodes@[i]).state is Pending
                                && self.nodes@[i].output == Some(self.nodes@[i].target) by {
                            if i < before.len() {
                                assert(self.nodes@[i] == before.nodes@[i]);
                            } else {
                                assert(self.nodes@[i] == nd);
                            }
                        }
                        assert(self.nodes@.take(base as int) =~= start.nodes@) by {
                            assert(self.nodes@.take(base as int) =~= before.nodes@.take(base as int));
                        }
                        assert(views(node.commands@) =~= Seq::<Seq<char>>::empty());
                        assert(tv[a as int] == ts@[a as int]@);
                        assert(hr[a as int] == new_rule(tv[a as int], views(ps@)));
                        assert(rule_of(node) == hr[a as int]);
                        assert(self.rules() =~= before.rules().push(rule_of(node)));
                        assert(hr.take(a + 1) =~= hr.take(a as int).push(hr[a as int]));
                        assert(self.rules() =~= start.rules() + hr.take(a + 1));
                        assert(!defined_in(start.rules(), tv[a as int])) by {
                            if defined_in(start.rules(), tv[a as int]) {
                                let i = choose|i: int| 0 <= i < start.rules().len() && (#[trigger] start.rules()[i]).target == tv[a as int];
                                assert(before.rules()[i] == start.rules()[i]);
                                assert(before.target(i) == tv[a as int]);
                            }
                        }
                        assert forall|x: int, y: int| 0 <= x < a + 1 && 0 <= y < a + 1 && x != y implies #[trigger] tv[x] != #[trigger] tv[y] by {
                            if y == a || x == a {
                                let z = if y == a { x } else { y };
                                let i = base + z;
                                assert(before.rules()[i] == hr.take(a as int)[z]);
                                assert(before.rules()[i].target == before.target(i));
                                assert(before.target(i) == tv[z]);
                            } else {
                                assert(tv.take(a as int)[x] != tv.take(a as int)[y]);
                            }
                        }
                        assert(tv.take(a + 1).no_duplicates());
                    }
                },
                Err(_) => {
                    proof {
                        let i = choose|i: int| 0 <= i < before.len() && before.target(i) == tv[a as int];
                        assert(before.rules()[i].target == before.target(i));
                        if i < base {
                            assert(start.rules()[i] == before.rules()[i]);
                            assert(defined_in(start.rules(), tv[a as int]));
                        } else {
                            let x = i - base;
                            assert(before.rules()[i] == hr.take(a as int)[x]);
                            assert(tv[x] == tv[a as int]);
                            assert(!tv.no_duplicates());
                        }
                    }
                    self.nodes.truncate(base);
                    proof {
                        assert(self.nodes@ =~= start.nodes@);
                        assert forall|i: int, j: int|
                            0 <= i < self.len() && 0 <= j < self.len() && i != j implies self.target(i)
                            != self.target(j) by {
                            assert(start.target(i) != start.target(j));
                        }
                    }
                    return false;
                },
            }
            a = a + 1;
        }
        proof {
            assert(hr.take(a as int) =~= hr);
            assert(tv.take(a as int) =~= tv);
        }
        true
    }

    /// Drops the rules from position `base` on.
    fn truncate_rules(&mut self, base: usize)
        requires
            old(self).wf(),
            base <= old(self).len(),
        ensures
            final(self).wf(),
            final(self).nodes@ == old(self).nodes@.take(base as int),
            final(self).jobs == old(self).jobs,
            final(self).default_target == old(self).default_target,
    {
        let ghost before = *self;
        self.nodes.truncate(base);
        proof {
            assert(self.nodes@ =~= before.nodes@.take(base as int));
            assert forall|i: int, j: int|
                0 <= i < self.len() && 0 <= j < self.len() && i != j implies self.target(i)
                != self.target(j) by {
                assert(before.target(i) != before.target(j));
            }
        }
    }

    /// Reads the rules of a rule file, given as its lines, into the graph,
    /// and makes the first target read the default target. On a syntax
    /// error the rules stay as they were.
    pub fn parse_makefile(&mut self, lines: &Vec<String>) -> (r: Result<(), ParseError>)
        requires
            old(self).wf(),
        ensures
            final(self).wf(),
            final(self).jobs == old(self).jobs,
            match parse_lines(start_state(old(self).rules()), views(lines@)) {
                Ok(st) => r is Ok && final(self).rules() == st.rules
                    && final(self).nodes@.take(old(self).len() as int) == old(self).nodes@
                    && (forall|i: int|
                    old(self).len() <= i < final(self).len() ==> (#[trigger] final(self).nodes@[i]).state is Pending
                        && final(self).nodes@[i].output == Some(final(self).nodes@[i].target))
                    && final(self).default_target@ == match st.first {
                    Some(f) => f,
                    None => old(self).default_target@,
                },
                Err(e) => final(self).nodes@ == old(self).nodes@ && final(self).default_target
                    == old(self).default_target && (r matches Err(
                    ParseError::Syntax { line, message },
                ) && line == e.0 && message@ == kind_message(e.1)),
            },
    {
        let ghost start = *self;
        let ghost init = start_state(start.rules());
        let ghost lv = views(lines@);
        let base = self.nodes.len();
        let mut block: Option<usize> = None;
        let mut first: Option<String> = None;
        let mut i: usize = 0;
        while i < lines.len()
            invariant
                start == *old(self),
                start.wf(),
                init == start_state(start.rules()),
                lv == views(lines@),
                base == start.len(),
                i <= lines@.len(),
                self.wf(),
                self.jobs == start.jobs,
                self.default_target == start.default_target,
                self.len() >= base,
                self.nodes@.take(base as int) == start.nodes@,
                block matches Some(b) ==> base <= b <= self.len(),
                forall|i: int|
                    base <= i < self.len() ==> (#[trigger] self.nodes@[i]).state is Pending
                        && self.nodes@[i].output == Some(self.nodes@[i].target),
                parse_lines(init, lv.take(i as int)) == Ok::<ParseState, (int, SyntaxKind)>(
                    ParseState {
                        rules: self.rules(),
                        block: opt_int(block),
                        first: opt_view(first),
                    },
                ),
            decreases lines@.len() - i,
        {
            let line: &str = lines[i].as_str();
            let ghost st = ParseState {
                rules: self.rules(),
                block: opt_int(block),
                first: opt_view(first),
            };
            proof {
                assert(lv.take(i + 1).drop_last() =~= lv.take(i as int));
                assert(lv.take(i + 1).last() == line@);
            }
            let n = line.unicode_len();
            let k = leading_ws(line);
            if k == n || line.get_char(k) == '#' {
            } else {
                let c0 = line.get_char(0);
                if c0 == '\t' || c0 == ' ' {
                    match block {
                        None => {
                            self.truncate_rules(base);
                            proof {
                                lemma_parse_error_stays(init, lv, i + 1);
                                assert(lv.take(lv.len() as int) =~= lv);
                            }
                            return Err(syntax_error(i + 1, SyntaxKind::CommandBeforeTarget));
                        },
                        Some(b) => {
                            let body = if c0 == '\t' {
                                String::from_str(line.substring_char(1, n))
                            } else {
                                String::from_str(line.substring_char(k, n))
                            };
                            proof {
                                assert(line@.drop_first() =~= line@.subrange(1, n as int));
                                assert(line@.skip(k as int) =~= line@.subrange(k as int, n as int));
                                assert(body@ == command_body(line@));
                            }
                            let ghost g0 = *self;
                            self.push_command_from(b, &body);
                            proof {
                                assert forall|x: int|
                                    base <= x < self.len() implies (#[trigger] self.nodes@[x]).state is Pending
                                        && self.nodes@[x].output == Some(self.nodes@[x].target) by {
                                    assert(g0.nodes@[x].state is Pending);
                                }
                                assert(self.nodes@.take(base as int) =~= g0.nodes@.take(base as int)) by {
                                    assert forall|x: int| 0 <= x < base implies self.nodes@[x] == g0.nodes@[x] by {}
                                }
                                assert forall|x: int, y: int|
                                    0 <= x < self.len() && 0 <= y < self.len() && x != y implies self.target(x)
                                    != self.target(y) by {
                                    assert(g0.target(x) != g0.target(y));
                                }
                            }
                        },
                    }
                } else {
                    match first_colon(line) {
                        None => {
                            self.truncate_rules(base);
                            proof {
                                lemma_parse_error_stays(init, lv, i + 1);
                                assert(lv.take(lv.len() as int) =~= lv);
                            }
                            return Err(syntax_error(i + 1, SyntaxKind::MissingColon));
                        },
                        Some(c) => {
                            let ts = split_words(line.substring_char(0, c));
                            let ps = split_words(line.substring_char(c + 1, n));
                            proof {
                                assert(line@.subrange(0, c as int) =~= line@.take(c as int));
                                assert(line@.subrange(c + 1, n as int) =~= line@.skip(c + 1));
                            }
                            if ts.len() == 0 {
                                self.truncate_rules(base);
                                proof {
                                    lemma_parse_error_stays(init, lv, i + 1);
                                    assert(lv.take(lv.len() as int) =~= lv);
                                }
                                return Err(syntax_error(i + 1, SyntaxKind::MissingTarget));
                            }
                            proof {
                                crate::writer::lemma_words_shape(line@.take(c as int));
                                assert forall|a: int| 0 <= a < views(ts@).len() implies (#[trigger] views(ts@)[a]).len() > 0 by {
                                    assert(crate::writer::is_word(views(ts@)[a]));
                                }
                            }
                            if !names_ok(&ts) {
                                self.truncate_rules(base);
                                proof {
                                    lemma_parse_error_stays(init, lv, i + 1);
                                    assert(lv.take(lv.len() as int) =~= lv);
                                }
                                return Err(syntax_error(i + 1, SyntaxKind::CommentTarget));
                            }
                            let bstart = self.nodes.len();
                            let ghost g0 = *self;
                            if !self.push_header(&ts, &ps) {
                                self.truncate_rules(base);
                                proof {
                                    lemma_parse_error_stays(init, lv, i + 1);
                                    assert(lv.take(lv.len() as int) =~= lv);
                                }
                                return Err(syntax_error(i + 1, SyntaxKind::DuplicateTarget));
                            }
                            proof {
                                assert forall|x: int|
                                    base <= x < self.len() implies (#[trigger] self.nodes@[x]).state is Pending
                                        && self.nodes@[x].output == Some(self.nodes@[x].target) by {
                                    if x < bstart {
                                        assert(self.nodes@.take(bstart as int)[x] == g0.nodes@[x]);
                                        assert(g0.nodes@[x].state is Pending);
                                    }
                                }
                                assert(self.nodes@.take(base as int) =~= g0.nodes@.take(base as int)) by {
                                    assert(self.rules().len() == self.len());
                                    assert(g0.rules().len() == g0.len());
                                    assert(self.len() >= g0.len());
                                    assert forall|x: int| 0 <= x < base implies self.nodes@[x] == g0.nodes@[x] by {
                                        assert(self.nodes@.take(bstart as int)[x] == g0.nodes@[x]);
                                    }
                                }
                            }
                            block = Some(bstart);
                            if first.is_none() {
                                first = Some(ts[0].clone());
                            }
                        },
                    }
                }
            }
            i = i + 1;
        }
        proof {
            assert(lv.take(lines@.len() as int) =~= lv);
        }
        let ghost g1 = *self;
        match first {
            Some(f) => {
                self.default_target = f;
            },
            None => {},
        }
        proof {
            assert forall|x: int, y: int|
                0 <= x < self.len() && 0 <= y < self.len() && x != y implies self.target(x)
                != self.target(y) by {
                assert(g1.target(x) != g1.target(y));
            }
        }
        Ok(())
    }
}

pub open spec fn opt_int(o: Option<usize>) -> Option<int> {
    match o {
        Some(b) => Some(b as int),
        None => None,
    }
}

pub open spec fn opt_view(o: Option<String>) -> Option<Seq<char>> {
    match o {
        Some(f) => Some(f@),
        None => None,
    }
}

/// Once a prefix of the lines fails, every longer prefix fails the same way.
proof fn lemma_parse_error_stays(init: ParseState, lv: Seq<Seq<char>>, m: int)
    requires
        0 <= m <= lv.len(),
        parse_lines(init, lv.take(m)) is Err,
    ensures
        parse_lines(init, lv) == parse_lines(init, lv.take(m)),
    decreases lv.len() - m,
{
    if m < lv.len() {
        assert(lv.take(m + 1).drop_last() =~= lv.take(m));
        lemma_parse_error_stays(init, lv, m + 1);
    } else {
        assert(lv.take(m) =~= lv);
    }
}

/// The first rule read names the first target; there is a first target
/// exactly when some rule was read.
pub open spec fn first_is_first_rule(st: ParseState) -> bool {
    &&& (st.first is None <==> st.rules.len() == 0)
    &&& st.first matches Some(f) ==> st.rules.len() > 0 && st.rules[0].target == f
}

/// Read from an empty graph, the default target is the target of the first
/// rule block, and there is one exactly when the file defines a rule.
pub proof fn lemma_default_target(lines: Seq<Seq<char>>)
    ensures
        parse_lines(start_state(Seq::empty()), lines) matches Ok(st) ==> first_is_first_rule(st) && (
        st.first matches Some(f) ==> f.len() > 0),
    decreases lines.len(),
{
    crate::writer::lemma_parse_shape(lines);
    lemma_first_target(lines);
    if let Ok(st) = parse_lines(start_state(Seq::empty()), lines) {
        if st.first is Some {
            assert(crate::writer::is_word(st.rules[0].target));
        }
    }
}

proof fn lemma_first_target(lines: Seq<Seq<char>>)
    ensures
        parse_lines(start_state(Seq::empty()), lines) matches Ok(st) ==> first_is_first_rule(st),
    decreases lines.len(),
{
    if lines.len() > 0 {
        lemma_first_target(lines.drop_last());
        match parse_lines(start_state(Seq::empty()), lines.drop_last()) {
            Ok(s1) => {
                let line = lines.last();
                match step(s1, line) {
                    Ok(s2) => {
                        let k = lead(line);
                        if k == line.len() || line[k] == '#' {
                        } else if line[0] == '\t' || line[0] == ' ' {
                            if let Some(b) = s1.block {
                                let body = command_body(line);
                                assert(s2.rules == with_command(s1.rules, b, body));
                                if s2.rules.len() > 0 {
                                    assert(s2.rules[0] == command_added(s1.rules[0], 0 >= b, body));
                                }
                            }
                        } else {
                            let c = choose|c: int| colon_at(line, c);
                            let ts = words(line.take(c));
                            let ps = words(line.skip(c + 1));
                            assert(s2 == add_header(s1, ts, ps));
                            if s1.first is None {
                                assert(s2.rules[0] == header_rules(ts, ps)[0]);
                            } else {
                                assert(s2.rules[0] == s1.rules[0]);
                            }
                        }
                    },
                    Err(_) => {},
                }
            },
            Err(_) => {},
        }
    }
}

} // verus!
