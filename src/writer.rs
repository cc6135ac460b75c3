use vstd::prelude::*;

use crate::graph::{views, Graph};
use crate::parser::{
    add_command, add_header, colon_at, command_body, defined_in, is_ws, lead, new_rule,
    parse_lines, start_state, step, with_command, words, words_acc, ws_prefix, ParseState,
    RuleSpec,
};

verus! {

impl Graph {
    /// The rule file that writes out this graph: for each rule in order, a
    /// header `target:` with each prerequisite after one space, then each
    /// command after a tab.
    pub fn to_lines(&self) -> (r: Vec<String>)
        ensures
            views(r@) == canonical_lines(self.rules()),
    {
        let ghost rules = self.rules();
        let mut out: Vec<String> = Vec::new();
        let mut i: usize = 0;
        while i < self.nodes.len()
            invariant
                rules == self.rules(),
                i <= rules.len(),
                views(out@) == canonical_lines(rules.take(i as int)),
            decreases rules.len() - i,
        {
            let node = &self.nodes[i];
            let ghost r = rules[i as int];
            proof {
                assert(r.target == node.target@);
                assert(r.deps == views(node.dependencies@));
                assert(r.cmds == views(node.commands@));
                reveal_strlit(":");
                reveal_strlit(" ");
                reveal_strlit("\t");
            }
            let mut h = node.target.clone().concat(":");
            let mut j: usize = 0;
            while j < node.dependencies.len()
                invariant
                    r.deps == views(node.dependencies@),
                    j <= r.deps.len(),
                    h@ == r.target.push(':') + join_deps(r.deps.take(j as int)),
                decreases r.deps.len() - j,
            {
                proof {
                    reveal_strlit(" ");
                    assert(r.deps.take(j + 1).drop_last() =~= r.deps.take(j as int));
                    assert(r.deps.take(j + 1).last() == node.dependencies@[j as int]@);
                }
                h = h.concat(" ").concat(node.dependencies[j].as_str());
                proof {
                    assert(h@ =~= r.target.push(':') + join_deps(r.deps.take(j + 1)));
                }
                j = j + 1;
            }
            proof {
                assert(r.deps.take(r.deps.len() as int) =~= r.deps);
            }
            let ghost o0 = views(out@);
            out.push(h);
            proof {
                assert(views(out@) =~= o0.push(header_line(r)));
            }
            let mut k: usize = 0;
            while k < node.commands.len()
                invariant
                    r.cmds == views(node.commands@),
                    k <= r.cmds.len(),
                    views(out@) == o0.push(header_line(r)) + command_lines(r.cmds.take(k as int)),
                decreases r.cmds.len() - k,
            {
                proof {
                    reveal_strlit("\t");
                }
                let line = String::from_str("\t").concat(node.commands[k].as_str());
                let ghost o1 = views(out@);
                out.push(line);
                proof {
                    assert(command_lines(r.cmds.take(k + 1)) =~= command_lines(r.cmds.take(k as int)).push(
                        seq!['\t'] + r.cmds[k as int],
                    ));
                    assert(views(out@) =~= o1.push(line@));
                    assert(line@ =~= seq!['\t'] + r.cmds[k as int]);
                }
                k = k + 1;
            }
            proof {
                assert(r.cmds.take(r.cmds.len() as int) =~= r.cmds);
                assert(rules.take(i + 1).drop_last() =~= rules.take(i as int));
                assert(rules.take(i + 1).last() == r);
            }
            i = i + 1;
        }
        proof {
            assert(rules.take(rules.len() as int) =~= rules);
        }
        out
    }
}

/// The prerequisites of a header, each after one space.
pub open spec fn join_deps(ds: Seq<Seq<char>>) -> Seq<char>
    decreases ds.len(),
{
    if ds.len() == 0 {
        Seq::empty()
    } else {
        join_deps(ds.drop_last()).push(' ') + ds.last()
    }
}

/// The header line of a rule: `target:` and its prerequisites.
pub open spec fn header_line(r: RuleSpec) -> Seq<char> {
    r.target.push(':') + join_deps(r.deps)
}

/// The command lines of a rule: each command after a tab.
pub open spec fn command_lines(cs: Seq<Seq<char>>) -> Seq<Seq<char>> {
    cs.map_values(|c: Seq<char>| seq!['\t'] + c)
}

/// The rule file that writes out `rules` in order, one block per rule.
pub open spec fn canonical_lines(rules: Seq<RuleSpec>) -> Seq<Seq<char>>
    decreases rules.len(),
{
    if rules.len() == 0 {
        Seq::empty()
    } else {
        canonical_lines(rules.drop_last()).push(header_line(rules.last())) + command_lines(
            rules.last().cmds,
        )
    }
}

/// A word: not empty, no whitespace.
pub open spec fn is_word(s: Seq<char>) -> bool {
    s.len() > 0 && forall|k: int| 0 <= k < s.len() ==> !is_ws(#[trigger] s[k])
}

/// A target that a header line can name first.
pub open spec fn is_target_name(s: Seq<char>) -> bool {
    is_word(s) && s[0] != '#' && forall|k: int| 0 <= k < s.len() ==> #[trigger] s[k] != ':'
}

/// A command that a command line can carry: it holds a character that is
/// not whitespace, and the first such is not `#`.
pub open spec fn is_command_text(c: Seq<char>) -> bool {
    lead(c) < c.len() && c[lead(c)] != '#'
}

/// Rules that the canonical file writes out faithfully.
pub open spec fn canonical_rules(rules: Seq<RuleSpec>) -> bool {
    &&& forall|i: int| 0 <= i < rules.len() ==> is_target_name(#[trigger] rules[i].target)
    &&& forall|i: int, j: int|
        0 <= i < rules.len() && 0 <= j < rules[i].deps.len() ==> is_word(#[trigger] rules[i].deps[j])
    &&& forall|i: int, j: int|
        0 <= i < rules.len() && 0 <= j < rules[i].cmds.len() ==> is_command_text(
            #[trigger] rules[i].cmds[j],
        )
    &&& forall|i: int, j: int|
        0 <= i < j < rules.len() ==> #[trigger] rules[i].target != #[trigger] rules[j].target
}

proof fn lemma_parse_concat(st: ParseState, a: Seq<Seq<char>>, b: Seq<Seq<char>>, s1: ParseState)
    requires
        parse_lines(st, a) == Ok::<ParseState, (int, crate::parser::SyntaxKind)>(s1),
    ensures
        parse_lines(st, a + b) == match parse_lines(s1, b) {
            Ok(s2) => Ok(s2),
            Err(e) => Err((e.0 + a.len(), e.1)),
        },
    decreases b.len(),
{
    if b.len() == 0 {
        assert(a + b =~= a);
    } else {
        assert((a + b).drop_last() =~= a + b.drop_last());
        lemma_parse_concat(st, a, b.drop_last(), s1);
    }
}

proof fn lemma_words_acc_extend(s: Seq<char>, t: Seq<char>)
    requires
        forall|k: int| 0 <= k < t.len() ==> !is_ws(#[trigger] t[k]),
    ensures
        words_acc(s + t) == (words_acc(s).0, words_acc(s).1 + t),
    decreases t.len(),
{
    if t.len() == 0 {
        assert(s + t =~= s);
        assert(words_acc(s).1 + t =~= words_acc(s).1);
    } else {
        assert((s + t).drop_last() =~= s + t.drop_last());
        lemma_words_acc_extend(s, t.drop_last());
        assert(!is_ws(t[t.len() - 1]));
        assert((words_acc(s).1 + t.drop_last()).push(t.last()) =~= words_acc(s).1 + t);
    }
}

proof fn lemma_words_join(ds: Seq<Seq<char>>)
    requires
        forall|j: int| 0 <= j < ds.len() ==> is_word(#[trigger] ds[j]),
    ensures
        words(join_deps(ds)) == ds,
        ds.len() > 0 ==> words_acc(join_deps(ds)) == (ds.drop_last(), ds.last()),
        ds.len() == 0 ==> words_acc(join_deps(ds)) == (Seq::<Seq<char>>::empty(), Seq::<char>::empty()),
    decreases ds.len(),
{
    if ds.len() > 0 {
        let rest = ds.drop_last();
        let d = ds.last();
        assert forall|j: int| 0 <= j < rest.len() implies is_word(#[trigger] rest[j]) by {
            assert(rest[j] == ds[j]);
        }
        lemma_words_join(rest);
        let p = join_deps(rest).push(' ');
        assert(p.drop_last() =~= join_deps(rest));
        assert(words_acc(p) == (words(join_deps(rest)), Seq::<char>::empty()));
        assert(is_word(ds[ds.len() - 1]));
        lemma_words_acc_extend(p, d);
        assert(Seq::<char>::empty() + d =~= d);
        assert(rest.push(d) =~= ds);
    }
}

proof fn lemma_lead_after_tab(c: Seq<char>)
    ensures
        lead(seq!['\t'] + c) == 1 + lead(c),
{
    let k = lead(c);
    assert(exists|m: int| ws_prefix(c, m)) by {
        lemma_some_ws_prefix(c, 0);
    }
    assert(ws_prefix(c, k));
    let line = seq!['\t'] + c;
    assert(ws_prefix(line, 1 + k)) by {
        assert forall|m: int| 0 <= m < 1 + k implies is_ws(#[trigger] line[m]) by {
            if m > 0 {
                assert(line[m] == c[m - 1]);
            }
        }
        if 1 + k < line.len() {
            assert(line[1 + k] == c[k]);
        }
    }
    crate::parser::lemma_ws_prefix_unique(line, 1 + k);
}

/// Some prefix of `s` is its leading whitespace; searched from `i` on.
proof fn lemma_some_ws_prefix(s: Seq<char>, i: int)
    requires
        0 <= i <= s.len(),
        forall|m: int| 0 <= m < i ==> is_ws(#[trigger] s[m]),
    ensures
        exists|m: int| ws_prefix(s, m),
    decreases s.len() - i,
{
    if i == s.len() || !is_ws(s[i]) {
        assert(ws_prefix(s, i));
    } else {
        lemma_some_ws_prefix(s, i + 1);
    }
}

proof fn lemma_step_header(st: ParseState, r: RuleSpec)
    requires
        is_target_name(r.target),
        forall|j: int| 0 <= j < r.deps.len() ==> is_word(#[trigger] r.deps[j]),
        !defined_in(st.rules, r.target),
    ensures
        step(st, header_line(r)) == Ok::<ParseState, crate::parser::SyntaxKind>(
            add_header(st, seq![r.target], r.deps),
        ),
{
    let t = r.target;
    let line = header_line(r);
    let n = t.len() as int;
    assert(line[0] == t[0]);
    assert(!is_ws(t[0]));
    assert(ws_prefix(line, 0));
    crate::parser::lemma_ws_prefix_unique(line, 0);
    assert(line[n] == ':');
    assert(colon_at(line, n)) by {
        assert forall|m: int| 0 <= m < n implies #[trigger] line[m] != ':' by {
            assert(line[m] == t[m]);
        }
    }
    let c = choose|c: int| colon_at(line, c);
    assert(c == n) by {
        if c < n {
            assert(line[c] == t[c]);
        } else if c > n {
            assert(line[n] != ':');
        }
    }
    assert(line.take(n) =~= t);
    assert(line.skip(n + 1) =~= join_deps(r.deps));
    lemma_words_acc_extend(Seq::empty(), t);
    assert(Seq::<char>::empty() + t =~= t);
    assert(words(t) =~= seq![t]);
    lemma_words_join(r.deps);
    let ts = seq![t];
    assert(ts.no_duplicates());
    assert(!exists|a: int| 0 <= a < ts.len() && defined_in(st.rules, #[trigger] ts[a])) by {
        if exists|a: int| 0 <= a < ts.len() && defined_in(st.rules, #[trigger] ts[a]) {
            let a = choose|a: int| 0 <= a < ts.len() && defined_in(st.rules, #[trigger] ts[a]);
            assert(ts[a] == t);
        }
    }
}

proof fn lemma_step_command(st: ParseState, b: int, c: Seq<char>)
    requires
        st.block == Some(b),
        is_command_text(c),
    ensures
        step(st, seq!['\t'] + c) == Ok::<ParseState, crate::parser::SyntaxKind>(add_command(st, b, c)),
{
    let line = seq!['\t'] + c;
    lemma_lead_after_tab(c);
    lemma_some_ws_prefix(c, 0);
    assert(ws_prefix(c, lead(c)));
    assert(line[lead(line)] == c[lead(c)]);
    assert(line[0] == '\t');
    assert(command_body(line) =~= c);
}

proof fn lemma_parse_commands(st: ParseState, cs: Seq<Seq<char>>)
    requires
        st.rules.len() > 0,
        st.block == Some(st.rules.len() - 1),
        forall|j: int| 0 <= j < cs.len() ==> is_command_text(#[trigger] cs[j]),
    ensures
        parse_lines(st, command_lines(cs)) == Ok::<ParseState, (int, crate::parser::SyntaxKind)>(
            ParseState {
                rules: st.rules.update(
                    st.rules.len() - 1,
                    RuleSpec {
                        target: st.rules.last().target,
                        deps: st.rules.last().deps,
                        cmds: st.rules.last().cmds + cs,
                    },
                ),
                block: st.block,
                first: st.first,
            },
        ),
    decreases cs.len(),
{
    let l = st.rules.len() - 1;
    if cs.len() == 0 {
        assert(command_lines(cs) =~= Seq::<Seq<char>>::empty());
        assert(st.rules.last().cmds + cs =~= st.rules.last().cmds);
        assert(st.rules.update(
            l,
            RuleSpec {
                target: st.rules.last().target,
                deps: st.rules.last().deps,
                cmds: st.rules.last().cmds + cs,
            },
        ) =~= st.rules);
    } else {
        let rest = cs.drop_last();
        assert forall|j: int| 0 <= j < rest.len() implies is_command_text(#[trigger] rest[j]) by {
            assert(rest[j] == cs[j]);
        }
        lemma_parse_commands(st, rest);
        assert(command_lines(cs).drop_last() =~= command_lines(rest));
        assert(command_lines(cs).last() == seq!['\t'] + cs.last());
        let s1 = ParseState {
            rules: st.rules.update(
                l,
                RuleSpec {
                    target: st.rules.last().target,
                    deps: st.rules.last().deps,
                    cmds: st.rules.last().cmds + rest,
                },
            ),
            block: st.block,
            first: st.first,
        };
        assert(is_command_text(cs[cs.len() - 1]));
        lemma_step_command(s1, l, cs.last());
        let s2 = add_command(s1, l, cs.last());
        assert(s2.rules =~= st.rules.update(
            l,
            RuleSpec {
                target: st.rules.last().target,
                deps: st.rules.last().deps,
                cmds: st.rules.last().cmds + cs,
            },
        )) by {
            assert((st.rules.last().cmds + rest).push(cs.last()) =~= st.rules.last().cmds + cs);
            assert forall|i: int| 0 <= i < s2.rules.len() implies s2.rules[i] == st.rules.update(
                l,
                RuleSpec {
                    target: st.rules.last().target,
                    deps: st.rules.last().deps,
                    cmds: st.rules.last().cmds + cs,
                },
            )[i] by {
                assert(s2.rules[i] == crate::parser::command_added(s1.rules[i], i >= l, cs.last()));
            }
        }
    }
}

/// The state after reading the canonical lines of the first `m` rules.
pub open spec fn state_after(rules: Seq<RuleSpec>, m: int) -> ParseState {
    ParseState {
        rules: rules.take(m),
        block: if m > 0 {
            Some(m - 1)
        } else {
            None
        },
        first: if m > 0 {
            Some(rules[0].target)
        } else {
            None
        },
    }
}

proof fn lemma_round_trip_prefix(rules: Seq<RuleSpec>, m: int)
    requires
        canonical_rules(rules),
        0 <= m <= rules.len(),
    ensures
        parse_lines(start_state(Seq::empty()), canonical_lines(rules.take(m))) == Ok::<
            ParseState,
            (int, crate::parser::SyntaxKind),
        >(state_after(rules, m)),
    decreases m,
{
    let st0 = start_state(Seq::empty());
    if m == 0 {
        assert(rules.take(0) =~= Seq::<RuleSpec>::empty());
        assert(canonical_lines(rules.take(0)) =~= Seq::<Seq<char>>::empty());
        assert(st0 == state_after(rules, 0));
    } else {
        let k = m - 1;
        lemma_round_trip_prefix(rules, k);
        let r = rules[k];
        assert(rules.take(m).drop_last() =~= rules.take(k));
        assert(rules.take(m).last() == r);
        let before = canonical_lines(rules.take(k));
        let h = header_line(r);
        let sk = state_after(rules, k);
        assert(before.push(h).drop_last() =~= before);
        assert(!defined_in(sk.rules, r.target)) by {
            if defined_in(sk.rules, r.target) {
                let i = choose|i: int| 0 <= i < sk.rules.len() && (#[trigger] sk.rules[i]).target == r.target;
                assert(sk.rules[i] == rules[i]);
            }
        }
        assert(is_target_name(rules[k].target));
        assert forall|j: int| 0 <= j < r.deps.len() implies is_word(#[trigger] r.deps[j]) by {
            assert(is_word(rules[k].deps[j]));
        }
        lemma_step_header(sk, r);
        let sh = add_header(sk, seq![r.target], r.deps);
        assert(parse_lines(st0, before.push(h)) == Ok::<ParseState, (int, crate::parser::SyntaxKind)>(sh));
        assert(crate::parser::header_rules(seq![r.target], r.deps) =~= seq![new_rule(r.target, r.deps)]);
        assert(sh.rules.len() == m);
        assert forall|j: int| 0 <= j < r.cmds.len() implies is_command_text(#[trigger] r.cmds[j]) by {
            assert(is_command_text(rules[k].cmds[j]));
        }
        lemma_parse_commands(sh, r.cmds);
        lemma_parse_concat(st0, before.push(h), command_lines(r.cmds), sh);
        let fin = ParseState {
            rules: sh.rules.update(
                k,
                RuleSpec { target: sh.rules.last().target, deps: sh.rules.last().deps, cmds: sh.rules.last().cmds + r.cmds },
            ),
            block: sh.block,
            first: sh.first,
        };
        assert(Seq::<Seq<char>>::empty() + r.cmds =~= r.cmds);
        assert(fin.rules =~= rules.take(m)) by {
            assert forall|i: int| 0 <= i < m implies fin.rules[i] == rules.take(m)[i] by {
                if i == k {
                    assert(fin.rules[i] == RuleSpec { target: r.target, deps: r.deps, cmds: r.cmds });
                } else {
                    assert(fin.rules[i] == sk.rules[i]);
                }
            }
        }
        assert(fin == state_after(rules, m));
    }
}

/// Writing out rules in canonical form and reading the file back gives the
/// same rules, and the first of them as default target.
pub proof fn lemma_round_trip(rules: Seq<RuleSpec>)
    requires
        canonical_rules(rules),
    ensures
        parse_lines(start_state(Seq::empty()), canonical_lines(rules)) matches Ok(st) && st.rules
            == rules && (rules.len() > 0 ==> st.first == Some(rules[0].target)),
{
    lemma_round_trip_prefix(rules, rules.len() as int);
    assert(rules.take(rules.len() as int) =~= rules);
}

/// Each character of `w` is a character of `s`.
pub open spec fn chars_from(w: Seq<char>, s: Seq<char>) -> bool {
    forall|k: int| 0 <= k < w.len() ==> char_in(s, #[trigger] w[k])
}

/// `c` is a character of `s`.
pub open spec fn char_in(s: Seq<char>, c: char) -> bool {
    exists|m: int| 0 <= m < s.len() && s[m] == c
}

proof fn lemma_chars_from_longer(w: Seq<char>, s: Seq<char>, t: Seq<char>)
    requires
        chars_from(w, s),
        s.len() <= t.len(),
        s == t.take(s.len() as int),
    ensures
        chars_from(w, t),
{
    assert forall|k: int| 0 <= k < w.len() implies char_in(t, #[trigger] w[k]) by {
        assert(char_in(s, w[k]));
        let m = choose|m: int| 0 <= m < s.len() && s[m] == w[k];
        assert(t[m] == s[m]);
    }
}

pub(crate) proof fn lemma_words_shape(s: Seq<char>)
    ensures
        forall|a: int| 0 <= a < words_acc(s).0.len() ==> is_word(#[trigger] words_acc(s).0[a]) && chars_from(words_acc(s).0[a], s),
        forall|k: int| 0 <= k < words_acc(s).1.len() ==> !is_ws(#[trigger] words_acc(s).1[k]),
        chars_from(words_acc(s).1, s),
        forall|a: int| 0 <= a < words(s).len() ==> is_word(#[trigger] words(s)[a]) && chars_from(words(s)[a], s),
    decreases s.len(),
{
    if s.len() > 0 {
        let p = s.drop_last();
        lemma_words_shape(p);
        assert(p =~= s.take(p.len() as int));
        let (ws, cur) = words_acc(p);
        assert forall|a: int| 0 <= a < ws.len() implies chars_from(ws[a], s) by {
            lemma_chars_from_longer(ws[a], p, s);
        }
        lemma_chars_from_longer(cur, p, s);
        if !is_ws(s.last()) {
            let c2 = cur.push(s.last());
            assert forall|k: int| 0 <= k < c2.len() implies char_in(s, #[trigger] c2[k]) by {
                if k < cur.len() {
                    assert(c2[k] == cur[k]);
                } else {
                    assert(s[s.len() - 1] == c2[k]);
                }
            }
        } else if cur.len() > 0 {
            let w2 = ws.push(cur);
            assert forall|a: int| 0 <= a < w2.len() implies is_word(#[trigger] w2[a]) && chars_from(w2[a], s) by {
                if a < ws.len() {
                    assert(w2[a] == ws[a]);
                }
            }
        }
    }
    let (ws, cur) = words_acc(s);
    if cur.len() > 0 {
        let w2 = ws.push(cur);
        assert forall|a: int| 0 <= a < w2.len() implies is_word(#[trigger] w2[a]) && chars_from(w2[a], s) by {
            if a < ws.len() {
                assert(w2[a] == ws[a]);
            }
        }
    }
}

/// Rules as reading a file gives them: targets are words without colons
/// that do not begin with `#`, prerequisites are words, commands can be
/// written back, and no two rules share a target.
pub open spec fn parsed_shape(rules: Seq<RuleSpec>) -> bool {
    &&& forall|i: int|
        0 <= i < rules.len() ==> is_word(#[trigger] rules[i].target) && rules[i].target[0] != '#' && forall|k: int|
            0 <= k < rules[i].target.len() ==> #[trigger] rules[i].target[k] != ':'
    &&& forall|i: int, j: int|
        0 <= i < rules.len() && 0 <= j < rules[i].deps.len() ==> is_word(#[trigger] rules[i].deps[j])
    &&& forall|i: int, j: int|
        0 <= i < rules.len() && 0 <= j < rules[i].cmds.len() ==> is_command_text(
            #[trigger] rules[i].cmds[j],
        )
    &&& forall|i: int, j: int|
        0 <= i < j < rules.len() ==> #[trigger] rules[i].target != #[trigger] rules[j].target
}

proof fn lemma_body_is_command_text(line: Seq<char>)
    requires
        lead(line) < line.len(),
        line[lead(line)] != '#',
        line[0] == '\t' || line[0] == ' ',
    ensures
        is_command_text(command_body(line)),
{
    lemma_some_ws_prefix(line, 0);
    let k = lead(line);
    assert(ws_prefix(line, k));
    let body = command_body(line);
    if line[0] == '\t' {
        assert(k >= 1) by {
            if k == 0 {
                assert(!is_ws(line[0]));
            }
        }
        assert(ws_prefix(body, k - 1)) by {
            assert forall|m: int| 0 <= m < k - 1 implies is_ws(#[trigger] body[m]) by {
                assert(body[m] == line[m + 1]);
            }
            assert(body[k - 1] == line[k]);
        }
        crate::parser::lemma_ws_prefix_unique(body, k - 1);
    } else {
        assert(body[0] == line[k]);
        assert(ws_prefix(body, 0));
        crate::parser::lemma_ws_prefix_unique(body, 0);
    }
}

proof fn lemma_step_keeps_shape(st: ParseState, line: Seq<char>)
    requires
        parsed_shape(st.rules),
        step(st, line) is Ok,
    ensures
        step(st, line) matches Ok(s2) && parsed_shape(s2.rules),
{
    let s2 = step(st, line)->Ok_0;
    lemma_some_ws_prefix(line, 0);
    let k = lead(line);
    assert(ws_prefix(line, k));
    if k == line.len() || line[k] == '#' {
    } else if line[0] == '\t' || line[0] == ' ' {
        let b = st.block->Some_0;
        let body = command_body(line);
        lemma_body_is_command_text(line);
        assert(s2.rules == with_command(st.rules, b, body));
        assert forall|i: int| 0 <= i < s2.rules.len() implies #[trigger] s2.rules[i].target == st.rules[i].target
            && s2.rules[i].deps == st.rules[i].deps && (s2.rules[i].cmds == st.rules[i].cmds || s2.rules[i].cmds
            == st.rules[i].cmds.push(body)) by {
            assert(s2.rules[i] == crate::parser::command_added(st.rules[i], i >= b, body));
        }
        assert forall|i: int, j: int|
            0 <= i < s2.rules.len() && 0 <= j < s2.rules[i].cmds.len() implies is_command_text(
            #[trigger] s2.rules[i].cmds[j]) by {
            assert(s2.rules[i].target == st.rules[i].target);
            if j < st.rules[i].cmds.len() {
                assert(s2.rules[i].cmds[j] == st.rules[i].cmds[j]);
            }
        }
        assert forall|i: int| 0 <= i < s2.rules.len() implies is_word(#[trigger] s2.rules[i].target)
            && s2.rules[i].target[0] != '#' && forall|m: int|
            0 <= m < s2.rules[i].target.len() ==> #[trigger] s2.rules[i].target[m] != ':' by {
            assert(s2.rules[i].target == st.rules[i].target);
        }
        assert forall|i: int, j: int|
            0 <= i < s2.rules.len() && 0 <= j < s2.rules[i].deps.len() implies is_word(#[trigger] s2.rules[i].deps[j]) by {
            assert(s2.rules[i].target == st.rules[i].target);
        }
        assert forall|i: int, j: int|
            0 <= i < j < s2.rules.len() implies #[trigger] s2.rules[i].target != #[trigger] s2.rules[j].target by {
            assert(s2.rules[i].target == st.rules[i].target);
            assert(s2.rules[j].target == st.rules[j].target);
        }
    } else {
        let c = choose|c: int| colon_at(line, c);
        let ts = words(line.take(c));
        let ps = words(line.skip(c + 1));
        lemma_words_shape(line.take(c));
        lemma_words_shape(line.skip(c + 1));
        let hr = crate::parser::header_rules(ts, ps);
        assert(s2.rules == st.rules + hr);
        let n = st.rules.len();
        assert forall|i: int| 0 <= i < s2.rules.len() implies is_word(#[trigger] s2.rules[i].target)
            && s2.rules[i].target[0] != '#' && forall|m: int|
            0 <= m < s2.rules[i].target.len() ==> #[trigger] s2.rules[i].target[m] != ':' by {
            if i >= n {
                let w = ts[i - n];
                assert(w[0] != '#');
                assert(s2.rules[i] == new_rule(w, ps));
                assert(chars_from(w, line.take(c)));
                assert forall|m: int| 0 <= m < w.len() implies #[trigger] w[m] != ':' by {
                    assert(char_in(line.take(c), w[m]));
                    let q = choose|q: int| 0 <= q < line.take(c).len() && line.take(c)[q] == w[m];
                    assert(line[q] != ':');
                }
            }
        }
        assert forall|i: int, j: int|
            0 <= i < s2.rules.len() && 0 <= j < s2.rules[i].deps.len() implies is_word(#[trigger] s2.rules[i].deps[j]) by {
            if i >= n {
                assert(s2.rules[i] == new_rule(ts[i - n], ps));
            }
        }
        assert forall|i: int, j: int|
            0 <= i < s2.rules.len() && 0 <= j < s2.rules[i].cmds.len() implies is_command_text(
            #[trigger] s2.rules[i].cmds[j]) by {
            if i >= n {
                assert(s2.rules[i] == new_rule(ts[i - n], ps));
            }
        }
        assert forall|i: int, j: int|
            0 <= i < j < s2.rules.len() implies #[trigger] s2.rules[i].target != #[trigger] s2.rules[j].target by {
            if j >= n {
                assert(s2.rules[j].target == ts[j - n]);
                if i >= n {
                    assert(s2.rules[i].target == ts[i - n]);
                } else {
                    if s2.rules[i].target == s2.rules[j].target {
                        assert(defined_in(st.rules, ts[j - n]));
                    }
                }
            }
        }
    }
}

/// Whatever reading a file gives has the shape that writing it out keeps.
pub(crate) proof fn lemma_parse_shape(lines: Seq<Seq<char>>)
    ensures
        parse_lines(start_state(Seq::empty()), lines) matches Ok(st) ==> parsed_shape(st.rules),
    decreases lines.len(),
{
    if lines.len() > 0 {
        lemma_parse_shape(lines.drop_last());
        if let Ok(s1) = parse_lines(start_state(Seq::empty()), lines.drop_last()) {
            if step(s1, lines.last()) is Ok {
                lemma_step_keeps_shape(s1, lines.last());
            }
        }
    }
}

/// Reading a rule file, writing the rules out in canonical form and reading
/// that back gives the same rules.
pub proof fn lemma_parse_write_parse(lines: Seq<Seq<char>>)
    ensures
        parse_lines(start_state(Seq::empty()), lines) matches Ok(st) ==> (parse_lines(
            start_state(Seq::empty()),
            canonical_lines(st.rules),
        ) matches Ok(st2) && st2.rules == st.rules),
{
    lemma_parse_shape(lines);
    if let Ok(st) = parse_lines(start_state(Seq::empty()), lines) {
        assert(canonical_rules(st.rules));
        lemma_round_trip(st.rules);
    }
}

} // verus!
