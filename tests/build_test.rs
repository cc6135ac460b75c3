use parmake::graph::node::{Node, NodeStatus};
use parmake::graph::schedule::{Build, Job};
use parmake::graph::{CycleError, Graph};
use parmake::parser::ParseError;

fn lines(text: &str) -> Vec<String> {
    text.split('\n').map(|l| l.to_string()).collect()
}

fn parse(text: &str, jobs: usize) -> Graph {
    let mut g = Graph::new(jobs);
    g.parse_makefile(&lines(text)).unwrap();
    g
}

fn names(v: &[&str]) -> Vec<String> {
    v.iter().map(|s| s.to_string()).collect()
}

fn pos(g: &Graph, name: &str) -> usize {
    g.find(&name.to_string()).unwrap()
}

/// Runs a build to its end, one finished command at a time; a command
/// `false` fails, every other one succeeds. Returns the commands run, in
/// order, as (target, command), and the largest number of rules that were
/// `Building` at once.
fn run(b: &mut Build) -> (Vec<(String, String)>, usize) {
    let mut running: Vec<Job> = Vec::new();
    let mut log = Vec::new();
    let mut most = 0;
    loop {
        while let Some(job) = b.next_job() {
            running.push(job);
        }
        let building = b
            .graph
            .nodes
            .iter()
            .filter(|n| n.state == NodeStatus::Building)
            .count();
        assert_eq!(building, b.building);
        most = most.max(building);
        if running.is_empty() {
            break;
        }
        let job = running.remove(0);
        let node = &b.graph.nodes[job.target];
        let cmd = node.commands[job.command].clone();
        log.push((node.target.clone(), cmd.clone()));
        let ok = cmd != "false";
        if let Some(next) = b.command_done(job, ok, "exit status 1".to_string()) {
            running.push(next);
        }
    }
    (log, most)
}

fn state_of(b: &Build, name: &str) -> NodeStatus {
    b.graph.nodes[pos(&b.graph, name)].state.clone()
}

#[test]
fn linear_chain_builds_leaves_first() {
    let g = parse("a: b\n\techo A\nb: c\n\techo B\nc:\n\techo C\n", 2);
    let mut b = Build::new(g, &names(&["a"])).unwrap();
    let (log, _) = run(&mut b);
    let cmds: Vec<&str> = log.iter().map(|(_, c)| c.as_str()).collect();
    assert_eq!(cmds, vec!["echo C", "echo B", "echo A"]);
    assert!(b.is_success());
}

#[test]
fn cycle_is_reported_with_its_witnesses() {
    let g = parse("a: b\nb: a\n", 1);
    assert!(g.detect_cycles());
    match g.topo_sort() {
        Err(CycleError::CircularDependency { cycle }) => {
            assert!(cycle.contains(&"a".to_string()));
            assert!(cycle.contains(&"b".to_string()));
        }
        other => panic!("unexpected {:?}", other),
    }
    match Build::new(g, &names(&["a"])) {
        Err(CycleError::CircularDependency { .. }) => {}
        _ => panic!("a cycle must stop the build"),
    }
}

#[test]
fn missing_prerequisite_is_reported() {
    let g = parse("a: b\n\techo A\n", 1);
    assert_eq!(
        g.topo_sort(),
        Err(CycleError::MissingTarget { target: "b".to_string() })
    );
    assert!(g.detect_cycles());
}

#[test]
fn diamond_builds_shared_prerequisite_once_and_first() {
    let g = parse("a: b c\n\techo A\nb: d\n\techo B\nc: d\n\techo C\nd:\n\techo D\n", 2);
    let mut b = Build::new(g, &names(&["a"])).unwrap();
    let (log, most) = run(&mut b);
    let cmds: Vec<&str> = log.iter().map(|(_, c)| c.as_str()).collect();
    assert_eq!(cmds.len(), 4);
    assert_eq!(cmds[0], "echo D");
    assert_eq!(cmds[3], "echo A");
    assert!(most <= 2);
    assert!(b.is_success());
}

#[test]
fn failure_propagates_to_dependents_only() {
    let g = parse("a: b\nb:\n\tfalse\nc:\n\techo C\n", 2);
    let mut b = Build::new(g, &names(&["a", "c"])).unwrap();
    let (log, _) = run(&mut b);
    assert!(!log.iter().any(|(t, _)| t == "a"));
    assert_eq!(state_of(&b, "b"), NodeStatus::Failed("exit status 1".to_string()));
    assert_eq!(
        state_of(&b, "a"),
        NodeStatus::Failed("prerequisite b failed".to_string())
    );
    assert_eq!(state_of(&b, "c"), NodeStatus::Complete);
    assert!(!b.is_success());
}

#[test]
fn default_target_is_built_when_none_is_named() {
    let g = parse("all: x\nx:\n\techo X\n", 1);
    assert_eq!(g.default_target, "all");
    let mut b = Build::new(g, &Vec::new()).unwrap();
    let (log, _) = run(&mut b);
    assert_eq!(log, vec![("x".to_string(), "echo X".to_string())]);
    assert_eq!(state_of(&b, "all"), NodeStatus::Complete);
    assert!(b.is_success());
}

#[test]
fn default_target_is_first_rule_or_empty() {
    let g = parse("# note\n\nfirst second: p\np:\n", 1);
    assert_eq!(g.default_target, "first");
    let g = parse("# only a comment\n\n", 1);
    assert_eq!(g.default_target, "");
    assert_eq!(g.nodes.len(), 0);
}

#[test]
fn one_job_runs_commands_one_rule_at_a_time() {
    let g = parse("a: b c\n\techo A\nb:\n\techo B1\n\techo B2\nc:\n\techo C\n", 1);
    let mut b = Build::new(g, &names(&["a"])).unwrap();
    let (log, most) = run(&mut b);
    assert_eq!(most, 1);
    let cmds: Vec<&str> = log.iter().map(|(_, c)| c.as_str()).collect();
    assert_eq!(cmds, vec!["echo B1", "echo B2", "echo C", "echo A"]);
}

#[test]
fn commands_run_in_declared_order() {
    let g = parse("t:\n\tfirst\n\tsecond\n\tthird\n", 3);
    let mut b = Build::new(g, &names(&["t"])).unwrap();
    let job = b.next_job().unwrap();
    assert_eq!(job, Job { target: 0, command: 0 });
    let job = b.command_done(job, true, String::new()).unwrap();
    assert_eq!(job, Job { target: 0, command: 1 });
    let job = b.command_done(job, true, String::new()).unwrap();
    assert_eq!(job, Job { target: 0, command: 2 });
    assert_eq!(b.command_done(job, true, String::new()), None);
    assert_eq!(b.graph.nodes[0].state, NodeStatus::Complete);
    assert_eq!(b.building, 0);
}

#[test]
fn failed_command_stops_its_rule() {
    let g = parse("t:\n\tfalse\n\techo never\n", 1);
    let mut b = Build::new(g, &names(&["t"])).unwrap();
    let (log, _) = run(&mut b);
    assert_eq!(log, vec![("t".to_string(), "false".to_string())]);
    assert!(!b.is_success());
}

#[test]
fn rule_without_commands_completes_and_unblocks() {
    let g = parse("a: b\n\techo A\nb: c\nc:\n", 1);
    let mut b = Build::new(g, &names(&["a"])).unwrap();
    let job = b.next_job().unwrap();
    assert_eq!(job.target, pos(&b.graph, "a"));
    assert_eq!(state_of(&b, "b"), NodeStatus::Complete);
    assert_eq!(state_of(&b, "c"), NodeStatus::Complete);
    assert_eq!(b.command_done(job, true, String::new()), None);
    assert!(b.is_success());
}

#[test]
fn unknown_target_is_left_out() {
    let g = parse("a:\n\techo A\nb:\n\techo B\n", 1);
    assert_eq!(g.unknown_targets(&names(&["a", "nope", "b", "zz"])), names(&["nope", "zz"]));
    let required = g.get_required_targets(&names(&["nope", "a"]));
    assert_eq!(required, vec![true, false]);
    let mut b = Build::new(g, &names(&["nope", "a"])).unwrap();
    let (log, _) = run(&mut b);
    assert_eq!(log, vec![("a".to_string(), "echo A".to_string())]);
    assert_eq!(state_of(&b, "b"), NodeStatus::Pending);
}

#[test]
fn required_targets_are_the_closure() {
    let g = parse("a: b\nb: c\nc:\nd: c\ne:\n", 1);
    let r = g.get_required_targets(&names(&["a"]));
    assert_eq!(r, vec![true, true, true, false, false]);
    let r = g.get_required_targets(&names(&["d", "e"]));
    assert_eq!(r, vec![false, false, true, true, true]);
    let r = g.get_required_targets(&Vec::new());
    assert_eq!(r, vec![false; 5]);
}

#[test]
fn two_builds_run_the_same_commands() {
    let text = "a: b c\n\techo A\nb:\n\techo B\nc: b\n\techo C\n";
    let mut b1 = Build::new(parse(text, 2), &names(&["a"])).unwrap();
    let mut b2 = Build::new(parse(text, 2), &names(&["a"])).unwrap();
    let (mut l1, _) = run(&mut b1);
    let (mut l2, _) = run(&mut b2);
    l1.sort();
    l2.sort();
    assert_eq!(l1, l2);
    assert_eq!(l1.len(), 3);
}

#[test]
fn multi_target_header_shares_prerequisites_and_commands() {
    let g = parse("x y: p q\n\tmake it\np:\nq:\n", 1);
    for name in ["x", "y"] {
        let n = g.get_node(name).unwrap().unwrap();
        assert_eq!(n.dependencies, names(&["p", "q"]));
        assert_eq!(n.commands, names(&["make it"]));
        assert_eq!(n.output, Some(name.to_string()));
        assert_eq!(n.state, NodeStatus::Pending);
    }
    assert!(g.get_node("nope").unwrap().is_none());
}

#[test]
fn command_lines_strip_one_tab_or_all_spaces() {
    let g = parse("t:\n\t\tindented twice\n    four spaces\n\n\techo last\n", 1);
    let n = g.get_node("t").unwrap().unwrap();
    assert_eq!(n.commands, names(&["\tindented twice", "four spaces", "echo last"]));
}

#[test]
fn prerequisites_split_on_any_whitespace() {
    let g = parse("t:\tp  \t q\np:\nq:\n", 1);
    assert_eq!(g.get_node("t").unwrap().unwrap().dependencies, names(&["p", "q"]));
}

fn syntax(text: &str) -> (usize, String) {
    let mut g = Graph::new(1);
    match g.parse_makefile(&lines(text)) {
        Err(ParseError::Syntax { line, message }) => {
            assert_eq!(g.nodes.len(), 0);
            (line, message)
        }
        other => panic!("unexpected {:?}", other),
    }
}

#[test]
fn duplicate_target_is_a_syntax_error() {
    assert_eq!(syntax("a:\n\techo 1\na:\n"), (3, "Duplicate target".to_string()));
    assert_eq!(syntax("a a:\n"), (1, "Duplicate target".to_string()));
}

#[test]
fn command_before_target_is_a_syntax_error() {
    assert_eq!(syntax("# c\n\techo hi\na:\n"), (2, "Command before target".to_string()));
}

#[test]
fn header_errors_are_syntax_errors() {
    assert_eq!(syntax("a:\nnot a rule\n"), (2, "Rule missing colon".to_string()));
    assert_eq!(syntax(": b\n"), (1, "Rule missing target".to_string()));
}

#[test]
fn add_node_refuses_a_second_rule_for_a_target() {
    let mut g = Graph::new(1);
    g.add_node(Node::new("a".to_string())).unwrap();
    assert_eq!(
        g.add_node(Node::new("a".to_string())),
        Err(CycleError::DuplicateTarget { target: "a".to_string() })
    );
    assert_eq!(g.nodes.len(), 1);
}

#[test]
fn topo_order_puts_prerequisites_first() {
    let g = parse("a: b c\nb: c\nc:\nd: a c\n", 1);
    let order = g.topo_sort().unwrap();
    assert_eq!(order.len(), 4);
    let p = |x: &str| order.iter().position(|y| y == x).unwrap();
    assert!(p("c") < p("b") && p("b") < p("a") && p("a") < p("d"));
}

#[test]
fn duplicate_prerequisite_is_not_a_cycle() {
    let g = parse("a: b b\nb:\n", 1);
    assert!(!g.detect_cycles());
    assert_eq!(g.topo_sort().unwrap(), names(&["b", "a"]));
}

#[test]
fn cap_limits_rules_building_at_once() {
    let g = parse("all: a b c d\na:\n\techo a\nb:\n\techo b\nc:\n\techo c\nd:\n\techo d\n", 2);
    let mut b = Build::new(g, &Vec::new()).unwrap();
    let first = b.next_job().unwrap();
    let second = b.next_job().unwrap();
    assert_ne!(first.target, second.target);
    assert_eq!(b.next_job(), None);
    assert_eq!(b.building, 2);
    assert_eq!(b.command_done(first, true, String::new()), None);
    let third = b.next_job().unwrap();
    assert_eq!(b.next_job(), None);
    assert_eq!(b.command_done(second, true, String::new()), None);
    assert_eq!(b.command_done(third, true, String::new()), None);
    assert_eq!(b.building, 0);
    let (log, most) = run(&mut b);
    assert_eq!(most, 1);
    assert_eq!(log.len(), 1);
    assert!(b.is_success());
}

#[test]
fn written_rules_read_back_the_same() {
    let g = parse("x y: p q\n\tmake it\n\n# c\np:\n    echo p\nq:\n", 1);
    let out = g.to_lines();
    assert_eq!(
        out,
        names(&["x: p q", "\tmake it", "y: p q", "\tmake it", "p:", "\techo p", "q:"])
    );
    let mut again = Graph::new(1);
    again.parse_makefile(&out).unwrap();
    assert_eq!(again.nodes.len(), g.nodes.len());
    for (a, b) in again.nodes.iter().zip(g.nodes.iter()) {
        assert_eq!(a.target, b.target);
        assert_eq!(a.dependencies, b.dependencies);
        assert_eq!(a.commands, b.commands);
    }
    assert_eq!(again.default_target, g.default_target);
}

#[test]
fn target_starting_with_hash_is_a_syntax_error() {
    assert_eq!(syntax("a #b: c\n"), (1, "Target starts with '#'".to_string()));
}

#[test]
fn cycle_lists_each_unbuildable_target_once() {
    let g = parse("a: b\nb: a\nc:\nd: a c\n", 1);
    match g.topo_sort() {
        Err(CycleError::CircularDependency { mut cycle }) => {
            cycle.sort();
            assert_eq!(cycle, names(&["a", "b", "d"]));
        }
        other => panic!("unexpected {:?}", other),
    }
}

#[test]
fn parsed_rules_are_pending_with_their_output() {
    let g = parse("a: b\n\techo A\nb:\n", 1);
    for n in &g.nodes {
        assert_eq!(n.state, NodeStatus::Pending);
        assert_eq!(n.output, Some(n.target.clone()));
    }
}

#[test]
fn settled_build_hands_out_nothing_more() {
    let g = parse("a: b\nb:\n\tfalse\nc: a\n\techo C\n", 1);
    let mut b = Build::new(g, &names(&["c"])).unwrap();
    let job = b.next_job().unwrap();
    assert_eq!(b.command_done(job, false, "boom".to_string()), None);
    assert_eq!(b.next_job(), None);
    assert_eq!(state_of(&b, "a"), NodeStatus::Failed("prerequisite b failed".to_string()));
    assert_eq!(state_of(&b, "c"), NodeStatus::Failed("prerequisite a failed".to_string()));
}

#[test]
fn closure_skips_prerequisites_without_a_rule() {
    let g = parse("a: b ghost\nb: phantom\nc:\n", 1);
    assert_eq!(g.get_required_targets(&names(&["a"])), vec![true, true, false]);
    assert_eq!(g.get_required_targets(&names(&["a", "ghost"])), vec![true, true, false]);
    assert_eq!(g.get_required_targets(&names(&["ghost"])), vec![false, false, false]);
}
