use regexc::dfa::{build_nfa, BytecodeInstr, InputSymbol, NfaBuilder, StateId, Transition, DFA};
use regexc::parser::parse;

#[test]
fn build_simple_nfa() {
    let ast = parse("ab").unwrap();
    let nfa = build_nfa(&ast);
    assert!(nfa.states.len() > 0);
}

#[test]
fn nfa_to_dfa() {
    let ast = parse("ab").unwrap();
    let nfa = build_nfa(&ast);
    let dfa = nfa.to_dfa();
    assert!(dfa.states.len() > 0);
}

#[test]
fn dfa_minimize() {
    let ast = parse("a|b").unwrap();
    let nfa = build_nfa(&ast);
    let dfa = nfa.to_dfa();
    let minimized = dfa.minimize();
    assert!(minimized.states.len() <= dfa.states.len());
}

#[test]
fn dfa_to_dot() {
    let ast = parse("ab").unwrap();
    let nfa = build_nfa(&ast);
    let dfa = nfa.to_dfa();
    let dot = dfa.to_dot();
    assert!(dot.contains("digraph"));
    assert!(dot.contains("->"));
}

#[test]
fn dfa_to_bytecode() {
    let ast = parse("ab").unwrap();
    let nfa = build_nfa(&ast);
    let dfa = nfa.to_dfa();
    let bytecode = dfa.to_bytecode();
    assert!(!bytecode.is_empty());
}

#[test]
fn epsilon_closure() {
    let ast = parse("a*b").unwrap();
    let nfa = build_nfa(&ast);
    let closure = nfa.epsilon_closure(&vec![nfa.start]);
    assert!(!closure.is_empty());
}

#[test]
fn complex_regex_dfa() {
    let ast = parse(r"^\d{3}-\d{2}$").unwrap();
    let nfa = build_nfa(&ast);
    let dfa = nfa.to_dfa();
    let minimized = dfa.minimize();
    assert!(minimized.states.len() > 0);
    assert!(!minimized.accept.is_empty());
}

#[test]
fn alternation_dfa() {
    let ast = parse("(abc|def)").unwrap();
    let nfa = build_nfa(&ast);
    let dfa = nfa.to_dfa();
    assert!(dfa.states.len() > 0);
}

#[test]
fn repetition_dfa() {
    let ast = parse("a+b*c?").unwrap();
    let nfa = build_nfa(&ast);
    let dfa = nfa.to_dfa();
    assert!(dfa.states.len() > 0);
}

#[test]
fn nested_quantifier_dfa() {
    let ast = parse("(a*)*").unwrap();
    let nfa = build_nfa(&ast);
    let dfa = nfa.to_dfa();
    assert!(dfa.states.len() > 0);
    assert!(dfa.states.len() <= 10);
}

#[test]
fn complex_nested_quantifier_dfa() {
    let ast = parse("(a+b*|c?d+)*").unwrap();
    let nfa = build_nfa(&ast);
    let dfa = nfa.to_dfa();
    let minimized = dfa.minimize();
    assert!(minimized.states.len() > 0);
    assert!(minimized.states.len() <= 20);
}

#[test]
fn deeply_nested_quantifier() {
    let ast = parse("((a*)*)*").unwrap();
    let nfa = build_nfa(&ast);
    let dfa = nfa.to_dfa();
    assert!(dfa.states.len() > 0);
    assert!(dfa.states.len() <= 10);
}

fn ids(v: &[StateId]) -> Vec<usize> {
    v.iter().map(|s| s.0).collect()
}

#[test]
fn nfa_of_two_literals_is_a_chain() {
    let nfa = build_nfa(&parse("ab").unwrap());
    assert_eq!(nfa.start, StateId(0));
    assert_eq!(nfa.accept, StateId(3));
    assert_eq!(nfa.states.len(), 4);
    assert!(matches!(nfa.states[0][..], [Transition::Char('a', StateId(1))]));
    assert!(matches!(nfa.states[1][..], [Transition::Epsilon(StateId(2))]));
    assert!(matches!(nfa.states[2][..], [Transition::Char('b', StateId(3))]));
    assert!(nfa.states[3].is_empty());
}

#[test]
fn builder_continues_numbering() {
    let mut b = NfaBuilder::new();
    let first = b.build(&parse("a").unwrap());
    let second = b.build(&parse("b").unwrap());
    assert_eq!(first.start, StateId(0));
    assert_eq!(second.start, StateId(2));
    assert_eq!(second.states.len(), 4);
}

#[test]
fn epsilon_closure_of_star_then_literal() {
    let nfa = build_nfa(&parse("a*b").unwrap());
    let closure = nfa.epsilon_closure(&vec![nfa.start]);
    assert_eq!(ids(&closure), vec![0, 1, 2, 4]);
}

#[test]
fn epsilon_closure_keeps_unknown_states() {
    let nfa = build_nfa(&parse("a").unwrap());
    let closure = nfa.epsilon_closure(&vec![StateId(7), StateId(0), StateId(7)]);
    assert_eq!(ids(&closure), vec![0, 7]);
}

#[test]
fn dfa_of_two_literals() {
    let dfa = build_nfa(&parse("ab").unwrap()).to_dfa();
    assert_eq!(dfa.start, StateId(0));
    assert_eq!(ids(&dfa.accept), vec![2]);
    assert_eq!(dfa.states.len(), 3);
    assert!(matches!(dfa.states[0][..], [(InputSymbol::Char('a'), StateId(1))]));
    assert!(matches!(dfa.states[1][..], [(InputSymbol::Char('b'), StateId(2))]));
    assert!(dfa.states[2].is_empty());
}

#[test]
fn dfa_rows_are_sorted_by_label() {
    let dfa = build_nfa(&parse("b|a").unwrap()).to_dfa();
    assert!(matches!(
        dfa.states[0][..],
        [(InputSymbol::Char('a'), _), (InputSymbol::Char('b'), _)]
    ));
}

#[test]
fn minimize_merges_equivalent_accepting_states() {
    let dfa = build_nfa(&parse("a|b").unwrap()).to_dfa();
    assert_eq!(dfa.states.len(), 3);
    let m = dfa.minimize();
    assert_eq!(m.states.len(), 2);
    assert_eq!(m.start, StateId(0));
    assert_eq!(ids(&m.accept), vec![1]);
    assert!(matches!(
        m.states[0][..],
        [(InputSymbol::Char('a'), StateId(1)), (InputSymbol::Char('b'), StateId(1))]
    ));
    assert!(m.states[1].is_empty());
}

#[test]
fn minimize_twice_changes_nothing_more() {
    let m1 = build_nfa(&parse("(a|b)c*").unwrap()).to_dfa().minimize();
    let m2 = m1.minimize();
    assert_eq!(m1.states.len(), m2.states.len());
    assert_eq!(ids(&m1.accept), ids(&m2.accept));
}

#[test]
fn minimize_keeps_accepting_state_without_row() {
    let dfa = DFA { start: StateId(0), accept: vec![StateId(5)], states: vec![vec![(InputSymbol::Any, StateId(5))]] };
    let m = dfa.minimize();
    assert_eq!(m.states.len(), 2);
    assert_eq!(ids(&m.accept), vec![1]);
    assert!(m.states[1].is_empty());
}

#[test]
fn dot_of_two_literals() {
    let dfa = build_nfa(&parse("ab").unwrap()).to_dfa();
    assert_eq!(
        dfa.to_dot(),
        "digraph DFA {\n  rankdir=LR;\n  node [shape=circle];\n  start [shape=plaintext, label=\"\"];\n  start -> s0;\n  s2 [shape=doublecircle];\n  s0 -> s1 [label=\"a\"];\n  s1 -> s2 [label=\"b\"];\n}\n"
    );
}

#[test]
fn dot_labels_escape_and_abbreviate() {
    let dfa = build_nfa(&parse("\"|\\d|.").unwrap()).to_dfa();
    let dot = dfa.to_dot();
    assert!(dot.contains("[label=\"\\\"\"]"));
    assert!(dot.contains("[label=\"\\d\"]"));
    assert!(dot.contains("[label=\".\"]"));
}

#[test]
fn bytecode_of_two_literals() {
    let dfa = build_nfa(&parse("ab").unwrap()).to_dfa();
    let code = dfa.to_bytecode();
    assert!(matches!(
        code[..],
        [
            BytecodeInstr::Start,
            BytecodeInstr::MatchChar('a', 1),
            BytecodeInstr::Fail,
            BytecodeInstr::MatchChar('b', 2),
            BytecodeInstr::Fail,
            BytecodeInstr::Accept,
            BytecodeInstr::Fail
        ]
    ));
}

#[test]
fn epsilon_closure_is_idempotent() {
    let nfa = build_nfa(&parse("a*b|c*").unwrap());
    let once = nfa.epsilon_closure(&vec![nfa.start]);
    let twice = nfa.epsilon_closure(&once);
    assert_eq!(ids(&once), ids(&twice));
}

#[test]
fn built_nfa_is_well_formed() {
    let nfa = build_nfa(&parse("(a|b)*c{2,3}").unwrap());
    assert!(nfa.start.0 < nfa.states.len());
    assert!(nfa.accept.0 < nfa.states.len());
    for row in &nfa.states {
        for t in row {
            let to = match t {
                Transition::Epsilon(s) | Transition::Char(_, s) | Transition::Class(_, s) | Transition::Any(s) => *s,
            };
            assert!(to.0 < nfa.states.len());
        }
    }
}

#[test]
fn subset_dfa_can_be_minimized_and_rendered() {
    let dfa = build_nfa(&parse(r"^\d{3}-\d{2}$").unwrap()).to_dfa();
    assert!(dfa.is_well_formed());
    assert!(dfa.all_targets_have_rows());
    let m = dfa.minimize();
    assert!(m.is_well_formed());
    assert!(m.all_targets_have_rows());
}

#[test]
fn malformed_dfa_is_detected() {
    let dangling = DFA { start: StateId(0), accept: vec![], states: vec![vec![(InputSymbol::Any, StateId(3))]] };
    assert!(!dangling.is_well_formed());
    assert!(!dangling.all_targets_have_rows());
    let unsorted = DFA { start: StateId(0), accept: vec![StateId(2), StateId(1)], states: vec![vec![], vec![], vec![]] };
    assert!(!unsorted.is_well_formed());
}

#[test]
fn subset_construction_stops_at_state_limit() {
    let dfa = build_nfa(&parse("(a|b)*a(a|b){11}").unwrap()).to_dfa();
    assert!(dfa.states.len() <= regexc::subset::MAX_DFA_STATES);
    assert!(dfa.states.len() > 100);
    assert!(!dfa.all_targets_have_rows());
}

#[test]
fn built_nfa_accept_state_has_no_edges_and_no_edge_repeats() {
    let nfa = build_nfa(&parse("(ab|a)*b{2,3}").unwrap());
    assert!(nfa.states[nfa.accept.0].is_empty());
    for row in &nfa.states {
        for (j, t) in row.iter().enumerate() {
            assert!(!matches!(t, Transition::Any(_)));
            assert!(!row[j + 1..].contains(t));
        }
    }
}

fn run(dfa: &DFA, word: &str) -> bool {
    let mut state = dfa.start.0;
    for c in word.chars() {
        let row = &dfa.states[state];
        match row.iter().find(|(sym, _)| matches!(sym, InputSymbol::Char(d) if *d == c)) {
            Some((_, to)) => state = to.0,
            None => return false,
        }
    }
    dfa.accept.contains(&StateId(state))
}

#[test]
fn minimize_keeps_the_words() {
    let dfa = build_nfa(&parse("(a|b)*abb").unwrap()).to_dfa();
    let m = dfa.minimize();
    for w in ["abb", "aabb", "babb", "ab", "abba", "", "bbabb"] {
        assert_eq!(run(&dfa, w), run(&m, w), "word {:?}", w);
    }
    assert!(run(&m, "aababb"));
    assert!(!run(&m, "abab"));
}

#[test]
fn expressions_and_automata_compare_and_clone() {
    let e = parse("a(b|c)*").unwrap();
    assert_eq!(e.clone(), e);
    let n = build_nfa(&e);
    assert_eq!(n.clone(), n);
    let d = n.to_dfa();
    assert_eq!(d.clone(), d);
    assert_eq!(d.to_bytecode(), d.clone().to_bytecode());
}

#[test]
fn epsilon_closure_stops_past_its_limit() {
    let n = regexc::nfa::MAX_CLOSURE_SIZE + 5;
    let mut states: Vec<Vec<Transition>> = Vec::new();
    for i in 0..n {
        if i + 1 < n {
            states.push(vec![Transition::Epsilon(StateId(i + 1))]);
        } else {
            states.push(vec![]);
        }
    }
    let nfa = regexc::dfa::NFA { start: StateId(0), accept: StateId(n - 1), states };
    let closure = nfa.epsilon_closure(&vec![StateId(0)]);
    assert_eq!(closure.len(), regexc::nfa::MAX_CLOSURE_SIZE + 1);
    assert_eq!(ids(&closure), (0..=regexc::nfa::MAX_CLOSURE_SIZE).collect::<Vec<usize>>());
}
