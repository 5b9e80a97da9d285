use automaton_trial::Nfa;
use automaton_trial::compile_regex;
use automaton_trial::epsilon_closure;

/// Explicit set-based simulation of an automaton in the NFA shape. The
/// DFA view has no epsilon edges and singleton successor lists, so the
/// same walk serves both machines.
fn accepts(machine: &Nfa, input: &str) -> bool {
    let mut seed = Vec::new();
    seed.push(0);
    let mut current = epsilon_closure(machine, seed);
    for ch in input.chars() {
        let mut next = Vec::new();
        for &s in &current {
            for (c, targets) in &machine.states[s].branches {
                if *c == ch {
                    for &t in targets {
                        if !next.contains(&t) {
                            next.push(t);
                        }
                    }
                }
            }
        }
        current = epsilon_closure(machine, next);
    }
    current.iter().any(|&s| machine.states[s].accepts)
}

/// Every string over {a, b, c} up to the given length.
fn words_up_to(len: usize) -> Vec<String> {
    let mut out = vec![String::new()];
    let mut frontier = vec![String::new()];
    for _ in 0..len {
        let mut next = Vec::new();
        for w in &frontier {
            for c in ['a', 'b', 'c'] {
                let mut w2 = w.clone();
                w2.push(c);
                out.push(w2.clone());
                next.push(w2);
            }
        }
        frontier = next;
    }
    out
}

#[test]
fn test_compile_single_literal_structure() {
    let sm = compile_regex("a").unwrap();
    assert_eq!(sm.nfa.states.len(), 2);
    assert_eq!(sm.nfa.states[0].branches.len(), 1);
    assert_eq!(sm.nfa.states[0].branches[0].0, 'a');
    assert_eq!(sm.nfa.states[0].branches[0].1, vec![1]);
    assert!(!sm.nfa.states[0].accepts);
    assert!(sm.nfa.states[1].accepts);
}

#[test]
fn test_compile_star_language() {
    let sm = compile_regex("a*").unwrap();
    for w in ["", "a", "aa", "aaaa"] {
        assert!(accepts(&sm.nfa, w));
        assert!(accepts(&sm.dfa, w));
    }
    for w in ["b", "ab", "ba"] {
        assert!(!accepts(&sm.nfa, w));
        assert!(!accepts(&sm.dfa, w));
    }
    let accepting = sm.dfa.states.iter().filter(|s| s.accepts).count();
    assert!(accepting >= 1);
}

#[test]
fn test_compile_alternation_language() {
    let sm = compile_regex("a|b").unwrap();
    for w in ["a", "b"] {
        assert!(accepts(&sm.dfa, w));
    }
    for w in ["", "ab", "c"] {
        assert!(!accepts(&sm.dfa, w));
    }
}

#[test]
fn test_compile_grouped_star_then_literal() {
    let sm = compile_regex("(a|b)*c").unwrap();
    for w in ["c", "ac", "abc", "bbac"] {
        assert!(accepts(&sm.nfa, w));
        assert!(accepts(&sm.dfa, w));
    }
    for w in ["", "ab", "cc"] {
        assert!(!accepts(&sm.nfa, w));
        assert!(!accepts(&sm.dfa, w));
    }
}

#[test]
fn test_compile_empty_pattern_fails() {
    let e = compile_regex("").unwrap_err();
    assert_eq!(e, "input is empty.");
}

#[test]
fn test_compile_double_star_fails() {
    let e = compile_regex("a**").unwrap_err();
    assert_eq!(e, "unexpected token.");
}

#[test]
fn test_compile_unclosed_group_fails() {
    let e = compile_regex("(a").unwrap_err();
    assert_eq!(e, "unexpected end of input.");
}

#[test]
fn test_compile_leading_bar_fails() {
    let e = compile_regex("|a").unwrap_err();
    assert_eq!(e, "unexpected token.");
}

#[test]
fn test_round_trip_nfa_and_dfa_agree() {
    for pattern in ["a", "a*", "a|b", "(a|b)*c", "ab", "a(b|c)a", "(ab)*", "a*b*"] {
        let sm = compile_regex(pattern).unwrap();
        for w in words_up_to(4) {
            assert_eq!(
                accepts(&sm.nfa, &w),
                accepts(&sm.dfa, &w),
                "pattern {} word {}",
                pattern,
                w
            );
        }
    }
}

#[test]
fn test_dfa_view_is_deterministic() {
    for pattern in ["a", "a*", "a|b", "(a|b)*c", "(ab|a)*b"] {
        let sm = compile_regex(pattern).unwrap();
        for state in &sm.dfa.states {
            assert!(state.epsilon_transitions.is_empty());
            for (i, (c, targets)) in state.branches.iter().enumerate() {
                assert_eq!(targets.len(), 1);
                for (j, (c2, _)) in state.branches.iter().enumerate() {
                    if i != j {
                        assert_ne!(c, c2);
                    }
                }
            }
        }
    }
}

#[test]
fn test_epsilon_closure_idempotent() {
    let sm = compile_regex("(a|b)*c").unwrap();
    let mut seed = Vec::new();
    seed.push(0);
    let once = epsilon_closure(&sm.nfa, seed);
    let twice = epsilon_closure(&sm.nfa, once.clone());
    assert_eq!(once, twice);
}

#[test]
fn test_nfa_has_exactly_one_accepting_state() {
    for pattern in ["a", "a*", "a|b", "(a|b)*c"] {
        let sm = compile_regex(pattern).unwrap();
        let accepting = sm.nfa.states.iter().filter(|s| s.accepts).count();
        assert_eq!(accepting, 1);
    }
}

#[test]
fn test_optimize_keeps_language_and_initial_accept() {
    for pattern in ["a", "a*", "a|b", "(a|b)*c"] {
        let sm = compile_regex(pattern).unwrap();
        let machine = automaton_trial::Nfa::from_regex(pattern).unwrap();
        let dfa = automaton_trial::Dfa::from_nfa(&machine);
        let pruned = dfa.optimize();
        assert!(pruned.states.len() <= dfa.states.len());
        assert!(pruned.states.len() >= 1);
        assert_eq!(pruned.states[0].accepts, dfa.states[0].accepts);
        let view = automaton_trial::Nfa::from_dfa(&pruned);
        for w in words_up_to(4) {
            assert_eq!(accepts(&sm.nfa, &w), accepts(&view, &w), "pattern {} word {}", pattern, w);
        }
    }
}

#[test]
fn test_reachable_states_contains_initial_handle() {
    let machine = automaton_trial::Nfa::from_regex("a|b").unwrap();
    let dfa = automaton_trial::Dfa::from_nfa(&machine);
    let reach = automaton_trial::dfa::reachable_states(&dfa, 0);
    assert!(reach.contains(&0));
    for &s in &reach {
        assert!(s < dfa.states.len());
    }
}
