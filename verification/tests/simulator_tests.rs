use probregex::ast::Kind;
use probregex::distribution::{Dist, DistLink};
use probregex::nfa::State;
use probregex::rational::Prob;
use probregex::regex::{add_counts, step_states};
use probregex::regex_state::{evaluate_state, initial_state, terminal_state_p, Tokens};
use probregex::runner::match_p;

fn q(n: u64, d: u64) -> Prob {
    Prob::new(n, d)
}

fn one() -> Prob {
    Prob::one()
}

/// A dense active set from (slot, weight) pairs.
fn dense(len: usize, pairs: &[(usize, Prob)]) -> Vec<Option<Prob>> {
    let mut v: Vec<Option<Prob>> = Vec::new();
    for _ in 0..len {
        v.push(None);
    }
    for (i, p) in pairs {
        v[*i] = Some(*p);
    }
    v
}

#[test]
fn test_tokens_frame() {
    let toks = Tokens::from("ab").as_vec();
    assert_eq!(
        toks,
        vec![Kind::Start, Kind::Literal('a'), Kind::Literal('b'), Kind::Terminal],
    );
    // the frame has exactly two more tokens than the input has characters
    assert_eq!(Tokens::from("").as_vec().len(), 2);
    assert_eq!(Tokens::from("abcde").as_vec().len(), 7);
}

#[test]
fn test_initial_state_start() {
    let nfa = vec![State::start(Some(1)), State::literal('a', (Some(2), None))];
    let states = initial_state(&nfa, false);
    assert_eq!(states, dense(2, &[(0, one())]));

    let states = initial_state(&nfa, true);
    assert_eq!(states, dense(2, &[(0, one()), (1, one())]));
}

#[test]
fn test_initial_state_anchor_start() {
    let nfa = vec![State::anchor_start(Some(1)), State::literal('a', (Some(2), None))];
    let states = initial_state(&nfa, false);
    assert_eq!(states, dense(2, &[(0, one())]));

    let states = initial_state(&nfa, true);
    assert_eq!(states, dense(2, &[(1, one())]));
}

#[test]
fn test_add_counts() {
    let nfa = vec![State::start(Some(1)), State::literal('a', (Some(2), None))];
    let states = initial_state(&nfa, true);
    let counts = add_counts(&states, &vec![0, 0]);
    assert_eq!(counts, vec![1, 1]);
}

#[test]
fn test_step_states_literals() {
    let nfa = vec![
        State::start(Some(1)),
        State::literal('a', (Some(2), None)),
        State::literal('b', (Some(3), None)),
        State::terminal(),
    ];
    let counts = vec![0, 0, 0, 0];
    let states = initial_state(&nfa, true);
    assert_eq!(states, dense(4, &[(0, one()), (1, one())]));

    let states = step_states(&states, &counts, &Kind::Literal('a'), &nfa);
    assert_eq!(states, dense(4, &[(0, one()), (1, one()), (2, one())]));

    let states = step_states(&states, &counts, &Kind::Literal('a'), &nfa);
    assert_eq!(states, dense(4, &[(0, one()), (1, one()), (2, one())]));

    let states = step_states(&states, &counts, &Kind::Literal('b'), &nfa);
    assert_eq!(states, dense(4, &[(0, one()), (1, one()), (3, one())]));
}

#[test]
fn test_step_states_anchored_literals() {
    let nfa = vec![
        State::anchor_start(Some(1)),
        State::literal('a', (Some(2), None)),
        State::literal('b', (Some(3), None)),
        State::terminal(),
    ];
    let counts = vec![0, 0, 0, 0];
    let states = initial_state(&nfa, true);
    assert_eq!(states, dense(4, &[(1, one())]));

    let states = step_states(&states, &counts, &Kind::Literal('a'), &nfa);
    assert_eq!(states, dense(4, &[(2, one())]));

    let states = step_states(&states, &counts, &Kind::Literal('a'), &nfa);
    assert_eq!(states, dense(4, &[]));
}

#[test]
fn test_step_states_alternation() {
    let nfa = vec![
        State::start(Some(1)),
        State::split((Some(2), Some(3))),
        State::literal('a', (Some(4), None)),
        State::literal('b', (Some(4), None)),
        State::terminal(),
    ];
    let counts = vec![0, 0, 0, 0, 0];
    let states = initial_state(&nfa, true);
    assert_eq!(states, dense(5, &[(0, one()), (2, one()), (3, one())]));

    let states = step_states(&states, &counts, &Kind::Literal('a'), &nfa);
    assert_eq!(states, dense(5, &[(0, one()), (2, one()), (3, one()), (4, one())]));

    let states = step_states(&states, &counts, &Kind::Literal('b'), &nfa);
    assert_eq!(states, dense(5, &[(0, one()), (2, one()), (3, one()), (4, one())]));
}

#[test]
fn test_evaluate_state_literals() {
    let nfa = vec![
        State::start(Some(1)),
        State::literal('a', (Some(2), None)),
        State::literal('b', (Some(3), None)),
        State::terminal(),
    ];
    let counts = vec![0, 0, 0, 0];
    let fuel = nfa.len() + 1;

    let ts = evaluate_state(&nfa, &counts, Some(1), &Kind::Literal('a'), one(), false, fuel);
    let got: Vec<(Option<usize>, Prob)> = ts.iter().map(|t| (t.0, t.1)).collect();
    assert_eq!(got, vec![(Some(2), one())]);

    let ts = evaluate_state(&nfa, &counts, Some(1), &Kind::Literal('b'), one(), false, fuel);
    assert_eq!(ts.len(), 0);
}

#[test]
fn test_evaluate_state_dot() {
    let nfa = vec![
        State::start(Some(1)),
        State::dot((Some(2), None)),
        State::terminal(),
    ];
    let counts = vec![0, 0, 0];
    let fuel = nfa.len() + 1;

    let ts = evaluate_state(&nfa, &counts, Some(1), &Kind::Literal('x'), one(), false, fuel);
    let got: Vec<(Option<usize>, Prob)> = ts.iter().map(|t| (t.0, t.1)).collect();
    assert_eq!(got, vec![(Some(2), one())]);

    // the dot consumes only literal tokens
    let ts = evaluate_state(&nfa, &counts, Some(1), &Kind::Terminal, one(), false, fuel);
    assert_eq!(ts.len(), 0);
}

#[test]
fn test_evaluate_state_geo_quantifier() {
    let nfa = vec![
        State::anchor_start(Some(1)),
        State::new(
            Kind::ExactQuantifier(2),
            (Some(2), Some(3)),
            Some(DistLink::Counted(Dist::PGeometric(2, u64::MAX, q(1, 2)))),
        ),
        State::literal('a', (Some(1), None)),
        State::literal('b', (Some(4), None)),
        State::terminal(),
    ];
    let counts = vec![0, 0, 0, 0, 0];
    let fuel = nfa.len() + 1;

    let ts = evaluate_state(&nfa, &counts, Some(2), &Kind::Literal('a'), one(), false, fuel);
    let got: Vec<(Option<usize>, Prob)> = ts.iter().map(|t| (t.0, t.1)).collect();
    assert_eq!(
        got,
        vec![(Some(1), one()), (Some(2), one()), (Some(3), q(0, 1))],
    );
}

#[test]
fn test_evaluate_state_geo_class() {
    let nfa = vec![
        State::anchor_start(Some(1)),
        State::new(
            Kind::Class(false, vec!['a', 'b', 'c']),
            (Some(2), None),
            Some(DistLink::Indexed(Dist::PGeometric(0, u64::MAX, q(1, 2)))),
        ),
        State::terminal(),
    ];
    let counts = vec![0, 0, 0];
    let fuel = nfa.len() + 1;

    let ts = evaluate_state(&nfa, &counts, Some(1), &Kind::Literal('a'), one(), false, fuel);
    let got: Vec<(Option<usize>, Prob)> = ts.iter().map(|t| (t.0, t.1)).collect();
    assert_eq!(got, vec![(Some(2), q(1, 2))]);
}

#[test]
fn test_terminal_state_p_requires_positive_weight() {
    let nfa = vec![State::start(Some(1)), State::terminal()];
    let states = dense(2, &[(1, q(0, 1))]);
    assert_eq!(terminal_state_p(&states, &nfa), None);
    let states = dense(2, &[(1, q(1, 4))]);
    assert_eq!(terminal_state_p(&states, &nfa), Some(q(1, 4)));
}

#[test]
fn test_matches_simple_literal() {
    let nfa = vec![
        State::anchor_start(Some(1)),
        State::literal('a', (Some(2), None)),
        State::literal('b', (Some(3), None)),
        State::terminal(),
    ];
    assert_eq!(probregex::runner::matches(&nfa, "ab"), true);
    assert_eq!(probregex::runner::matches(&nfa, "bb"), false);
    assert_eq!(probregex::runner::matches(&nfa, "abx"), true);
    assert_eq!(probregex::runner::matches(&nfa, "xab"), false);
}

#[test]
fn test_matches_simple_literal_without_start_anchor() {
    let nfa = vec![
        State::start(Some(1)),
        State::literal('a', (Some(2), None)),
        State::literal('b', (Some(3), None)),
        State::terminal(),
    ];
    assert_eq!(probregex::runner::matches(&nfa, "bb"), false);
    assert_eq!(probregex::runner::matches(&nfa, "ab"), true);
    assert_eq!(probregex::runner::matches(&nfa, "xab"), true);
}

#[test]
fn test_matches_simple_alternation() {
    let nfa = vec![
        State::anchor_start(Some(1)),
        State::split((Some(2), Some(3))),
        State::literal('a', (Some(4), None)),
        State::literal('b', (Some(4), None)),
        State::terminal(),
    ];
    assert_eq!(probregex::runner::matches(&nfa, "a"), true);
    assert_eq!(probregex::runner::matches(&nfa, "ax"), true);
    assert_eq!(probregex::runner::matches(&nfa, "bx"), true);
    assert_eq!(probregex::runner::matches(&nfa, "xa"), false);
    assert_eq!(probregex::runner::matches(&nfa, "xb"), false);
}

#[test]
fn test_matches_simple_dot() {
    let nfa = vec![
        State::anchor_start(Some(1)),
        State::dot((Some(2), None)),
        State::literal('b', (Some(3), None)),
        State::terminal(),
    ];
    assert_eq!(probregex::runner::matches(&nfa, "ab"), true);
    assert_eq!(probregex::runner::matches(&nfa, "xb"), true);
    assert_eq!(probregex::runner::matches(&nfa, "abx"), true);
    assert_eq!(probregex::runner::matches(&nfa, "xab"), false);
}

#[test]
fn test_matches_conditional_first() {
    let nfa = vec![
        State::anchor_start(Some(2)),
        State::literal('a', (Some(3), None)),
        State::new(Kind::Quantifier('?'), (Some(1), Some(3)), None),
        State::literal('b', (Some(4), None)),
        State::terminal(),
    ];
    assert_eq!(probregex::runner::matches(&nfa, "a"), false);
    assert_eq!(probregex::runner::matches(&nfa, "b"), true);
    assert_eq!(probregex::runner::matches(&nfa, "ab"), true);
    assert_eq!(probregex::runner::matches(&nfa, "bx"), true);
    assert_eq!(probregex::runner::matches(&nfa, "xa"), false);
    assert_eq!(probregex::runner::matches(&nfa, "xb"), false);
}

#[test]
fn test_matches_simple_conditional() {
    let nfa = vec![
        State::anchor_start(Some(1)),
        State::literal('a', (Some(3), None)),
        State::literal('b', (Some(4), None)),
        State::new(Kind::Quantifier('?'), (Some(2), Some(4)), None),
        State::literal('c', (Some(5), None)),
        State::terminal(),
    ];
    assert_eq!(probregex::runner::matches(&nfa, "a"), false);
    assert_eq!(probregex::runner::matches(&nfa, "ab"), false);
    assert_eq!(probregex::runner::matches(&nfa, "axc"), false);
    assert_eq!(probregex::runner::matches(&nfa, "abc"), true);
    assert_eq!(probregex::runner::matches(&nfa, "abbc"), false);
    assert_eq!(probregex::runner::matches(&nfa, "ac"), true);
    assert_eq!(probregex::runner::matches(&nfa, "abcx"), true);
    assert_eq!(probregex::runner::matches(&nfa, "xabc"), false);
}

#[test]
fn test_matches_simple_plus() {
    let nfa = vec![
        State::start(Some(1)),
        State::literal('a', (Some(2), None)),
        State::literal('b', (Some(3), None)),
        State::new(Kind::Quantifier('+'), (Some(2), Some(4)), None),
        State::literal('c', (Some(5), None)),
        State::terminal(),
    ];
    assert_eq!(probregex::runner::matches(&nfa, "a"), false);
    assert_eq!(probregex::runner::matches(&nfa, "ab"), false);
    assert_eq!(probregex::runner::matches(&nfa, "axc"), false);
    assert_eq!(probregex::runner::matches(&nfa, "abc"), true);
    assert_eq!(probregex::runner::matches(&nfa, "abbc"), true);
    assert_eq!(probregex::runner::matches(&nfa, "ac"), false);
    assert_eq!(probregex::runner::matches(&nfa, "abcx"), true);
    assert_eq!(probregex::runner::matches(&nfa, "xabc"), true);
}

#[test]
fn test_matches_simple_star() {
    let nfa = vec![
        State::start(Some(1)),
        State::literal('a', (Some(3), None)),
        State::literal('b', (Some(3), None)),
        State::new(Kind::Quantifier('*'), (Some(2), Some(4)), None),
        State::literal('c', (Some(5), None)),
        State::terminal(),
    ];
    assert_eq!(probregex::runner::matches(&nfa, "a"), false);
    assert_eq!(probregex::runner::matches(&nfa, "ab"), false);
    assert_eq!(probregex::runner::matches(&nfa, "abc"), true);
    assert_eq!(probregex::runner::matches(&nfa, "axc"), false);
    assert_eq!(probregex::runner::matches(&nfa, "abbc"), true);
    assert_eq!(probregex::runner::matches(&nfa, "ac"), true);
    assert_eq!(probregex::runner::matches(&nfa, "abcx"), true);
    assert_eq!(probregex::runner::matches(&nfa, "xabc"), true);
}

#[test]
fn test_matches_exact_quantifier() {
    let nfa = vec![
        State::anchor_start(Some(1)),
        State::new(
            Kind::ExactQuantifier(2),
            (Some(2), Some(3)),
            Some(DistLink::Counted(Dist::ExactlyTimes(2))),
        ),
        State::literal('a', (Some(1), None)),
        State::literal('b', (Some(4), None)),
        State::terminal(),
    ];
    assert_eq!(probregex::runner::matches(&nfa, "a"), false);
    assert_eq!(probregex::runner::matches(&nfa, "aa"), false);
    assert_eq!(probregex::runner::matches(&nfa, "ab"), false);
    assert_eq!(probregex::runner::matches(&nfa, "aba"), false);
    assert_eq!(probregex::runner::matches(&nfa, "aab"), true);
    assert_eq!(probregex::runner::matches(&nfa, "abb"), false);
    assert_eq!(probregex::runner::matches(&nfa, "aaab"), false);
    assert_eq!(probregex::runner::matches(&nfa, "xaab"), false);
    assert_eq!(probregex::runner::matches(&nfa, "aabx"), true);
}

#[test]
fn test_match_p_empty_automaton() {
    let nfa: Vec<State> = vec![];
    assert_eq!(match_p(&nfa, "anything"), Some(one()));
}
