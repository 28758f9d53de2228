use probregex::ast::{AstNode, Kind};
use probregex::distribution::Dist;
use probregex::nfa::{ast_to_nfa, asts_to_nfa, State};
use probregex::parser::parse;
use probregex::rational::Prob;

fn q(n: u64, d: u64) -> Prob {
    Prob::new(n, d)
}

fn node(length: usize, kind: Kind) -> AstNode {
    AstNode { length, kind }
}

fn lit(c: char) -> AstNode {
    node(1, Kind::Literal(c))
}

#[test]
fn test_compile_simple() {
    let result = ast_to_nfa(
        node(2, Kind::Concatenation(Box::new(lit('a')), Box::new(lit('b')))),
        0,
        2,
    );
    let expected = vec![
        State::literal('a', (Some(1), None)),
        State::literal('b', (Some(2), None)),
    ];
    assert_eq!(result, expected);
}

#[test]
fn test_compile_alternation() {
    let result = ast_to_nfa(
        node(3, Kind::Alternation(Box::new(lit('a')), Box::new(lit('b')))),
        0,
        3,
    );
    let expected = vec![
        State::split((Some(1), Some(2))),
        State::literal('a', (Some(3), None)),
        State::literal('b', (Some(3), None)),
    ];
    assert_eq!(result, expected);
}

fn quantified(q: char, operand: AstNode) -> AstNode {
    node(
        operand.length + 1,
        Kind::Quantified(
            Box::new(node(1, Kind::Quantifier(q))),
            Box::new(operand),
            None,
        ),
    )
}

#[test]
fn test_compile_conditional_first() {
    let result = ast_to_nfa(
        node(3, Kind::Concatenation(Box::new(quantified('?', lit('a'))), Box::new(lit('b')))),
        0,
        3,
    );
    let expected = vec![
        State::new(Kind::Quantifier('?'), (Some(1), Some(2)), None),
        State::literal('a', (Some(2), None)),
        State::literal('b', (Some(3), None)),
    ];
    assert_eq!(result, expected);
}

#[test]
fn test_compile_conditional() {
    let result = ast_to_nfa(
        node(3, Kind::Concatenation(Box::new(lit('a')), Box::new(quantified('?', lit('b'))))),
        0,
        3,
    );
    let expected = vec![
        State::literal('a', (Some(1), None)),
        State::new(Kind::Quantifier('?'), (Some(2), Some(3)), None),
        State::literal('b', (Some(3), None)),
    ];
    assert_eq!(result, expected);
}

#[test]
fn test_compile_quantifier_star() {
    let result = ast_to_nfa(
        node(3, Kind::Concatenation(Box::new(lit('a')), Box::new(quantified('*', lit('b'))))),
        0,
        3,
    );
    let expected = vec![
        State::literal('a', (Some(1), None)),
        State::new(Kind::Quantifier('*'), (Some(2), Some(3)), None),
        State::literal('b', (Some(1), None)),
    ];
    assert_eq!(result, expected);
}

#[test]
fn test_compile_quantifier_plus() {
    let result = ast_to_nfa(
        node(3, Kind::Concatenation(Box::new(lit('a')), Box::new(quantified('+', lit('b'))))),
        0,
        3,
    );
    let expected = vec![
        State::literal('a', (Some(1), None)),
        State::new(Kind::Quantifier('+'), (Some(2), Some(3)), None),
        State::literal('b', (Some(1), None)),
    ];
    assert_eq!(result, expected);
}

fn exact_quantified(n: u64, operand: AstNode, dist: Dist) -> AstNode {
    node(
        operand.length + 1,
        Kind::Quantified(
            Box::new(node(1, Kind::ExactQuantifier(n))),
            Box::new(operand),
            Some(dist.count()),
        ),
    )
}

#[test]
fn test_compile_quantifier_exact() {
    let result = ast_to_nfa(
        node(
            3,
            Kind::Concatenation(
                Box::new(lit('a')),
                Box::new(exact_quantified(2, lit('b'), Dist::ExactlyTimes(2))),
            ),
        ),
        0,
        3,
    );
    let expected = vec![
        State::literal('a', (Some(1), None)),
        State::new(Kind::ExactQuantifier(2), (Some(2), Some(3)), Some(Dist::ExactlyTimes(2).count())),
        State::literal('b', (Some(1), None)),
    ];
    assert_eq!(result, expected);
}

#[test]
fn test_compile_quantifier_exact_dist() {
    let dist = Dist::PGeometric(2, u64::MAX, q(1, 2));
    let result = ast_to_nfa(
        node(
            3,
            Kind::Concatenation(
                Box::new(lit('a')),
                Box::new(exact_quantified(2, lit('b'), dist.clone())),
            ),
        ),
        0,
        3,
    );
    let expected = vec![
        State::literal('a', (Some(1), None)),
        State::new(Kind::ExactQuantifier(2), (Some(2), Some(3)), Some(dist.count())),
        State::literal('b', (Some(1), None)),
    ];
    assert_eq!(result, expected);
}

#[test]
fn test_compile_exact_class() {
    let result = ast_to_nfa(
        node(
            1,
            Kind::Classified(
                Box::new(node(1, Kind::Class(false, vec!['a', 'b', 'c']))),
                None,
            ),
        ),
        0,
        1,
    );
    let expected = vec![
        State::new(Kind::Class(false, vec!['a', 'b', 'c']), (Some(1), None), None),
    ];
    assert_eq!(result, expected);
}

#[test]
fn test_compile_exact_class_dist() {
    let dist = Dist::PGeometric(0, u64::MAX, q(1, 2));
    let result = ast_to_nfa(
        node(
            1,
            Kind::Classified(
                Box::new(node(1, Kind::Class(false, vec!['a', 'b', 'c']))),
                Some(dist.clone().index()),
            ),
        ),
        0,
        1,
    );
    let expected = vec![
        State::new(
            Kind::Class(false, vec!['a', 'b', 'c']),
            (Some(1), None),
            Some(dist.index()),
        ),
    ];
    assert_eq!(result, expected);
}

#[test]
fn test_asts_to_nfa() {
    let first = node(
        3,
        Kind::Concatenation(Box::new(lit('a')), Box::new(quantified('*', lit('b')))),
    );
    let second = node(0, Kind::Terminal);
    let expected = vec![
        State::start(Some(1)),
        State::literal('a', (Some(2), None)),
        State::new(Kind::Quantifier('*'), (Some(3), Some(4)), None),
        State::literal('b', (Some(2), None)),
        State::terminal(),
    ];
    assert_eq!(asts_to_nfa(vec![first, second]), expected);
}

#[test]
fn test_asts_to_nfa_with_anchor_start() {
    let first = node(0, Kind::AnchorStart);
    let second = node(2, Kind::Concatenation(Box::new(lit('a')), Box::new(lit('b'))));
    let third = node(0, Kind::Terminal);
    let expected = vec![
        State::anchor_start(Some(1)),
        State::literal('a', (Some(2), None)),
        State::literal('b', (Some(3), None)),
        State::terminal(),
    ];
    assert_eq!(asts_to_nfa(vec![first, second, third]), expected);
}

#[test]
fn test_asts_to_nfa_with_anchor_end() {
    let first = node(2, Kind::Concatenation(Box::new(lit('a')), Box::new(lit('b'))));
    let second = node(1, Kind::AnchorEnd);
    let third = node(0, Kind::Terminal);
    let expected = vec![
        State::start(Some(1)),
        State::literal('a', (Some(2), None)),
        State::literal('b', (Some(3), None)),
        State::anchor_end(Some(4)),
        State::terminal(),
    ];
    assert_eq!(asts_to_nfa(vec![first, second, third]), expected);
}

#[test]
fn test_asts_to_nfa_start_node_special_case_1() {
    let asts = parse("ab?c").unwrap();
    let expected = vec![
        State::start(Some(1)),
        State::literal('a', (Some(2), None)),
        State::new(Kind::Quantifier('?'), (Some(3), Some(4)), None),
        State::literal('b', (Some(4), None)),
        State::literal('c', (Some(5), None)),
        State::terminal(),
    ];
    assert_eq!(asts_to_nfa(asts), expected);
}

#[test]
fn test_asts_to_nfa_start_node_special_case_2() {
    let asts = parse("ab{0}c").unwrap();
    let expected = vec![
        State::start(Some(1)),
        State::literal('a', (Some(2), None)),
        State::new(Kind::ExactQuantifier(0), (Some(3), Some(4)), Some(Dist::ExactlyTimes(0).count())),
        State::literal('b', (Some(2), None)),
        State::literal('c', (Some(5), None)),
        State::terminal(),
    ];
    assert_eq!(asts_to_nfa(asts), expected);
}

#[test]
fn test_asts_to_nfa_start_node_special_case_3() {
    let asts = parse("a?b").unwrap();
    let expected = vec![
        State::start(Some(1)),
        State::new(Kind::Quantifier('?'), (Some(2), Some(3)), None),
        State::literal('a', (Some(3), None)),
        State::literal('b', (Some(4), None)),
        State::terminal(),
    ];
    assert_eq!(asts_to_nfa(asts), expected);
}

#[test]
fn test_nfas_to_ast_start_node_special_case_4() {
    let asts = parse("a{2}b").unwrap();
    let expected = vec![
        State::start(Some(1)),
        State::new(Kind::ExactQuantifier(2), (Some(2), Some(3)), Some(Dist::ExactlyTimes(2).count())),
        State::literal('a', (Some(1), None)),
        State::literal('b', (Some(4), None)),
        State::terminal(),
    ];
    assert_eq!(asts_to_nfa(asts), expected);
}

#[test]
fn test_asts_to_nfa_with_anchor_start_2() {
    let asts = parse("^ab").unwrap();
    let expected = vec![
        State::anchor_start(Some(1)),
        State::literal('a', (Some(2), None)),
        State::literal('b', (Some(3), None)),
        State::terminal(),
    ];
    assert_eq!(asts_to_nfa(asts), expected);
}
