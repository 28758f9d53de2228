use probregex::ast::{AstNode, Kind};
use probregex::distribution::{Dist, DistLink};
use probregex::parser::{parse, ParseReason};
use probregex::rational::Prob;

fn q(n: u64, d: u64) -> Prob {
    Prob::new(n, d)
}

fn node(length: usize, kind: Kind) -> AstNode {
    AstNode { length, kind }
}

fn terminal() -> AstNode {
    node(0, Kind::Terminal)
}

fn lit(c: char) -> AstNode {
    node(1, Kind::Literal(c))
}

fn digits() -> Vec<char> {
    vec!['0', '1', '2', '3', '4', '5', '6', '7', '8', '9']
}

#[test]
fn test_parser_single_ast() {
    let result = parse("a").unwrap();
    assert_eq!(result, vec![lit('a'), terminal()]);
}

#[test]
fn test_parser_alternation_ast() {
    let result = parse("a|b").unwrap();
    let expected = vec![
        node(3, Kind::Alternation(Box::new(lit('a')), Box::new(lit('b')))),
        terminal(),
    ];
    assert_eq!(result, expected);
}

#[test]
fn test_parser_conditional_ast() {
    let result = parse("a?").unwrap();
    let expected = vec![
        node(
            2,
            Kind::Quantified(
                Box::new(node(1, Kind::Quantifier('?'))),
                Box::new(lit('a')),
                None,
            ),
        ),
        terminal(),
    ];
    assert_eq!(result, expected);
}

#[test]
fn test_parser_conditional_first_ast() {
    let result = parse("a?b").unwrap();
    let expected = vec![
        node(
            3,
            Kind::Concatenation(
                Box::new(node(
                    2,
                    Kind::Quantified(
                        Box::new(node(1, Kind::Quantifier('?'))),
                        Box::new(lit('a')),
                        None,
                    ),
                )),
                Box::new(lit('b')),
            ),
        ),
        terminal(),
    ];
    assert_eq!(result, expected);
}

#[test]
fn test_parser_exact_quantifier_ast() {
    let result = parse("a{2}").unwrap();
    let expected = vec![
        node(
            2,
            Kind::Quantified(
                Box::new(node(1, Kind::ExactQuantifier(2))),
                Box::new(lit('a')),
                Some(Dist::ExactlyTimes(2).count()),
            ),
        ),
        terminal(),
    ];
    assert_eq!(result, expected);
}

#[test]
fn test_parser_exact_quantifier_dist_ast() {
    let result = parse("a{2~Geo(0.5)}").unwrap();
    let expected = vec![
        node(
            2,
            Kind::Quantified(
                Box::new(node(1, Kind::ExactQuantifier(2))),
                Box::new(lit('a')),
                Some(Dist::PGeometric(2, u64::MAX, q(1, 2)).count()),
            ),
        ),
        terminal(),
    ];
    assert_eq!(result, expected);
}

#[test]
fn test_parser_exact_zero_quantifier_dist_ast() {
    let result = parse("a{0~Const}").unwrap();
    let expected = vec![
        node(
            2,
            Kind::Quantified(
                Box::new(node(1, Kind::ExactQuantifier(0))),
                Box::new(lit('a')),
                Some(Dist::Constant(0, 0, q(1, 1)).count()),
            ),
        ),
        terminal(),
    ];
    assert_eq!(result, expected);
}

#[test]
fn test_parser_exact_class_ast() {
    let result = parse("[abc]").unwrap();
    let expected = vec![node(1, Kind::Class(false, vec!['a', 'b', 'c'])), terminal()];
    assert_eq!(result, expected);
}

#[test]
fn test_parser_exact_class_indexed_dist_ast() {
    let result = parse("[abc~Geo(0.5)]").unwrap();
    let expected = vec![
        node(
            1,
            Kind::Classified(
                Box::new(node(1, Kind::Class(false, vec!['a', 'b', 'c']))),
                Some(Dist::PGeometric(0, u64::MAX, q(1, 2)).index()),
            ),
        ),
        terminal(),
    ];
    assert_eq!(result, expected);
}

fn classified(negated: bool, chars: Vec<char>, masses: Vec<Prob>) -> AstNode {
    node(
        1,
        Kind::Classified(
            Box::new(node(1, Kind::Class(negated, chars))),
            Some(Dist::Categorical(masses).index()),
        ),
    )
}

#[test]
fn test_parser_exact_class_named_dist_ast() {
    let result = parse("[ab~Cat(a=0.7,b=0.2)]").unwrap();
    let expected = vec![
        classified(false, vec!['a', 'b'], vec![q(1, 10), q(7, 10), q(1, 5)]),
        terminal(),
    ];
    assert_eq!(result, expected);
}

#[test]
fn test_parser_exact_class_named_dist_rest_ast() {
    let result = parse("[abc~Cat(a=0.7)]").unwrap();
    let expected = vec![
        classified(
            false,
            vec!['a', 'b', 'c'],
            vec![q(0, 1), q(7, 10), q(3, 20), q(3, 20)],
        ),
        terminal(),
    ];
    assert_eq!(result, expected);
}

#[test]
fn test_parser_exact_class_named_class_dist_ast() {
    let result = parse("[\\d~Cat(1=0.7,2=0.3)]").unwrap();
    let mut masses = vec![q(0, 1), q(0, 1), q(7, 10), q(3, 10)];
    for _ in 0..7 {
        masses.push(q(0, 1));
    }
    let expected = vec![classified(false, digits(), masses), terminal()];
    assert_eq!(result, expected);
}

#[test]
fn test_parser_exact_class_named_dot_ast() {
    let result = parse("[ab~Cat(a=0.7,.=0.1)]").unwrap();
    let expected = vec![
        classified(false, vec!['a', 'b'], vec![q(1, 10), q(7, 10), q(1, 5)]),
        terminal(),
    ];
    assert_eq!(result, expected);
}

#[test]
fn test_parser_exact_class_named_dot_ast_special() {
    let result = parse("[ab~Cat(.=1.0)]").unwrap();
    let expected = vec![
        classified(false, vec!['a', 'b'], vec![q(1, 1), q(0, 1), q(0, 1)]),
        terminal(),
    ];
    assert_eq!(result, expected);
}

#[test]
fn test_parser_exact_class_named_all_implicit() {
    let result = parse("[ab~Cat]").unwrap();
    let expected = vec![
        classified(false, vec!['a', 'b'], vec![q(0, 1), q(1, 2), q(1, 2)]),
        terminal(),
    ];
    assert_eq!(result, expected);
}

#[test]
fn test_parser_exact_class_named_no_implicit() {
    let result = parse("[^ab~Cat(a=0.5,b=0.5)]").unwrap();
    let expected = vec![
        classified(true, vec!['a', 'b'], vec![q(0, 1), q(1, 2), q(1, 2)]),
        terminal(),
    ];
    assert_eq!(result, expected);
}

#[test]
fn test_parser_exact_class_const() {
    let result = parse("[ab~Const]").unwrap();
    let expected = vec![
        node(
            1,
            Kind::Classified(
                Box::new(node(1, Kind::Class(false, vec!['a', 'b']))),
                Some(Dist::Constant(0, 0, q(1, 1)).index()),
            ),
        ),
        terminal(),
    ];
    assert_eq!(result, expected);
}

#[test]
fn test_parser_exact_class_neg_all_implicit() {
    let result = parse("[^ab~Cat]").unwrap();
    let expected = vec![
        classified(true, vec!['a', 'b'], vec![q(1, 1), q(0, 1), q(0, 1)]),
        terminal(),
    ];
    assert_eq!(result, expected);
}

#[test]
fn test_parser_exact_class_neg() {
    let result = parse("[^ab~Cat(a=0.1)]").unwrap();
    let expected = vec![
        classified(true, vec!['a', 'b'], vec![q(9, 10), q(1, 10), q(0, 1)]),
        terminal(),
    ];
    assert_eq!(result, expected);
}

#[test]
fn test_parser_exact_class_neg_dot() {
    let result = parse("[^ab~Cat(a=0.3,.=0.1)]").unwrap();
    let expected = vec![
        classified(true, vec!['a', 'b'], vec![q(1, 10), q(3, 10), q(3, 5)]),
        terminal(),
    ];
    assert_eq!(result, expected);
}

#[test]
fn test_parser_exact_class_named_class_dot_ast() {
    let result = parse("[\\d~Cat(0=0.6,.=0.175)]").unwrap();
    let mut masses = vec![q(7, 40), q(3, 5)];
    for _ in 0..9 {
        // the remaining digits share the implicit mass evenly
        masses.push(q(1, 40));
    }
    let expected = vec![classified(false, digits(), masses), terminal()];
    assert_eq!(result, expected);
}

#[test]
fn test_parser_exact_class_named_dist_rest_zero_ast() {
    let result = parse("^[\\d~Cat(1=0.9,.=0.1)]$").unwrap();
    let mut masses = vec![q(1, 10), q(0, 1), q(9, 10)];
    for _ in 0..8 {
        masses.push(q(0, 1));
    }
    let expected = vec![
        node(0, Kind::AnchorStart),
        classified(false, digits(), masses),
        node(1, Kind::AnchorEnd),
        terminal(),
    ];
    assert_eq!(result, expected);
}

#[test]
fn test_parser_short_class_ast() {
    let result = parse("\\d").unwrap();
    let expected = vec![node(1, Kind::Class(false, digits())), terminal()];
    assert_eq!(result, expected);
}

#[test]
fn test_parser_posix_class_ast() {
    let result = parse("[[:digit:]]").unwrap();
    let expected = vec![node(1, Kind::Class(false, digits())), terminal()];
    assert_eq!(result, expected);
}

#[test]
fn test_parser_anchor_start_ast() {
    let result = parse("^a").unwrap();
    let expected = vec![node(0, Kind::AnchorStart), lit('a'), terminal()];
    assert_eq!(result, expected);
}

#[test]
fn test_parser_anchor_end_ast() {
    let result = parse("a$").unwrap();
    let expected = vec![lit('a'), node(1, Kind::AnchorEnd), terminal()];
    assert_eq!(result, expected);
}

#[test]
fn test_parser_concat_length() {
    let result = parse("ab").unwrap();
    assert_eq!(result[0].length, 2);
}

#[test]
fn test_parser_rejects_garbage() {
    assert_eq!(parse(")a").unwrap_err().reason, ParseReason::UnexpectedChar);
    assert_eq!(parse("a|").unwrap_err().reason, ParseReason::UnexpectedEnd);
    assert_eq!(parse("(ab").unwrap_err().reason, ParseReason::UnexpectedEnd);
    assert_eq!(parse("[]").unwrap_err().reason, ParseReason::EmptyClass);
    assert_eq!(parse("[ab").unwrap_err().reason, ParseReason::UnexpectedEnd);
    assert_eq!(parse("a\\qb").unwrap_err().reason, ParseReason::BadEscape);
    assert_eq!(parse("[[ab]]").unwrap_err().reason, ParseReason::BadPosixClass);
    assert_eq!(parse("a{}").unwrap_err().reason, ParseReason::BadNumber);
    assert_eq!(parse("a{2~Nope}").unwrap_err().reason, ParseReason::UnknownDistribution);
    assert_eq!(parse("a{2~Geo(0)}").unwrap_err().reason, ParseReason::NumericDomain);
    assert_eq!(parse("a{2~Geo(1.5)}").unwrap_err().reason, ParseReason::NumericDomain);
    assert_eq!(
        parse("[ab~Cat(a=0.1,a=0.2)]").unwrap_err().reason,
        ParseReason::DuplicateParam,
    );
    assert_eq!(
        parse("a{99999999999999999999}").unwrap_err().reason,
        ParseReason::NumberTooLarge,
    );
}

#[test]
fn test_parser_error_location() {
    let e = parse("ab)").unwrap_err();
    assert_eq!(e.location, 2);
}
