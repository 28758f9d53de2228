use probregex::compile;
use probregex::rational::Prob;
use probregex::regex::match_likelihood;

fn q(n: u64, d: u64) -> Prob {
    Prob::new(n, d)
}

fn one() -> Prob {
    Prob::one()
}

#[test]
fn test_basic() {
    let nfa = compile("abc").unwrap();
    assert_eq!(match_likelihood(&nfa, "ab"), None);
    assert_eq!(match_likelihood(&nfa, "abc"), Some(one()));
    assert_eq!(match_likelihood(&nfa, "abcd"), Some(one()));
}

#[test]
fn test_basic_anchor() {
    let nfa = compile("^abc$").unwrap();
    assert_eq!(match_likelihood(&nfa, "ab"), None);
    assert_eq!(match_likelihood(&nfa, "abc"), Some(one()));
    assert_eq!(match_likelihood(&nfa, "abcd"), None);
}

#[test]
fn test_literal_escape() {
    let nfa = compile(r"^a\\db$").unwrap();
    assert_eq!(match_likelihood(&nfa, "ab"), None);
    assert_eq!(match_likelihood(&nfa, "a0b"), None);
    assert_eq!(match_likelihood(&nfa, "a\\db"), Some(one()));
    assert_eq!(match_likelihood(&nfa, "a\\ddb"), None);
}

#[test]
fn test_quantifier_zero() {
    let nfa = compile("^ab{0}$").unwrap();
    assert_eq!(match_likelihood(&nfa, "a"), Some(one()));
    assert_eq!(match_likelihood(&nfa, "ab"), None);
    assert_eq!(match_likelihood(&nfa, "aa"), None);
}

#[test]
fn test_quantifier_zero_constant() {
    let nfa = compile("^ab{0~Const(0.5)}$").unwrap();
    assert_eq!(match_likelihood(&nfa, "a"), Some(q(1, 2)));
    assert_eq!(match_likelihood(&nfa, "ab"), None);
    assert_eq!(match_likelihood(&nfa, "aa"), None);

    let nfa = compile("^a\\d{0~Const(0.5)}$").unwrap();
    assert_eq!(match_likelihood(&nfa, "a"), Some(q(1, 2)));
    assert_eq!(match_likelihood(&nfa, "a0"), None);
}

#[test]
fn test_quantifier_geo() {
    let nfa = compile("^a{5~Geo(0.5)}$").unwrap();
    assert_eq!(match_likelihood(&nfa, "aaaa"), None);
    assert_eq!(match_likelihood(&nfa, "aaaaa"), Some(q(1, 2)));
    assert_eq!(match_likelihood(&nfa, "aaaaaa"), Some(q(1, 4)));
}

#[test]
fn test_quantifier_zipf() {
    let nfa = compile("^a{2~Zipf(1.0)}$").unwrap();
    // the normalizer is the harmonic number of 2, which is 3/2
    assert_eq!(match_likelihood(&nfa, "a"), Some(q(2, 3)));
    assert_eq!(match_likelihood(&nfa, "aa"), Some(q(1, 3)));
    assert_eq!(match_likelihood(&nfa, "aaa"), Some(q(2, 9)));
}

#[test]
fn test_class_zipf() {
    let nfa = compile("^[ab~Zipf(1.0)]$").unwrap();
    assert_eq!(match_likelihood(&nfa, "a"), Some(q(2, 3)));
    assert_eq!(match_likelihood(&nfa, "b"), Some(q(1, 3)));
    assert_eq!(match_likelihood(&nfa, "c"), None);
}

#[test]
fn test_class_geo() {
    let nfa = compile("^[abc~Geo(0.5)]$").unwrap();
    assert_eq!(match_likelihood(&nfa, "a"), Some(q(1, 2)));
    assert_eq!(match_likelihood(&nfa, "b"), Some(q(1, 4)));
    assert_eq!(match_likelihood(&nfa, "c"), Some(q(1, 8)));
}

#[test]
fn test_class_ber() {
    let nfa = compile("^[abc~Ber(0.5)]$").unwrap();
    assert_eq!(match_likelihood(&nfa, "a"), Some(q(1, 2)));
    assert_eq!(match_likelihood(&nfa, "b"), Some(q(1, 2)));
    assert_eq!(match_likelihood(&nfa, "c"), None);
}

#[test]
fn test_class_bin() {
    let nfa = compile("^[abc~Bin(0.5)]$").unwrap();
    assert_eq!(match_likelihood(&nfa, "a"), Some(q(1, 4)));
    assert_eq!(match_likelihood(&nfa, "b"), Some(q(1, 2)));
    assert_eq!(match_likelihood(&nfa, "c"), Some(q(1, 4)));
}

#[test]
fn test_class_nested_geo() {
    let nfa = compile(r"^[a\d~Geo(0.5)]$").unwrap();
    assert_eq!(match_likelihood(&nfa, "a"), Some(q(1, 2)));
    assert_eq!(match_likelihood(&nfa, "0"), Some(q(1, 4)));
    assert_eq!(match_likelihood(&nfa, "1"), Some(q(1, 8)));
    assert_eq!(match_likelihood(&nfa, "b"), None);
}

#[test]
fn test_dot() {
    let nfa = compile("^a.c$").unwrap();
    assert_eq!(match_likelihood(&nfa, "ab"), None);
    assert_eq!(match_likelihood(&nfa, "abc"), Some(one()));
    assert_eq!(match_likelihood(&nfa, "abcd"), None);
}

#[test]
fn test_dot_quantifier_plus() {
    let nfa = compile("^a.+c$").unwrap();
    assert_eq!(match_likelihood(&nfa, "ab"), None);
    assert_eq!(match_likelihood(&nfa, "abc"), Some(one()));
    assert_eq!(match_likelihood(&nfa, "abbc"), Some(one()));
    assert_eq!(match_likelihood(&nfa, "abcd"), None);
}

#[test]
fn test_dot_quantifier_question() {
    let nfa = compile("^a.?c$").unwrap();
    assert_eq!(match_likelihood(&nfa, "ab"), None);
    assert_eq!(match_likelihood(&nfa, "ac"), Some(one()));
    assert_eq!(match_likelihood(&nfa, "abc"), Some(one()));
    assert_eq!(match_likelihood(&nfa, "abbc"), None);
    assert_eq!(match_likelihood(&nfa, "abcd"), None);
}

#[test]
fn test_dot_quantifier_exact() {
    let nfa = compile("^a.{2}c$").unwrap();
    assert_eq!(match_likelihood(&nfa, "ac"), None);
    assert_eq!(match_likelihood(&nfa, "ab"), None);
    assert_eq!(match_likelihood(&nfa, "abc"), None);
    assert_eq!(match_likelihood(&nfa, "abbc"), Some(one()));
    assert_eq!(match_likelihood(&nfa, "abbbc"), None);
    assert_eq!(match_likelihood(&nfa, "abcd"), None);
}

#[test]
fn test_short_class() {
    let nfa = compile("^a\\dc$").unwrap();
    assert_eq!(match_likelihood(&nfa, "ac"), None);
    assert_eq!(match_likelihood(&nfa, "a1c"), Some(one()));
    assert_eq!(match_likelihood(&nfa, "a2c"), Some(one()));
    assert_eq!(match_likelihood(&nfa, "a12c"), None);
    assert_eq!(match_likelihood(&nfa, "abc"), None);
}

#[test]
fn test_long_class() {
    let nfa = compile("^a[bc]c$").unwrap();
    assert_eq!(match_likelihood(&nfa, "ac"), None);
    assert_eq!(match_likelihood(&nfa, "abc"), Some(one()));
    assert_eq!(match_likelihood(&nfa, "acc"), Some(one()));
    assert_eq!(match_likelihood(&nfa, "adc"), None);
    assert_eq!(match_likelihood(&nfa, "abcc"), None);
}

// the concrete scenarios of the engine's specification

#[test]
fn test_scenario_anchored_exact_count() {
    let nfa = compile("^a.{2}c$").unwrap();
    assert_eq!(match_likelihood(&nfa, "abbc"), Some(one()));
}

#[test]
fn test_boolean_pattern_yields_certainty_or_nothing() {
    // a pattern without distribution clauses yields one or nothing
    for input in ["", "x", "ab", "abc", "abcd", "zabc"] {
        let nfa = compile("ab?c").unwrap();
        match match_likelihood(&nfa, input) {
            Some(p) => assert_eq!(p, one()),
            None => {},
        }
    }
}

#[test]
fn test_anchored_matches_entire_input_only() {
    let nfa = compile("^ab$").unwrap();
    assert_eq!(match_likelihood(&nfa, "ab"), Some(one()));
    assert_eq!(match_likelihood(&nfa, "abx"), None);
    assert_eq!(match_likelihood(&nfa, "xab"), None);
    assert_eq!(match_likelihood(&nfa, "a"), None);
}

#[test]
fn test_compile_twice_identical() {
    let a = compile("^a{3~Geo(0.25)}[bc~Cat(b=0.5)]|x+$").unwrap();
    let b = compile("^a{3~Geo(0.25)}[bc~Cat(b=0.5)]|x+$").unwrap();
    assert_eq!(a, b);
}

#[test]
fn test_empty_pattern_matches_everything() {
    let nfa = compile("").unwrap();
    assert_eq!(match_likelihood(&nfa, ""), Some(one()));
    assert_eq!(match_likelihood(&nfa, "xyz"), Some(one()));
}

#[test]
fn test_likelihood_in_unit_range() {
    let cases = [
        ("^a{5~Geo(0.5)}$", "aaaaaa"),
        ("^[abc~Bin(0.5)]$", "b"),
        ("^a{2~Zipf(1.0)}$", "aaa"),
        ("a+b?c", "aaabc"),
    ];
    for (pat, input) in cases {
        let nfa = compile(pat).unwrap();
        if let Some(p) = match_likelihood(&nfa, input) {
            // num/den <= 1
            assert!(p.num() <= p.den());
        }
    }
}
