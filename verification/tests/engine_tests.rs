use probregex::cli;
use probregex::config::parse_options;
use probregex::rational::Prob;

#[test]
fn test_prob_arithmetic() {
    let half = Prob::new(1, 2);
    assert_eq!(half.mul(half), Prob::new(1, 4));
    assert_eq!(half.one_minus(), half);
    assert_eq!(Prob::new(3, 4).one_minus(), Prob::new(1, 4));
    assert_eq!(Prob::new(5, 4).one_minus(), Prob::zero());
    assert_eq!(Prob::new(6, 8), Prob::new(3, 4));
    assert_eq!(Prob::new(2, 6).num(), 1);
    assert_eq!(Prob::new(2, 6).den(), 3);
    assert!(Prob::new(1, 3).le(&Prob::new(1, 2)));
    assert!(!Prob::new(2, 3).le(&Prob::new(1, 2)));
    assert_eq!(Prob::new(1, 3).max(Prob::new(1, 2)), Prob::new(1, 2));
    assert!(Prob::one().ge_one());
    assert!(!Prob::new(99, 100).ge_one());
    assert_eq!(Prob::new(1, 2).add_checked(Prob::new(1, 3)), Some(Prob::new(5, 6)));
    assert_eq!(Prob::new(1, 2).div_nat_checked(3), Some(Prob::new(1, 6)));
    assert_eq!(Prob::new(1, 2).div(Prob::new(3, 2)), Prob::new(1, 3));
}

#[test]
fn test_parse_options_both_given() {
    let c = parse_options(Some(String::from("a+b")), Some(String::from("aab"))).unwrap();
    assert_eq!(c.pattern, "a+b");
    assert_eq!(c.string, "aab");
}

#[test]
fn test_parse_options_missing() {
    assert!(parse_options(None, Some(String::from("aab"))).is_err());
    assert!(parse_options(Some(String::from("a+b")), None).is_err());
    assert!(parse_options(None, None).is_err());
}

#[test]
fn test_cli_config() {
    let c = cli::Config::new(0, None, String::from("a?b"), Some(String::from("ab")));
    assert_eq!(c.pattern, "a?b");
    assert_eq!(c.input_string.as_deref(), Some("ab"));
    assert_eq!(c.input_file, None);
    assert_eq!(c.verbosity, 0);
}
