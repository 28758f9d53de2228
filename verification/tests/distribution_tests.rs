use probregex::distribution::Dist;
use probregex::rational::Prob;

fn q(n: u64, d: u64) -> Prob {
    Prob::new(n, d)
}

#[test]
fn test_distribution_constant() {
    assert_eq!(Dist::Constant(0, 1, q(1, 1)).evaluate(1), (q(1, 1), q(1, 1)));
    assert_eq!(Dist::Constant(0, 1, q(1, 2)).evaluate(1), (q(1, 2), q(1, 2)));
    assert_eq!(Dist::Constant(0, 1, q(1, 2)).evaluate(2), (q(0, 1), q(0, 1)));
}

#[test]
fn test_distribution_exactly_times() {
    assert_eq!(Dist::ExactlyTimes(2).evaluate(0), (q(1, 1), q(0, 1)));
    assert_eq!(Dist::ExactlyTimes(2).evaluate(1), (q(1, 1), q(0, 1)));
    assert_eq!(Dist::ExactlyTimes(2).evaluate(2), (q(0, 1), q(1, 1)));
    assert_eq!(Dist::ExactlyTimes(2).evaluate(3), (q(0, 1), q(0, 1)));
}

#[test]
fn test_distribution_geometric_1_or_more() {
    assert_eq!(Dist::PGeometric(1, u64::MAX, q(1, 2)).evaluate(0), (q(1, 1), q(0, 1)));
    assert_eq!(Dist::PGeometric(1, u64::MAX, q(1, 2)).evaluate(1), (q(1, 2), q(1, 2)));
    assert_eq!(Dist::PGeometric(1, u64::MAX, q(1, 2)).evaluate(2), (q(3, 4), q(1, 4)));
}

#[test]
fn test_distribution_geometric_2_or_more() {
    assert_eq!(Dist::PGeometric(2, u64::MAX, q(1, 2)).evaluate(0), (q(1, 1), q(0, 1)));
    assert_eq!(Dist::PGeometric(2, u64::MAX, q(1, 2)).evaluate(1), (q(1, 1), q(0, 1)));
    assert_eq!(Dist::PGeometric(2, u64::MAX, q(1, 2)).evaluate(2), (q(1, 2), q(1, 2)));
}

#[test]
fn test_distribution_binomial_degenerate() {
    // p = 0, the distribution is concentrated at 0
    assert_eq!(Dist::PBinomial(0, 0, q(0, 1)).evaluate(0), (q(0, 1), q(1, 1)));
    assert_eq!(Dist::PBinomial(0, 0, q(0, 1)).evaluate(1), (q(0, 1), q(0, 1)));
    assert_eq!(Dist::PBinomial(0, 0, q(0, 1)).evaluate(2), (q(0, 1), q(0, 1)));
    assert_eq!(Dist::PBinomial(0, 0, q(0, 1)).evaluate(5), (q(0, 1), q(0, 1)));
    // p = 1, the distribution is concentrated at n
    assert_eq!(Dist::PBinomial(0, 1, q(1, 1)).evaluate(1), (q(0, 1), q(1, 1)));
    assert_eq!(Dist::PBinomial(0, 1, q(1, 1)).evaluate(2), (q(0, 1), q(0, 1)));
    assert_eq!(Dist::PBinomial(0, 5, q(1, 1)).evaluate(5), (q(0, 1), q(1, 1)));
}

#[test]
fn test_distribution_binomial_up_to_1() {
    assert_eq!(Dist::PBinomial(0, 1, q(1, 2)).evaluate(0), (q(1, 2), q(1, 2)));
    assert_eq!(Dist::PBinomial(0, 1, q(1, 2)).evaluate(1), (q(1, 2), q(1, 2)));
    assert_eq!(Dist::PBinomial(0, 1, q(1, 2)).evaluate(2), (q(0, 1), q(0, 1)));
}

#[test]
fn test_distribution_binomial_up_to_2() {
    assert_eq!(Dist::PBinomial(0, 2, q(1, 2)).evaluate(0), (q(3, 4), q(1, 4)));
    assert_eq!(Dist::PBinomial(0, 2, q(1, 2)).evaluate(1), (q(1, 2), q(1, 2)));
    assert_eq!(Dist::PBinomial(0, 2, q(1, 2)).evaluate(2), (q(3, 4), q(1, 4)));
    assert_eq!(Dist::PBinomial(0, 2, q(1, 2)).evaluate(3), (q(0, 1), q(0, 1)));
}

#[test]
fn test_distribution_bernoulli() {
    assert_eq!(Dist::PBernoulli(0, 1, q(1, 2)).evaluate(0), (q(1, 2), q(1, 2)));
    assert_eq!(Dist::PBernoulli(0, 1, q(1, 2)).evaluate(1), (q(1, 2), q(1, 2)));
    assert_eq!(Dist::PBernoulli(0, 2, q(1, 2)).evaluate(2), (q(1, 1), q(0, 1)));
}

#[test]
fn test_distribution_categorical() {
    let dist = Dist::Categorical(vec![q(1, 2), q(3, 10), q(1, 5)]);
    assert_eq!(dist.evaluate(0), (q(1, 2), q(1, 2)));
    assert_eq!(dist.evaluate(1), (q(7, 10), q(3, 10)));
    assert_eq!(dist.evaluate(2), (q(4, 5), q(1, 5)));
    assert_eq!(dist.evaluate(3), (q(1, 1), q(0, 1)));
}

#[test]
fn test_distribution_zipf() {
    // n_max = 1: the normalizing constant is 1
    let dist = Dist::PZipf(0, 1, 1);
    assert_eq!(dist.evaluate(1), (q(0, 1), q(1, 1)));
    assert_eq!(dist.evaluate(2), (q(1, 2), q(1, 2)));
    // n_max = 2: the normalizing constant is 3/2
    let dist = Dist::PZipf(0, 2, 1);
    assert_eq!(dist.evaluate(1), (q(1, 3), q(2, 3)));
    assert_eq!(dist.evaluate(2), (q(2, 3), q(1, 3)));
}

#[test]
fn test_distribution_zero_weight_flushes() {
    // a weight computed past the 64-bit width flushes to zero: a long
    // geometric tail underflows exactly at the width boundary
    let d = Dist::PGeometric(1, u64::MAX, Prob::new(1, 2));
    let (_, p1) = d.evaluate(100);
    assert!(p1.is_zero());
}
