//! Discrete distributions attached to quantifiers and character classes.
//!
//! A distribution is evaluated at a point `x` and yields the pair
//! `(p0, p1)` of weights for the two out-edges of its host state: `p0`
//! weights staying in the loop, `p1` weights leaving it. All probability
//! mass functions are computed exactly on rational weights; see
//! [`crate::rational`] for the flush-to-zero convention on values that do
//! not fit in 64 bits.

use vstd::prelude::*;

use crate::rational::{
    gcd, norm, rat_add_exact, rat_comp, rat_div, rat_fits, rat_flush, rat_mul, rat_one, rat_zero,
    Prob, Rat,
};

verus! {

/// A discrete distribution. Range fields come first: `n_min`/`n_max`
/// bound the support as described for each variant.
#[derive(Debug, Clone, PartialEq)]
pub enum Dist {
    /// Explicit probability mass by index; index 0 is the remainder slot.
    Categorical(Vec<Prob>),
    /// `(n_min, n_max, p)`: emits `p` inside the range, zero outside.
    Constant(u64, u64, Prob),
    /// Matches exactly `n` times.
    ExactlyTimes(u64),
    /// `(n_min, n_max, p)`: geometric with success probability `p`,
    /// shifted to start at `n_min`.
    PGeometric(u64, u64, Prob),
    /// `(n_min, n_max, p)`: binomial over `n_max` trials.
    PBinomial(u64, u64, Prob),
    /// `(n_min, n_max, p)`: Bernoulli; support is `{0, 1}`.
    PBernoulli(u64, u64, Prob),
    /// `(n_min, n_max, s)`: Zipf over `{1, .., n_max}` with integer
    /// exponent `s`.
    PZipf(u64, u64, u64),
}

/// How a distribution is indexed during simulation.
#[derive(Debug, Clone, PartialEq)]
pub enum DistLink {
    /// Evaluated against the visit count of the host state.
    Counted(Dist),
    /// Evaluated against the position of the input character in the host
    /// class's character list.
    Indexed(Dist),
}

/// Spec-level mirror of [`Dist`].
pub enum DistV {
    Categorical(Seq<Rat>),
    Constant(u64, u64, Rat),
    ExactlyTimes(u64),
    PGeometric(u64, u64, Rat),
    PBinomial(u64, u64, Rat),
    PBernoulli(u64, u64, Rat),
    PZipf(u64, u64, u64),
}

/// Spec-level mirror of [`DistLink`].
pub enum DistLinkV {
    Counted(DistV),
    Indexed(DistV),
}

pub open spec fn dist_view(d: Dist) -> DistV {
    match d {
        Dist::Categorical(v) => DistV::Categorical(v@.map_values(|p: Prob| p@)),
        Dist::Constant(a, b, p) => DistV::Constant(a, b, p@),
        Dist::ExactlyTimes(n) => DistV::ExactlyTimes(n),
        Dist::PGeometric(a, b, p) => DistV::PGeometric(a, b, p@),
        Dist::PBinomial(a, b, p) => DistV::PBinomial(a, b, p@),
        Dist::PBernoulli(a, b, p) => DistV::PBernoulli(a, b, p@),
        Dist::PZipf(a, b, s) => DistV::PZipf(a, b, s),
    }
}

pub open spec fn link_view(l: DistLink) -> DistLinkV {
    match l {
        DistLink::Counted(d) => DistLinkV::Counted(dist_view(d)),
        DistLink::Indexed(d) => DistLinkV::Indexed(dist_view(d)),
    }
}

/// `base ^ e` under flush-to-zero multiplication, innermost first.
pub open spec fn spec_pow_rat(base: Rat, e: nat) -> Rat
    decreases e,
{
    if e == 0 {
        rat_one()
    } else {
        rat_mul(base, spec_pow_rat(base, (e - 1) as nat))
    }
}

/// The running product `c_k = floor(c_{k-1} * (n + 1 - k) / k)` computing
/// the binomial coefficient; `None` once an intermediate exceeds 128 bits.
pub open spec fn spec_choose_chain(n: nat, k: nat) -> Option<nat>
    decreases k,
{
    if k == 0 {
        Some(1)
    } else if k > n {
        Some(0)
    } else {
        match spec_choose_chain(n, (k - 1) as nat) {
            None => None,
            Some(c) => {
                let m = c * ((n + 1 - k) as nat);
                if m > u128::MAX {
                    None
                } else {
                    Some(m / k)
                }
            },
        }
    }
}

/// The generalized harmonic number `H_n(s)` as an exact rational;
/// `None` when an intermediate sum does not fit.
pub open spec fn spec_harmonic(n: nat, s: nat) -> Option<Rat>
    decreases n,
{
    if n == 0 {
        Some(rat_zero())
    } else {
        match spec_harmonic((n - 1) as nat, s) {
            None => None,
            Some(h) => {
                let t = spec_pow_rat(norm(1, n), s);
                if h.n * t.d + t.n * h.d > u128::MAX || !rat_fits(rat_add_exact(h, t)) {
                    None
                } else {
                    Some(rat_add_exact(h, t))
                }
            },
        }
    }
}

/// A 128-bit whole number as a weight, flushed when above 64 bits.
pub open spec fn spec_from_u128(c: nat) -> Rat {
    if c <= u64::MAX {
        Rat { n: c, d: 1 }
    } else {
        rat_zero()
    }
}

/// The geometric mass `p * (1-p)^(k-1)` for `k >= 1`.
pub open spec fn spec_geo_pmf(p: Rat, k: nat) -> Rat
    recommends
        k >= 1,
{
    rat_mul(p, spec_pow_rat(rat_comp(p), (k - 1) as nat))
}

/// The binomial mass `C(n, x) * p^x * (1-p)^(n-x)` for `x <= n`.
pub open spec fn spec_bin_pmf(p: Rat, n: nat, x: nat) -> Rat
    recommends
        x <= n,
{
    match spec_choose_chain(n, x) {
        None => rat_zero(),
        Some(c) => rat_mul(
            rat_mul(spec_from_u128(c), spec_pow_rat(p, x)),
            spec_pow_rat(rat_comp(p), (n - x) as nat),
        ),
    }
}

/// The Bernoulli mass at `x`.
pub open spec fn spec_ber_pmf(p: Rat, x: nat) -> Rat {
    if x == 0 {
        rat_comp(p)
    } else if x == 1 {
        p
    } else {
        rat_zero()
    }
}

/// The Zipf mass `x^(-s) / H_n(s)`; zero at `x == 0` and whenever the
/// normalizer cannot be represented.
pub open spec fn spec_zipf_pmf(s: nat, n: nat, x: nat) -> Rat {
    if x == 0 {
        rat_zero()
    } else {
        match spec_harmonic(n, s) {
            None => rat_zero(),
            Some(h) => rat_div(spec_pow_rat(norm(1, x), s), h),
        }
    }
}

/// The categorical mass: the stored weight at `x`, zero out of range.
/// The vector is used as given; it is not renormalized.
pub open spec fn spec_cat_pmf(v: Seq<Rat>, x: nat) -> Rat {
    if x < v.len() {
        v[x as int]
    } else {
        rat_zero()
    }
}

/// A recognized distribution name, or `Unknown`.
#[derive(Debug, Clone, Copy, PartialEq, Eq, Structural)]
pub enum DistName {
    Const,
    Geo,
    Ber,
    Bin,
    Cat,
    Zipf,
    Unknown,
}

/// The checked sum of two fractions: `None` when the reduced sum does not
/// fit in 64 bits or its unreduced numerator exceeds 128 bits.
pub open spec fn spec_add_checked(a: Rat, b: Rat) -> Option<Rat> {
    if a.n * b.d + b.n * a.d > u128::MAX || !rat_fits(rat_add_exact(a, b)) {
        None
    } else {
        Some(rat_add_exact(a, b))
    }
}

/// The checked quotient by a positive integer: `None` when it does not fit.
pub open spec fn spec_div_checked(a: Rat, k: nat) -> Option<Rat> {
    if rat_fits(crate::rational::rat_div_nat_exact(a, k)) {
        Some(crate::rational::rat_div_nat_exact(a, k))
    } else {
        None
    }
}

/// The first weight stored under key `k`.
pub open spec fn spec_lookup(named: Seq<(char, Rat)>, k: char) -> Option<Rat>
    decreases named.len(),
{
    if named.len() == 0 {
        None
    } else if named[0].0 == k {
        Some(named[0].1)
    } else {
        spec_lookup(named.drop_first(), k)
    }
}

/// The checked sum of the named weights; keys equal to `.` take part only
/// when `include_dot` holds.
pub open spec fn spec_sum_named(named: Seq<(char, Rat)>, include_dot: bool) -> Option<Rat>
    decreases named.len(),
{
    if named.len() == 0 {
        Some(rat_zero())
    } else {
        match spec_sum_named(named.drop_last(), include_dot) {
            None => None,
            Some(a) => {
                if !include_dot && named.last().0 == '.' {
                    Some(a)
                } else {
                    spec_add_checked(a, named.last().1)
                }
            },
        }
    }
}

/// How many named weights have a key other than `.`.
pub open spec fn spec_count_nondot(named: Seq<(char, Rat)>) -> int
    decreases named.len(),
{
    if named.len() == 0 {
        0
    } else {
        spec_count_nondot(named.drop_last()) + if named.last().0 == '.' {
            0int
        } else {
            1int
        }
    }
}

/// The checked sum of a weight list.
pub open spec fn spec_sum(vals: Seq<Rat>) -> Option<Rat>
    decreases vals.len(),
{
    if vals.len() == 0 {
        Some(rat_zero())
    } else {
        match spec_sum(vals.drop_last()) {
            None => None,
            Some(a) => spec_add_checked(a, vals.last()),
        }
    }
}

/// Per-member masses of a class: the named weight where one is given,
/// otherwise the implicit weight.
pub open spec fn spec_cat_masses(chars: Seq<char>, named: Seq<(char, Rat)>, p_implicit: Rat) -> Seq<
    Rat,
> {
    chars.map_values(
        |c: char|
            match spec_lookup(named, c) {
                Some(v) => v,
                None => p_implicit,
            },
    )
}

/// How many members get the implicit weight: at least one slot, to keep
/// the division defined.
pub open spec fn spec_n_implicit(chars_len: int, n_explicit: int) -> int {
    let free = if chars_len > n_explicit {
        chars_len - n_explicit
    } else {
        0int
    };
    if free < 1 {
        1int
    } else {
        free
    }
}

/// The categorical mass vector for a class, remainder slot first.
/// Mirrors `build_categorical`.
pub open spec fn spec_build_categorical(
    negated: bool,
    chars: Seq<char>,
    named: Seq<(char, Rat)>,
) -> Result<Seq<Rat>, crate::parser::ParseReason> {
    let n_explicit = spec_count_nondot(named);
    let ni = spec_n_implicit(chars.len() as int, n_explicit) as nat;
    if negated {
        match spec_sum_named(named, false) {
            None => Err(crate::parser::ParseReason::ArithmeticOverflow),
            Some(explicit) => {
                let remainder = match spec_lookup(named, '.') {
                    Some(v) => v,
                    None => rat_comp(explicit),
                };
                match spec_add_checked(explicit, remainder) {
                    None => Err(crate::parser::ParseReason::ArithmeticOverflow),
                    Some(both) => match spec_div_checked(rat_comp(both), ni) {
                        None => Err(crate::parser::ParseReason::ArithmeticOverflow),
                        Some(p_implicit) => Ok(
                            seq![remainder] + spec_cat_masses(chars, named, p_implicit),
                        ),
                    },
                }
            },
        }
    } else {
        match spec_sum_named(named, true) {
            None => Err(crate::parser::ParseReason::ArithmeticOverflow),
            Some(explicit) => match spec_div_checked(rat_comp(explicit), ni) {
                None => Err(crate::parser::ParseReason::ArithmeticOverflow),
                Some(p_implicit) => {
                    let masses = spec_cat_masses(chars, named, p_implicit);
                    match spec_sum(masses) {
                        None => Err(crate::parser::ParseReason::ArithmeticOverflow),
                        Some(mass_sum) => {
                            let p_remainder = match spec_lookup(named, '.') {
                                Some(v) => v,
                                None => rat_comp(mass_sum),
                            };
                            Ok(seq![p_remainder] + masses)
                        },
                    }
                },
            },
        }
    }
}

/// The distribution a clause `~Name(args)` denotes on the given host kind.
/// Mirrors `Dist::complete_from`.
pub open spec fn spec_complete_from(
    kind: crate::ast::KindV,
    name: DistName,
    positional: Seq<Rat>,
    named: Seq<(char, Rat)>,
) -> Result<DistV, crate::parser::ParseReason> {
    let n: u64 = match kind {
        crate::ast::KindV::ExactQuantifier(n) => n,
        _ => 0,
    };
    match name {
        DistName::Const => {
            let p = if positional.len() > 0 {
                positional[0]
            } else {
                rat_one()
            };
            Ok(DistV::Constant(n, n, p))
        },
        DistName::Geo => {
            let p = if positional.len() > 0 {
                positional[0]
            } else {
                norm(1, 2)
            };
            if p.n == 0 || !crate::rational::rat_le(p, rat_one()) {
                Err(crate::parser::ParseReason::NumericDomain)
            } else {
                Ok(DistV::PGeometric(n, u64::MAX, p))
            }
        },
        DistName::Ber => {
            let p = if positional.len() > 0 {
                positional[0]
            } else {
                rat_one()
            };
            if !crate::rational::rat_le(p, rat_one()) {
                Err(crate::parser::ParseReason::NumericDomain)
            } else {
                Ok(DistV::PBernoulli(0, 2, p))
            }
        },
        DistName::Bin => {
            let p = if positional.len() > 0 {
                positional[0]
            } else {
                rat_one()
            };
            if !crate::rational::rat_le(p, rat_one()) {
                Err(crate::parser::ParseReason::NumericDomain)
            } else {
                let nn: u64 = match kind {
                    crate::ast::KindV::Class(_, c) => {
                        if c.len() == 0 {
                            0
                        } else {
                            (c.len() - 1) as u64
                        }
                    },
                    _ => n,
                };
                Ok(DistV::PBinomial(0, nn, p))
            }
        },
        DistName::Zipf => {
            let s = if positional.len() > 0 {
                positional[0]
            } else {
                rat_one()
            };
            if s.d != 1 {
                Err(crate::parser::ParseReason::NumericDomain)
            } else {
                let nn: u64 = match kind {
                    crate::ast::KindV::Class(_, c) => c.len() as u64,
                    _ => n,
                };
                Ok(DistV::PZipf(0, nn, s.n as u64))
            }
        },
        DistName::Cat => {
            match kind {
                crate::ast::KindV::Class(negated, chars) => {
                    match spec_build_categorical(negated, chars, named) {
                        Ok(masses) => Ok(DistV::Categorical(masses)),
                        Err(e) => Err(e),
                    }
                },
                _ => Err(crate::parser::ParseReason::NumericDomain),
            }
        },
        DistName::Unknown => Err(crate::parser::ParseReason::UnknownDistribution),
    }
}

pub open spec fn named_view(named: Seq<(char, Prob)>) -> Seq<(char, Rat)> {
    named.map_values(|t: (char, Prob)| (t.0, t.1@))
}

pub open spec fn probs_view(vals: Seq<Prob>) -> Seq<Rat> {
    vals.map_values(|p: Prob| p@)
}

/// The first weight stored under key `k`.
pub(crate) fn lookup_named(named: &Vec<(char, Prob)>, k: char) -> (r: Option<Prob>)
    ensures
        match r {
            Some(p) => spec_lookup(named_view(named@), k) == Some(p@),
            None => spec_lookup(named_view(named@), k) is None,
        },
{
    proof {
        assert(named_view(named@).skip(0) =~= named_view(named@));
    }
    let mut i: usize = 0;
    while i < named.len()
        invariant
            0 <= i <= named@.len(),
            spec_lookup(named_view(named@).skip(i as int), k) == spec_lookup(
                named_view(named@),
                k,
            ),
        decreases named@.len() - i,
    {
        proof {
            assert(named_view(named@).skip(i as int).drop_first() =~= named_view(named@).skip(
                i as int + 1,
            ));
        }
        if named[i].0 == k {
            return Some(named[i].1);
        }
        i = i + 1;
    }
    None
}

/// The checked sum of the named weights, skipping `.` keys unless asked.
fn sum_named(named: &Vec<(char, Prob)>, include_dot: bool) -> (r: Option<Prob>)
    ensures
        match r {
            Some(p) => spec_sum_named(named_view(named@), include_dot) == Some(p@),
            None => spec_sum_named(named_view(named@), include_dot) is None,
        },
{
    let mut acc = Prob::zero();
    let mut i: usize = 0;
    while i < named.len()
        invariant
            0 <= i <= named@.len(),
            spec_sum_named(named_view(named@).take(i as int), include_dot) == Some(acc@),
        decreases named@.len() - i,
    {
        proof {
            assert(named_view(named@).take(i as int + 1).drop_last() =~= named_view(named@).take(
                i as int,
            ));
            assert(named_view(named@).take(i as int + 1).last() == named_view(named@)[i as int]);
        }
        if include_dot || named[i].0 != '.' {
            acc = match acc.add_checked(named[i].1) {
                Some(a) => a,
                None => {
                    proof {
                        lemma_sum_named_absorbs(named_view(named@), (i + 1) as int, include_dot);
                    }
                    return None;
                },
            };
        }
        i = i + 1;
    }
    proof {
        assert(named_view(named@).take(named@.len() as int) =~= named_view(named@));
    }
    Some(acc)
}

/// Once a partial named sum overflows, the whole sum does.
proof fn lemma_sum_named_absorbs(named: Seq<(char, Rat)>, i: int, include_dot: bool)
    requires
        0 < i <= named.len(),
        spec_sum_named(named.take(i), include_dot) is None,
    ensures
        spec_sum_named(named, include_dot) is None,
    decreases named.len() - i,
{
    if i == named.len() {
        assert(named.take(i) =~= named);
    } else {
        assert(named.take(i + 1).drop_last() =~= named.take(i));
        lemma_sum_named_absorbs(named, i + 1, include_dot);
    }
}

/// How many named weights have a key other than `.`.
fn count_nondot(named: &Vec<(char, Prob)>) -> (r: usize)
    ensures
        r == spec_count_nondot(named_view(named@)),
        r <= named@.len(),
{
    let mut cnt: usize = 0;
    let mut i: usize = 0;
    while i < named.len()
        invariant
            0 <= i <= named@.len(),
            cnt == spec_count_nondot(named_view(named@).take(i as int)),
            cnt <= i,
        decreases named@.len() - i,
    {
        proof {
            assert(named_view(named@).take(i as int + 1).drop_last() =~= named_view(named@).take(
                i as int,
            ));
        }
        if named[i].0 != '.' {
            cnt = cnt + 1;
        }
        i = i + 1;
    }
    proof {
        assert(named_view(named@).take(named@.len() as int) =~= named_view(named@));
    }
    cnt
}

/// The checked sum of a weight list.
fn sum_probs(vals: &Vec<Prob>) -> (r: Option<Prob>)
    ensures
        match r {
            Some(p) => spec_sum(probs_view(vals@)) == Some(p@),
            None => spec_sum(probs_view(vals@)) is None,
        },
{
    let mut acc = Prob::zero();
    let mut i: usize = 0;
    while i < vals.len()
        invariant
            0 <= i <= vals@.len(),
            spec_sum(probs_view(vals@).take(i as int)) == Some(acc@),
        decreases vals@.len() - i,
    {
        proof {
            assert(probs_view(vals@).take(i as int + 1).drop_last() =~= probs_view(vals@).take(
                i as int,
            ));
            assert(probs_view(vals@).take(i as int + 1).last() == probs_view(vals@)[i as int]);
        }
        acc = match acc.add_checked(vals[i]) {
            Some(a) => a,
            None => {
                proof {
                    lemma_sum_absorbs(probs_view(vals@), (i + 1) as int);
                }
                return None;
            },
        };
        i = i + 1;
    }
    proof {
        assert(probs_view(vals@).take(vals@.len() as int) =~= probs_view(vals@));
    }
    Some(acc)
}

/// Once a partial sum overflows, the whole sum does.
proof fn lemma_sum_absorbs(vals: Seq<Rat>, i: int)
    requires
        0 < i <= vals.len(),
        spec_sum(vals.take(i)) is None,
    ensures
        spec_sum(vals) is None,
    decreases vals.len() - i,
{
    if i == vals.len() {
        assert(vals.take(i) =~= vals);
    } else {
        assert(vals.take(i + 1).drop_last() =~= vals.take(i));
        lemma_sum_absorbs(vals, i + 1);
    }
}

/// Per-member masses of a class.
fn cat_masses(chars: &Vec<char>, named: &Vec<(char, Prob)>, p_implicit: Prob) -> (r: Vec<Prob>)
    ensures
        probs_view(r@) == spec_cat_masses(chars@, named_view(named@), p_implicit@),
{
    let ghost target = spec_cat_masses(chars@, named_view(named@), p_implicit@);
    let mut out: Vec<Prob> = Vec::new();
    let mut i: usize = 0;
    while i < chars.len()
        invariant
            0 <= i <= chars@.len(),
            out@.len() == i,
            target == spec_cat_masses(chars@, named_view(named@), p_implicit@),
            forall|j: int| 0 <= j < i ==> #[trigger] out@[j]@ == target[j],
        decreases chars@.len() - i,
    {
        let m = match lookup_named(named, chars[i]) {
            Some(v) => v,
            None => p_implicit,
        };
        out.push(m);
        proof {
            assert(m@ == target[i as int]);
        }
        i = i + 1;
    }
    proof {
        assert(probs_view(out@) =~= target);
    }
    out
}

/// The categorical mass vector for a class, remainder slot first.
///
/// Explicitly named members keep their weights; the weight of the
/// remainder slot defaults to the mass left over, and members without a
/// named weight share the implicit mass evenly. For a negated class the
/// remainder is reserved before the implicit mass, because there the
/// remainder slot is the one that matches.
fn build_categorical(negated: bool, chars: &Vec<char>, named: &Vec<(char, Prob)>) -> (r: Result<
    Vec<Prob>,
    crate::parser::ParseReason,
>)
    ensures
        match r {
            Ok(v) => spec_build_categorical(negated, chars@, named_view(named@)) == Ok::<
                _,
                crate::parser::ParseReason,
            >(probs_view(v@)),
            Err(e) => spec_build_categorical(negated, chars@, named_view(named@)) == Err::<
                Seq<Rat>,
                _,
            >(e),
        },
{
    let n_explicit = count_nondot(named);
    let free: usize = if chars.len() > n_explicit {
        chars.len() - n_explicit
    } else {
        0
    };
    let ni: u64 = if free < 1 {
        1
    } else {
        free as u64
    };
    if negated {
        let explicit = match sum_named(named, false) {
            Some(v) => v,
            None => {
                return Err(crate::parser::ParseReason::ArithmeticOverflow);
            },
        };
        let remainder = match lookup_named(named, '.') {
            Some(v) => v,
            None => explicit.one_minus(),
        };
        let both = match explicit.add_checked(remainder) {
            Some(v) => v,
            None => {
                return Err(crate::parser::ParseReason::ArithmeticOverflow);
            },
        };
        let p_implicit = match both.one_minus().div_nat_checked(ni) {
            Some(v) => v,
            None => {
                return Err(crate::parser::ParseReason::ArithmeticOverflow);
            },
        };
        let masses = cat_masses(chars, named, p_implicit);
        let mut out: Vec<Prob> = Vec::new();
        out.push(remainder);
        let mut i: usize = 0;
        while i < masses.len()
            invariant
                0 <= i <= masses@.len(),
                out@ =~= seq![remainder] + masses@.take(i as int),
            decreases masses@.len() - i,
        {
            out.push(masses[i]);
            i = i + 1;
        }
        proof {
            assert(out@ =~= seq![remainder] + masses@);
            assert(probs_view(seq![remainder] + masses@) =~= seq![remainder@] + probs_view(
                masses@,
            ));
        }
        Ok(out)
    } else {
        let explicit = match sum_named(named, true) {
            Some(v) => v,
            None => {
                return Err(crate::parser::ParseReason::ArithmeticOverflow);
            },
        };
        let p_implicit = match explicit.one_minus().div_nat_checked(ni) {
            Some(v) => v,
            None => {
                return Err(crate::parser::ParseReason::ArithmeticOverflow);
            },
        };
        let masses = cat_masses(chars, named, p_implicit);
        let mass_sum = match sum_probs(&masses) {
            Some(v) => v,
            None => {
                return Err(crate::parser::ParseReason::ArithmeticOverflow);
            },
        };
        let p_remainder = match lookup_named(named, '.') {
            Some(v) => v,
            None => mass_sum.one_minus(),
        };
        let mut out: Vec<Prob> = Vec::new();
        out.push(p_remainder);
        let mut i: usize = 0;
        while i < masses.len()
            invariant
                0 <= i <= masses@.len(),
                out@ =~= seq![p_remainder] + masses@.take(i as int),
            decreases masses@.len() - i,
        {
            out.push(masses[i]);
            i = i + 1;
        }
        proof {
            assert(out@ =~= seq![p_remainder] + masses@);
            assert(probs_view(seq![p_remainder] + masses@) =~= seq![p_remainder@] + probs_view(
                masses@,
            ));
        }
        Ok(out)
    }
}

/// What `Dist::evaluate` returns: the `(stay, leave)` weight pair at `x`.
pub open spec fn spec_dist_evaluate(d: DistV, x: u64) -> (Rat, Rat) {
    match d {
        DistV::Constant(n_min, n_max, p) => {
            if n_min <= x && x <= n_max {
                (p, p)
            } else {
                (rat_zero(), rat_zero())
            }
        },
        DistV::ExactlyTimes(n) => {
            if x == n {
                (rat_zero(), rat_one())
            } else if x < n {
                (rat_one(), rat_zero())
            } else {
                (rat_zero(), rat_zero())
            }
        },
        DistV::PGeometric(n_min, _n_max, p) => {
            if x < n_min {
                (rat_one(), rat_zero())
            } else {
                let pmf = spec_geo_pmf(p, (x - n_min + 1) as nat);
                (rat_comp(pmf), pmf)
            }
        },
        DistV::PBinomial(_n_min, n_max, p) => {
            if x > n_max {
                (rat_zero(), rat_zero())
            } else {
                let pmf = spec_bin_pmf(p, n_max as nat, x as nat);
                (rat_comp(pmf), pmf)
            }
        },
        DistV::PBernoulli(_n_min, n_max, p) => {
            if x > n_max {
                (rat_one(), rat_zero())
            } else {
                let pmf = spec_ber_pmf(p, x as nat);
                (rat_comp(pmf), pmf)
            }
        },
        DistV::PZipf(_n_min, n_max, s) => {
            let pmf = spec_zipf_pmf(s as nat, n_max as nat, x as nat);
            (rat_comp(pmf), pmf)
        },
        DistV::Categorical(v) => {
            let pmf = spec_cat_pmf(v, x as nat);
            (rat_comp(pmf), pmf)
        },
    }
}

/// `base ^ e` under flush-to-zero multiplication.
fn pow_rat(base: Prob, e: u64) -> (r: Prob)
    ensures
        r@ == spec_pow_rat(base@, e as nat),
{
    if base.is_one() {
        proof {
            lemma_pow_one(e as nat);
        }
        return Prob::one();
    }
    let mut acc = Prob::one();
    let mut i: u64 = 0;
    while i < e
        invariant
            0 <= i <= e,
            acc@ == spec_pow_rat(base@, i as nat),
        decreases e - i,
    {
        // a zero accumulator can no longer change
        if acc.is_zero() {
            proof {
                lemma_pow_absorbs(base@, i as nat, e as nat);
            }
            return Prob::zero();
        }
        acc = base.mul(acc);
        i = i + 1;
    }
    acc
}

/// Powers of one are one.
pub proof fn lemma_pow_one(e: nat)
    ensures
        spec_pow_rat(rat_one(), e) == rat_one(),
    decreases e,
{
    if e > 0 {
        lemma_pow_one((e - 1) as nat);
        lemma_norm_whole(1);
        assert(1nat * 1nat == 1nat) by (nonlinear_arith);
    }
}

/// Once the running power has a zero numerator it stays zero.
proof fn lemma_pow_absorbs(base: Rat, i: nat, e: nat)
    requires
        i < e,
        spec_pow_rat(base, i).n == 0,
    ensures
        spec_pow_rat(base, e) == rat_zero(),
    decreases e - i,
{
    if e == i + 1 {
        crate::rational::lemma_mul_zero(base, spec_pow_rat(base, i));
    } else {
        lemma_pow_absorbs(base, i, (e - 1) as nat);
        crate::rational::lemma_mul_zero(base, spec_pow_rat(base, (e - 1) as nat));
    }
}

/// The binomial coefficient chain; `None` when it exceeds 128 bits.
fn choose_chain(n: u64, k: u64) -> (r: Option<u128>)
    requires
        k <= n,
    ensures
        match r {
            Some(c) => spec_choose_chain(n as nat, k as nat) == Some(c as nat),
            None => spec_choose_chain(n as nat, k as nat) is None,
        },
{
    let mut c: u128 = 1;
    let mut i: u64 = 0;
    while i < k
        invariant
            0 <= i <= k <= n,
            spec_choose_chain(n as nat, i as nat) == Some(c as nat),
        decreases k - i,
    {
        let f: u128 = (n - i) as u128;
        let m: u128 = match c.checked_mul(f) {
            Some(m) => m,
            None => {
                proof {
                    lemma_choose_absorbs(n as nat, (i + 1) as nat, k as nat);
                }
                return None;
            },
        };
        c = m / ((i + 1) as u128);
        i = i + 1;
    }
    Some(c)
}

/// Once the coefficient chain overflows it stays overflowed.
proof fn lemma_choose_absorbs(n: nat, j: nat, k: nat)
    requires
        0 < j <= k <= n,
        spec_choose_chain(n, j) is None,
    ensures
        spec_choose_chain(n, k) is None,
    decreases k - j,
{
    if j < k {
        lemma_choose_absorbs(n, j, (k - 1) as nat);
    }
}

/// The generalized harmonic number `H_n(s)`; `None` when an intermediate
/// sum does not fit.
fn harmonic(n: u64, s: u64) -> (r: Option<Prob>)
    ensures
        match r {
            Some(h) => spec_harmonic(n as nat, s as nat) == Some(h@),
            None => spec_harmonic(n as nat, s as nat) is None,
        },
{
    if s == 0 {
        proof {
            lemma_harmonic_zero_exp(n as nat);
        }
        return Some(Prob::from_u64(n));
    }
    let mut h = Prob::zero();
    let mut i: u64 = 0;
    while i < n
        invariant
            0 <= i <= n,
            spec_harmonic(i as nat, s as nat) == Some(h@),
        decreases n - i,
    {
        let term = pow_rat(Prob::new(1, i + 1), s);
        h = match h.add_checked(term) {
            Some(h2) => h2,
            None => {
                proof {
                    lemma_harmonic_absorbs((i + 1) as nat, n as nat, s as nat);
                }
                return None;
            },
        };
        i = i + 1;
    }
    Some(h)
}

/// With exponent zero every term is one, so `H_n(0) == n`.
proof fn lemma_harmonic_zero_exp(n: nat)
    requires
        n <= u64::MAX,
    ensures
        spec_harmonic(n, 0) == Some(Rat { n: n, d: 1 }),
    decreases n,
{
    if n == 0 {
    } else {
        lemma_harmonic_zero_exp((n - 1) as nat);
        let h = Rat { n: (n - 1) as nat, d: 1nat };
        let t = spec_pow_rat(norm(1, n), 0);
        assert(t == rat_one());
        assert(h.n * t.d + t.n * h.d == n) by (nonlinear_arith)
            requires h.n == n - 1, h.d == 1, t.n == 1, t.d == 1;
        assert(h.d * t.d == 1) by (nonlinear_arith)
            requires h.d == 1, t.d == 1;
        lemma_norm_whole(n);
        assert(rat_add_exact(h, t) == (Rat { n: n, d: 1nat }));
        assert(rat_fits(rat_add_exact(h, t)));
    }
}

/// `norm(n, 1) == n / 1`.
pub proof fn lemma_norm_whole(n: nat)
    ensures
        norm(n, 1) == (Rat { n: n, d: 1nat }),
{
    if n == 0 {
        crate::rational::lemma_norm_zero(1);
    } else {
        assert(n % 1 == 0) by (nonlinear_arith);
        assert(gcd(n, 1) == gcd(1, n % 1));
        assert(gcd(1, 0nat) == 1);
        assert(n / 1 == n) by (nonlinear_arith);
    }
}

/// Once a partial harmonic sum fails to fit, the whole sum does.
proof fn lemma_harmonic_absorbs(i: nat, n: nat, s: nat)
    requires
        i <= n,
        spec_harmonic(i, s) is None,
    ensures
        spec_harmonic(n, s) is None,
    decreases n - i,
{
    if i < n {
        lemma_harmonic_absorbs(i, (n - 1) as nat, s);
    }
}

/// A 128-bit whole number as a weight, flushed when above 64 bits.
fn prob_from_u128(c: u128) -> (r: Prob)
    ensures
        r@ == spec_from_u128(c as nat),
{
    if c <= u64::MAX as u128 {
        Prob::from_u64(c as u64)
    } else {
        Prob::zero()
    }
}

pub open spec fn spec_default_from(k: crate::ast::KindV) -> Option<DistV> {
    match k {
        crate::ast::KindV::ExactQuantifier(n) => Some(DistV::ExactlyTimes(n)),
        _ => None,
    }
}

pub open spec fn dist_opt_view(o: Option<Dist>) -> Option<DistV> {
    match o {
        Some(d) => Some(dist_view(d)),
        None => None,
    }
}

impl Dist {
    /// The distribution a quantifier carries when no clause names one:
    /// `{n}` matches exactly `n` times, and `?`, `*`, `+` carry none.
    pub fn default_from(quantifier_kind: &crate::ast::Kind) -> (r: Option<Dist>)
        ensures
            dist_opt_view(r) == spec_default_from(crate::ast::kind_view(*quantifier_kind)),
    {
        match quantifier_kind {
            crate::ast::Kind::ExactQuantifier(n) => Some(Dist::ExactlyTimes(*n)),
            _ => None,
        }
    }

    /// The `(stay, leave)` weight pair of this distribution at `x`.
    pub fn evaluate(&self, x: u64) -> (r: (Prob, Prob))
        ensures
            (r.0@, r.1@) == spec_dist_evaluate(dist_view(*self), x),
    {
        match self {
            Dist::Constant(n_min, n_max, p) => {
                if *n_min <= x && x <= *n_max {
                    (*p, *p)
                } else {
                    (Prob::zero(), Prob::zero())
                }
            },
            Dist::ExactlyTimes(n) => {
                if x == *n {
                    (Prob::zero(), Prob::one())
                } else if x < *n {
                    (Prob::one(), Prob::zero())
                } else {
                    (Prob::zero(), Prob::zero())
                }
            },
            Dist::PGeometric(n_min, _n_max, p) => {
                if x < *n_min {
                    (Prob::one(), Prob::zero())
                } else {
                    let k = x - *n_min;  // pmf argument is k + 1
                    let pmf = p.mul(pow_rat(p.one_minus(), k));
                    (pmf.one_minus(), pmf)
                }
            },
            Dist::PBinomial(_n_min, n_max, p) => {
                if x > *n_max {
                    (Prob::zero(), Prob::zero())
                } else {
                    let pmf = match choose_chain(*n_max, x) {
                        None => Prob::zero(),
                        Some(c) => {
                            let cw = prob_from_u128(c);
                            cw.mul(pow_rat(*p, x)).mul(pow_rat(p.one_minus(), *n_max - x))
                        },
                    };
                    (pmf.one_minus(), pmf)
                }
            },
            Dist::PBernoulli(_n_min, n_max, p) => {
                if x > *n_max {
                    (Prob::one(), Prob::zero())
                } else {
                    let pmf = if x == 0 {
                        p.one_minus()
                    } else if x == 1 {
                        *p
                    } else {
                        Prob::zero()
                    };
                    (pmf.one_minus(), pmf)
                }
            },
            Dist::PZipf(_n_min, n_max, s) => {
                let pmf = if x == 0 {
                    Prob::zero()
                } else {
                    match harmonic(*n_max, *s) {
                        None => Prob::zero(),
                        Some(h) => pow_rat(Prob::new(1, x), *s).div(h),
                    }
                };
                (pmf.one_minus(), pmf)
            },
            Dist::Categorical(v) => {
                let pmf = if x < v.len() as u64 {
                    v[x as usize]
                } else {
                    Prob::zero()
                };
                (pmf.one_minus(), pmf)
            },
        }
    }

    /// The distribution a clause `~Name(args)` denotes on the host kind:
    /// a quantifier's count bound or a class's members shape the support
    /// ranges, and missing parameters take the documented defaults.
    pub fn complete_from(
        kind: &crate::ast::Kind,
        name: DistName,
        positional: &Vec<Prob>,
        named: &Vec<(char, Prob)>,
    ) -> (r: Result<Dist, crate::parser::ParseReason>)
        ensures
            match r {
                Ok(d) => spec_complete_from(
                    crate::ast::kind_view(*kind),
                    name,
                    probs_view(positional@),
                    named_view(named@),
                ) == Ok::<_, crate::parser::ParseReason>(dist_view(d)),
                Err(e) => spec_complete_from(
                    crate::ast::kind_view(*kind),
                    name,
                    probs_view(positional@),
                    named_view(named@),
                ) == Err::<DistV, _>(e),
            },
    {
        let n: u64 = match kind {
            crate::ast::Kind::ExactQuantifier(n) => *n,
            _ => 0,
        };
        match name {
            DistName::Const => {
                let p = if positional.len() > 0 {
                    positional[0]
                } else {
                    Prob::one()
                };
                Ok(Dist::Constant(n, n, p))
            },
            DistName::Geo => {
                let p = if positional.len() > 0 {
                    positional[0]
                } else {
                    Prob::new(1, 2)
                };
                if p.is_zero() || !p.le(&Prob::one()) {
                    Err(crate::parser::ParseReason::NumericDomain)
                } else {
                    Ok(Dist::PGeometric(n, u64::MAX, p))
                }
            },
            DistName::Ber => {
                let p = if positional.len() > 0 {
                    positional[0]
                } else {
                    Prob::one()
                };
                if !p.le(&Prob::one()) {
                    Err(crate::parser::ParseReason::NumericDomain)
                } else {
                    Ok(Dist::PBernoulli(0, 2, p))
                }
            },
            DistName::Bin => {
                let p = if positional.len() > 0 {
                    positional[0]
                } else {
                    Prob::one()
                };
                if !p.le(&Prob::one()) {
                    Err(crate::parser::ParseReason::NumericDomain)
                } else {
                    let nn: u64 = match kind {
                        crate::ast::Kind::Class(_, c) => {
                            if c.len() == 0 {
                                0
                            } else {
                                (c.len() - 1) as u64
                            }
                        },
                        _ => n,
                    };
                    Ok(Dist::PBinomial(0, nn, p))
                }
            },
            DistName::Zipf => {
                let s = if positional.len() > 0 {
                    positional[0]
                } else {
                    Prob::one()
                };
                if s.den() != 1 {
                    Err(crate::parser::ParseReason::NumericDomain)
                } else {
                    let nn: u64 = match kind {
                        crate::ast::Kind::Class(_, c) => c.len() as u64,
                        _ => n,
                    };
                    Ok(Dist::PZipf(0, nn, s.num()))
                }
            },
            DistName::Cat => {
                match kind {
                    crate::ast::Kind::Class(negated, chars) => {
                        match build_categorical(*negated, chars, named) {
                            Ok(masses) => Ok(Dist::Categorical(masses)),
                            Err(e) => Err(e),
                        }
                    },
                    _ => Err(crate::parser::ParseReason::NumericDomain),
                }
            },
            DistName::Unknown => Err(crate::parser::ParseReason::UnknownDistribution),
        }
    }

    /// Wrap as a distribution evaluated against visit counts.
    pub fn count(self) -> (r: DistLink)
        ensures
            r == DistLink::Counted(self),
    {
        DistLink::Counted(self)
    }

    /// Wrap as a distribution evaluated against class positions.
    pub fn index(self) -> (r: DistLink)
        ensures
            r == DistLink::Indexed(self),
    {
        DistLink::Indexed(self)
    }
}

/// What `DistLink::pmf_link` returns; see that method.
pub open spec fn spec_pmf_link(
    link: DistLinkV,
    token: crate::ast::KindV,
    x: Option<u64>,
    is_inverse: bool,
) -> (Rat, Rat) {
    match link {
        DistLinkV::Counted(d) => spec_dist_evaluate(
            d,
            match x {
                Some(x) => x,
                None => 0,
            },
        ),
        DistLinkV::Indexed(d) => {
            if !(token is Literal) {
                (rat_zero(), rat_zero())
            } else {
                match x {
                    Some(x) => match d {
                        DistV::PZipf(_, _, _) => spec_dist_evaluate(d, x.wrapping_add(1)),
                        DistV::Categorical(_) => spec_dist_evaluate(d, x.wrapping_add(1)),
                        DistV::Constant(_, _, _) => spec_dist_evaluate(d, 0),
                        _ => spec_dist_evaluate(d, x),
                    },
                    None => match d {
                        DistV::Categorical(v) => {
                            let p = spec_cat_pmf(v, 0);
                            (rat_comp(p), p)
                        },
                        DistV::Constant(_, _, p) => {
                            if is_inverse {
                                (p, rat_one())
                            } else {
                                (p, rat_comp(p))
                            }
                        },
                        _ => (rat_zero(), rat_zero()),
                    },
                }
            }
        },
    }
}

impl DistLink {
    /// The `(stay, leave)` weight pair of the linked distribution.
    ///
    /// A `Counted` link evaluates at the visit count `x` (zero when
    /// absent). An `Indexed` link evaluates at the class position: Zipf
    /// and Categorical shift the position by one because index 0 is the
    /// remainder slot, Constant ignores it. When the character is not in
    /// the class (`x` is `None`), Categorical emits the remainder mass,
    /// Constant emits its weight against the negation sense `is_inverse`,
    /// and every other distribution emits nothing.
    pub fn pmf_link(&self, token: &crate::ast::Kind, x: Option<u64>, is_inverse: bool) -> (r: (
        Prob,
        Prob,
    ))
        ensures
            (r.0@, r.1@) == spec_pmf_link(
                link_view(*self),
                crate::ast::kind_view(*token),
                x,
                is_inverse,
            ),
    {
        match self {
            DistLink::Counted(d) => d.evaluate(
                match x {
                    Some(x) => x,
                    None => 0,
                },
            ),
            DistLink::Indexed(d) => {
                if !matches!(token, crate::ast::Kind::Literal(_)) {
                    return (Prob::zero(), Prob::zero());
                }
                match x {
                    Some(x) => match d {
                        Dist::PZipf(_, _, _) => d.evaluate(x.wrapping_add(1)),
                        Dist::Categorical(_) => d.evaluate(x.wrapping_add(1)),
                        Dist::Constant(_, _, _) => d.evaluate(0),
                        _ => d.evaluate(x),
                    },
                    None => match d {
                        Dist::Categorical(v) => {
                            let p = if v.len() > 0 {
                                v[0]
                            } else {
                                Prob::zero()
                            };
                            (p.one_minus(), p)
                        },
                        Dist::Constant(_, _, p) => {
                            if is_inverse {
                                (*p, Prob::one())
                            } else {
                                (*p, p.one_minus())
                            }
                        },
                        _ => (Prob::zero(), Prob::zero()),
                    },
                }
            },
        }
    }
}

} // verus!
