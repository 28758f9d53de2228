//! Exact nonnegative rational numbers used as probability weights.
//!
//! A weight is stored as a reduced fraction of two `u64` values. All
//! arithmetic is exact; a product whose reduced numerator or denominator
//! does not fit in 64 bits is flushed to zero (the path it weights is
//! treated as negligible). The mathematical value of a weight is the
//! spec-level fraction [`Rat`]; contracts relate every operation to the
//! spec functions below.

use vstd::prelude::*;

verus! {

/// Mathematical value of a weight: a fraction of two naturals.
pub struct Rat {
    pub n: nat,
    pub d: nat,
}

/// Greatest common divisor by Euclid's algorithm.
pub open spec fn gcd(a: nat, b: nat) -> nat
    decreases b,
{
    if b == 0 {
        a
    } else {
        gcd(b, a % b)
    }
}

/// The canonical (reduced) form of the fraction `n / d`.
pub open spec fn norm(n: nat, d: nat) -> Rat {
    if d == 0 {
        Rat { n: 0, d: 1 }
    } else {
        let g = gcd(n, d);
        Rat { n: n / g, d: d / g }
    }
}

/// Whether a fraction is representable with 64-bit components.
pub open spec fn rat_fits(r: Rat) -> bool {
    r.n <= u64::MAX && r.d <= u64::MAX
}

/// A fraction that does not fit is flushed to zero.
pub open spec fn rat_flush(r: Rat) -> Rat {
    if rat_fits(r) {
        r
    } else {
        Rat { n: 0, d: 1 }
    }
}

pub open spec fn rat_zero() -> Rat {
    Rat { n: 0, d: 1 }
}

pub open spec fn rat_one() -> Rat {
    Rat { n: 1, d: 1 }
}

/// Value comparison of fractions by cross multiplication.
pub open spec fn rat_le(a: Rat, b: Rat) -> bool {
    a.n * b.d <= b.n * a.d
}

/// The product, reduced, flushed to zero when it does not fit.
pub open spec fn rat_mul(a: Rat, b: Rat) -> Rat {
    rat_flush(norm(a.n * b.n, a.d * b.d))
}

/// `1 - a`, clamped at zero for values above one.
pub open spec fn rat_comp(a: Rat) -> Rat {
    if a.n >= a.d {
        rat_zero()
    } else {
        norm((a.d - a.n) as nat, a.d)
    }
}

/// The exact (unflushed) sum of two fractions, reduced.
pub open spec fn rat_add_exact(a: Rat, b: Rat) -> Rat {
    norm(a.n * b.d + b.n * a.d, a.d * b.d)
}

/// The exact quotient `a / (k/1)` for `k >= 1`, reduced.
pub open spec fn rat_div_nat_exact(a: Rat, k: nat) -> Rat {
    norm(a.n, a.d * k)
}

/// The quotient `a / b`, zero when `b` is zero, flushed when it does not fit.
pub open spec fn rat_div(a: Rat, b: Rat) -> Rat {
    if b.n == 0 {
        rat_zero()
    } else {
        rat_flush(norm(a.n * b.d, a.d * b.n))
    }
}

/// The product of two 64-bit values fits in 128 bits.
pub proof fn lemma_u64_mul_fits(x: u64, y: u64)
    ensures
        (x as nat) * (y as nat) < u128::MAX,
        (x as int) * (y as int) == (x as nat) * (y as nat),
{
    assert((x as nat) * (y as nat) <= (u64::MAX as nat) * (u64::MAX as nat)) by (nonlinear_arith)
        requires x <= u64::MAX, y <= u64::MAX;
    assert((u64::MAX as nat) * (u64::MAX as nat) < u128::MAX) by (nonlinear_arith);
}

pub proof fn lemma_gcd_pos(a: nat, b: nat)
    requires
        a > 0 || b > 0,
    ensures
        gcd(a, b) > 0,
    decreases b,
{
    if b == 0 {
    } else {
        lemma_gcd_pos(b, a % b);
    }
}

/// The gcd divides both of its arguments.
pub proof fn lemma_gcd_divides(a: nat, b: nat)
    requires
        a > 0 || b > 0,
    ensures
        gcd(a, b) > 0,
        a % gcd(a, b) == 0,
        b % gcd(a, b) == 0,
    decreases b,
{
    lemma_gcd_pos(a, b);
    if b == 0 {
        assert(a % a == 0) by (nonlinear_arith)
            requires a > 0;
        assert(b % a == 0) by (nonlinear_arith)
            requires a > 0 && b == 0;
    } else {
        let r = a % b;
        vstd::arithmetic::div_mod::lemma_mod_division_less_than_divisor(a as int, b as int);
        lemma_gcd_divides(b, r);
        let g = gcd(b, r);
        // a == (a / b) * b + r, both summands divisible by g
        vstd::arithmetic::div_mod::lemma_fundamental_div_mod(a as int, b as int);
        let q = a as int / b as int;
        lemma_div_exact(b, g);
        lemma_div_exact(r, g);
        let kb = b / g;
        let kr = r / g;
        assert(a == q * (g * kb) + g * kr);
        assert(a == g * (q * kb + kr)) by (nonlinear_arith)
            requires a == q * ((g * kb) as int) + (g as int) * (kr as int);
        assert(q >= 0) by (nonlinear_arith)
            requires q == a as int / b as int, a >= 0, b > 0;
        lemma_mul_mod_zero(g, (q * kb + kr) as nat);
    }
}

/// If `x % g == 0` then `x == g * (x / g)`.
pub proof fn lemma_div_exact(x: nat, g: nat)
    requires
        g > 0,
        x % g == 0,
    ensures
        x == g * (x / g),
{
    vstd::arithmetic::div_mod::lemma_fundamental_div_mod(x as int, g as int);
}

proof fn lemma_mul_mod_zero(g: nat, k: nat)
    requires
        g > 0,
    ensures
        (g * k) % g == 0,
{
    assert((g * k) % g == 0) by (nonlinear_arith)
        requires g > 0;
}

/// Reduction keeps the value: the reduced fraction is cross-equal to the input.
pub proof fn lemma_norm_value(n: nat, d: nat)
    requires
        d > 0,
    ensures
        norm(n, d).d > 0,
        norm(n, d).n * d == n * norm(n, d).d,
        norm(n, d).n <= n,
        norm(n, d).d <= d,
{
    let g = gcd(n, d);
    lemma_gcd_divides(n, d);
    lemma_div_exact(n, g);
    lemma_div_exact(d, g);
    let rn = n / g;
    let rd = d / g;
    assert(rd > 0) by (nonlinear_arith)
        requires d == g * rd, d > 0;
    assert(rn * d == n * rd) by (nonlinear_arith)
        requires n == g * rn, d == g * rd;
    assert(rn <= n && rd <= d) by (nonlinear_arith)
        requires n == g * rn, d == g * rd, g > 0;
}

/// Multiplication by a zero-numerator fraction yields the canonical zero.
pub proof fn lemma_mul_zero(a: Rat, b: Rat)
    requires
        a.n == 0 || b.n == 0,
    ensures
        rat_mul(a, b) == rat_zero(),
{
    assert(a.n * b.n == 0) by (nonlinear_arith)
        requires a.n == 0 || b.n == 0;
    let d = a.d * b.d;
    if d == 0 {
    } else {
        lemma_norm_zero(d);
    }
}

/// A weight that is exactly zero or exactly one.
pub open spec fn boolish(r: Rat) -> bool {
    r == rat_zero() || r == rat_one()
}

/// Zero-or-one weights are closed under multiplication.
pub proof fn lemma_boolish_mul(a: Rat, b: Rat)
    requires
        boolish(a),
        boolish(b),
    ensures
        boolish(rat_mul(a, b)),
{
    if a.n == 0 || b.n == 0 {
        lemma_mul_zero(a, b);
    } else {
        assert(1nat * 1nat == 1nat) by (nonlinear_arith);
        assert(1nat % 1nat == 0) by (nonlinear_arith);
        assert(gcd(1, 1) == gcd(1, 0));
        assert(1nat / 1nat == 1) by (nonlinear_arith);
        assert(norm(1, 1) == rat_one());
    }
}

/// A well-formed weight of value at most one.
pub open spec fn sub_one(r: Rat) -> bool {
    r.n <= r.d && 1 <= r.d
}

/// Weights of value at most one are closed under multiplication.
pub proof fn lemma_sub_one_mul(a: Rat, b: Rat)
    requires
        sub_one(a),
        sub_one(b),
    ensures
        sub_one(rat_mul(a, b)),
{
    let nn = a.n * b.n;
    let dd = a.d * b.d;
    assert(nn <= dd && 1 <= dd) by (nonlinear_arith)
        requires
            nn == a.n * b.n,
            dd == a.d * b.d,
            a.n <= a.d,
            b.n <= b.d,
            1 <= a.d,
            1 <= b.d,
    ;
    lemma_norm_value(nn, dd);
    let r = norm(nn, dd);
    assert(r.n * dd == nn * r.d);
    assert(r.n <= r.d) by (nonlinear_arith)
        requires r.n * dd == nn * r.d, nn <= dd, 1 <= dd, 0 <= r.n, 1 <= r.d;
}

/// Weights of value at most one are closed under complement.
pub proof fn lemma_sub_one_comp(a: Rat)
    requires
        1 <= a.d,
    ensures
        sub_one(rat_comp(a)),
{
    if a.n >= a.d {
    } else {
        let m = (a.d - a.n) as nat;
        lemma_norm_value(m, a.d);
        let r = norm(m, a.d);
        assert(r.n * a.d == m * r.d);
        assert(r.n <= r.d) by (nonlinear_arith)
            requires r.n * a.d == m * r.d, m <= a.d, 1 <= a.d, 1 <= r.d;
    }
}

/// A quotient of a weight at most one by a weight at least one is at
/// most one.
pub proof fn lemma_sub_one_div(a: Rat, b: Rat)
    requires
        sub_one(a),
        b.d <= b.n,
        1 <= b.d,
    ensures
        sub_one(rat_div(a, b)),
{
    if b.n == 0 {
    } else {
        let nn = a.n * b.d;
        let dd = a.d * b.n;
        assert(nn <= dd && 1 <= dd) by (nonlinear_arith)
            requires
                nn == a.n * b.d,
                dd == a.d * b.n,
                a.n <= a.d,
                b.d <= b.n,
                1 <= a.d,
                1 <= b.d,
                1 <= b.n,
        ;
        lemma_norm_value(nn, dd);
        let r = norm(nn, dd);
        assert(r.n * dd == nn * r.d);
        assert(r.n <= r.d) by (nonlinear_arith)
            requires r.n * dd == nn * r.d, nn <= dd, 1 <= dd, 0 <= r.n, 1 <= r.d;
    }
}

/// The exact sum of well-formed weights is at least either summand.
pub proof fn lemma_add_exact_ge(a: Rat, b: Rat)
    requires
        1 <= a.d,
        1 <= b.d,
    ensures
        1 <= rat_add_exact(a, b).d,
        a.d <= a.n ==> rat_add_exact(a, b).d <= rat_add_exact(a, b).n,
        b.d <= b.n ==> rat_add_exact(a, b).d <= rat_add_exact(a, b).n,
{
    let nn = a.n * b.d + b.n * a.d;
    let dd = a.d * b.d;
    assert(1 <= dd) by (nonlinear_arith)
        requires dd == a.d * b.d, 1 <= a.d, 1 <= b.d;
    lemma_norm_value(nn, dd);
    let r = norm(nn, dd);
    assert(r.n * dd == nn * r.d);
    if a.d <= a.n || b.d <= b.n {
        assert(dd <= nn) by (nonlinear_arith)
            requires
                a.d <= a.n || b.d <= b.n,
                1 <= a.d,
                1 <= b.d,
                nn == a.n * b.d + b.n * a.d,
                dd == a.d * b.d,
        ;
        assert(r.d <= r.n) by (nonlinear_arith)
            requires r.n * dd == nn * r.d, dd <= nn, 1 <= dd, 1 <= r.d, 0 <= r.n;
    }
}

/// Products of well-formed weights are well-formed.
pub proof fn lemma_mul_wf(a: Rat, b: Rat)
    requires
        1 <= a.d,
        1 <= b.d,
    ensures
        1 <= rat_mul(a, b).d,
{
    let dd = a.d * b.d;
    assert(1 <= dd) by (nonlinear_arith)
        requires dd == a.d * b.d, 1 <= a.d, 1 <= b.d;
    lemma_norm_value(a.n * b.n, dd);
}

/// A probability weight: an exact nonnegative rational with 64-bit
/// numerator and denominator, kept in reduced form by every operation.
#[derive(Clone, Copy, Debug, PartialEq, Eq, Structural)]
pub struct Prob {
    num: u64,
    den: u64,
}

impl View for Prob {
    type V = Rat;

    closed spec fn view(&self) -> Rat {
        Rat { n: self.num as nat, d: self.den as nat }
    }
}

/// The weight whose components are those of `r`; meaningful when `r` fits
/// in 64 bits.
pub closed spec fn prob_of(r: Rat) -> Prob {
    Prob { num: r.n as u64, den: r.d as u64 }
}

/// `prob_of` inverts the view on fitting fractions, and the view is
/// injective: weights with equal views are equal.
pub proof fn lemma_prob_of(p: Prob, r: Rat)
    requires
        rat_fits(r),
    ensures
        prob_of(r)@ == r,
        p@ == r ==> p == prob_of(r),
{
}

impl Prob {
    #[verifier::type_invariant]
    pub closed spec fn inv(self) -> bool {
        self.den >= 1
    }

    pub fn zero() -> (r: Prob)
        ensures
            r@ == rat_zero(),
    {
        Prob { num: 0, den: 1 }
    }

    pub fn one() -> (r: Prob)
        ensures
            r@ == rat_one(),
    {
        Prob { num: 1, den: 1 }
    }

    /// The reduced form of `num / den`.
    pub fn new(num: u64, den: u64) -> (r: Prob)
        requires
            den >= 1,
        ensures
            r@ == norm(num as nat, den as nat),
    {
        reduce64(num, den)
    }

    /// The whole number `n / 1`.
    pub fn from_u64(n: u64) -> (r: Prob)
        ensures
            r@ == (Rat { n: n as nat, d: 1 }),
    {
        Prob { num: n, den: 1 }
    }

    pub fn num(&self) -> (r: u64)
        ensures
            r == self@.n,
    {
        self.num
    }

    pub fn den(&self) -> (r: u64)
        ensures
            r == self@.d,
    {
        proof {
            use_type_invariant(self);
        }
        self.den
    }

    pub fn is_zero(&self) -> (r: bool)
        ensures
            r == (self@.n == 0),
    {
        self.num == 0
    }

    pub fn is_one(&self) -> (r: bool)
        ensures
            r == (self@ == rat_one()),
    {
        self.num == 1 && self.den == 1
    }

    pub fn is_positive(&self) -> (r: bool)
        ensures
            r == (self@.n > 0),
    {
        self.num > 0
    }

    /// Value comparison: `self <= other` as fractions.
    pub fn le(&self, other: &Prob) -> (r: bool)
        ensures
            r == rat_le(self@, other@),
    {
        proof {
            use_type_invariant(self);
            use_type_invariant(other);
            lemma_u64_mul_fits(self.num, other.den);
            lemma_u64_mul_fits(other.num, self.den);
        }
        (self.num as u128) * (other.den as u128) <= (other.num as u128) * (self.den as u128)
    }

    /// The larger of the two values; returns `other` on ties.
    pub fn max(self, other: Prob) -> (r: Prob)
        ensures
            r@ == (if rat_le(self@, other@) { other@ } else { self@ }),
    {
        if self.le(&other) {
            other
        } else {
            self
        }
    }

    /// Whether the value is at least one.
    pub fn ge_one(&self) -> (r: bool)
        ensures
            r == rat_le(rat_one(), self@),
    {
        proof {
            use_type_invariant(self);
        }
        self.num >= self.den
    }

    /// Exact product; flushed to zero when the reduced form does not fit.
    pub fn mul(self, other: Prob) -> (r: Prob)
        ensures
            r@ == rat_mul(self@, other@),
    {
        proof {
            use_type_invariant(&self);
            use_type_invariant(&other);
            lemma_u64_mul_fits(self.num, other.num);
            lemma_u64_mul_fits(self.den, other.den);
        }
        let n: u128 = (self.num as u128) * (other.num as u128);
        let d: u128 = (self.den as u128) * (other.den as u128);
        proof {
            assert(d >= 1) by (nonlinear_arith)
                requires
                    d == (self.den as u128) * (other.den as u128),
                    self.den >= 1,
                    other.den >= 1,
            ;
        }
        reduce128(n, d)
    }

    /// `1 - self`, clamped at zero when the value exceeds one.
    pub fn one_minus(self) -> (r: Prob)
        ensures
            r@ == rat_comp(self@),
    {
        proof {
            use_type_invariant(&self);
        }
        if self.num >= self.den {
            Prob { num: 0, den: 1 }
        } else {
            reduce64(self.den - self.num, self.den)
        }
    }

    /// Exact sum, or `None` when the reduced sum does not fit in 64 bits
    /// (or its unreduced numerator exceeds 128 bits).
    pub fn add_checked(self, other: Prob) -> (r: Option<Prob>)
        ensures
            match r {
                Some(p) => p@ == rat_add_exact(self@, other@) && rat_fits(rat_add_exact(
                    self@,
                    other@,
                )) && self@.n * other@.d + other@.n * self@.d <= u128::MAX,
                None => self@.n * other@.d + other@.n * self@.d > u128::MAX || !rat_fits(
                    rat_add_exact(self@, other@),
                ),
            },
    {
        proof {
            use_type_invariant(&self);
            use_type_invariant(&other);
            lemma_u64_mul_fits(self.num, other.den);
            lemma_u64_mul_fits(other.num, self.den);
            lemma_u64_mul_fits(self.den, other.den);
        }
        let n1: u128 = (self.num as u128) * (other.den as u128);
        let n2: u128 = (other.num as u128) * (self.den as u128);
        let n: u128 = match n1.checked_add(n2) {
            Some(n) => n,
            None => {
                return None;
            },
        };
        let d: u128 = (self.den as u128) * (other.den as u128);
        proof {
            assert(d >= 1) by (nonlinear_arith)
                requires
                    d == (self.den as u128) * (other.den as u128),
                    self.den >= 1,
                    other.den >= 1,
            ;
        }
        let p = reduce128(n, d);
        proof {
            use_type_invariant(&p);
        }
        if rat_fits_after_reduce(n, d, &p) {
            Some(p)
        } else {
            None
        }
    }

    /// Exact quotient by a positive integer, or `None` when it does not fit.
    pub fn div_nat_checked(self, k: u64) -> (r: Option<Prob>)
        requires
            k >= 1,
        ensures
            match r {
                Some(p) => p@ == rat_div_nat_exact(self@, k as nat) && rat_fits(rat_div_nat_exact(
                    self@,
                    k as nat,
                )),
                None => !rat_fits(rat_div_nat_exact(self@, k as nat)),
            },
    {
        proof {
            use_type_invariant(&self);
            lemma_u64_mul_fits(self.den, k);
        }
        let n: u128 = self.num as u128;
        let d: u128 = (self.den as u128) * (k as u128);
        proof {
            assert(d >= 1) by (nonlinear_arith)
                requires d == (self.den as u128) * (k as u128), self.den >= 1, k >= 1;
        }
        let p = reduce128(n, d);
        proof {
            use_type_invariant(&p);
        }
        if rat_fits_after_reduce(n, d, &p) {
            Some(p)
        } else {
            None
        }
    }

    /// Quotient `self / other`; zero when `other` is zero, flushed when it
    /// does not fit.
    pub fn div(self, other: Prob) -> (r: Prob)
        ensures
            r@ == rat_div(self@, other@),
    {
        proof {
            use_type_invariant(&self);
            use_type_invariant(&other);
        }
        if other.num == 0 {
            Prob { num: 0, den: 1 }
        } else {
            proof {
                lemma_u64_mul_fits(self.num, other.den);
                lemma_u64_mul_fits(self.den, other.num);
            }
            let n: u128 = (self.num as u128) * (other.den as u128);
            let d: u128 = (self.den as u128) * (other.num as u128);
            proof {
                assert(d >= 1) by (nonlinear_arith)
                    requires
                        d == (self.den as u128) * (other.num as u128),
                        self.den >= 1,
                        other.num >= 1,
                ;
            }
            reduce128(n, d)
        }
    }
}

/// Whether the reduction of `n / d` kept the exact value (nothing was
/// flushed): `p` must be the already-reduced-and-flushed result.
fn rat_fits_after_reduce(n: u128, d: u128, p: &Prob) -> (r: bool)
    requires
        d >= 1,
        p@ == rat_flush(norm(n as nat, d as nat)),
        p.inv(),
    ensures
        r == rat_fits(norm(n as nat, d as nat)),
{
    // A flushed result is recognizable: flushing yields 0/1, while a fitting
    // reduction of a positive n/d has a positive numerator. The only
    // ambiguity is n == 0, where norm(0, d) == 0/1 always fits.
    if n == 0 {
        proof {
            lemma_norm_zero(d as nat);
        }
        true
    } else {
        proof {
            lemma_norm_value(n as nat, d as nat);
            let r = norm(n as nat, d as nat);
            assert(r.n > 0) by {
                if r.n == 0 {
                    assert(r.n * (d as nat) == 0) by (nonlinear_arith)
                        requires r.n == 0;
                    assert((n as nat) * r.d > 0) by (nonlinear_arith)
                        requires n > 0, r.d > 0;
                }
            }
            if rat_fits(r) {
                assert(p@ == r);
                assert(p.num > 0);
            } else {
                assert(p@ == rat_zero());
                assert(p.num == 0);
            }
        }
        p.num > 0
    }
}

/// `norm(0, d)` is the canonical zero, for any positive `d`.
pub proof fn lemma_norm_zero(d: nat)
    requires
        d > 0,
    ensures
        norm(0, d) == rat_zero(),
{
    assert(0nat % d == 0) by (nonlinear_arith)
        requires d > 0;
    assert(gcd(0, d) == gcd(d, 0));
    assert(gcd(d, 0) == d);
    assert(0nat / d == 0) by (nonlinear_arith)
        requires d > 0;
    vstd::arithmetic::div_mod::lemma_div_by_self(d as int);
}

/// Reduce `n / d` where both already fit in 64 bits: never flushes.
fn reduce64(n: u64, d: u64) -> (r: Prob)
    requires
        d >= 1,
    ensures
        r@ == norm(n as nat, d as nat),
        r.inv(),
{
    let p = reduce128(n as u128, d as u128);
    proof {
        use_type_invariant(&p);
        lemma_norm_value(n as nat, d as nat);
        assert(rat_fits(norm(n as nat, d as nat)));
    }
    p
}

/// Reduce `n / d` to canonical form, flushing to zero when the reduced
/// fraction does not fit in 64 bits.
fn reduce128(n: u128, d: u128) -> (r: Prob)
    requires
        d >= 1,
    ensures
        r@ == rat_flush(norm(n as nat, d as nat)),
        r.inv(),
{
    let g = gcd_u128(n, d);
    proof {
        lemma_gcd_divides(n as nat, d as nat);
        lemma_norm_value(n as nat, d as nat);
    }
    let rn = n / g;
    let rd = d / g;
    proof {
        assert(rd >= 1);
    }
    if rn <= u64::MAX as u128 && rd <= u64::MAX as u128 {
        Prob { num: rn as u64, den: rd as u64 }
    } else {
        Prob { num: 0, den: 1 }
    }
}

/// Euclid's algorithm on 64-bit-doubled words.
fn gcd_u128(a: u128, b: u128) -> (g: u128)
    ensures
        g == gcd(a as nat, b as nat),
    decreases b,
{
    if b == 0 {
        a
    } else {
        proof {
            vstd::arithmetic::div_mod::lemma_mod_division_less_than_divisor(a as int, b as int);
        }
        gcd_u128(b, a % b)
    }
}

} // verus!
