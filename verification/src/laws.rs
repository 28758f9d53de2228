//! Engine-wide laws, stated and proved once over the spec-level pipeline.

use vstd::prelude::*;

use crate::ast::KindV;
use crate::distribution::{spec_dist_evaluate, spec_pmf_link, DistLinkV, DistV};
use crate::nfa::StateV;
use crate::parser::ParseError;
use crate::rational::{boolish, lemma_boolish_mul, rat_one, rat_zero, Rat};
use crate::regex::{
    spec_add_counts, spec_match_likelihood, spec_run, spec_step_states, spec_step_states_from,
};
use crate::regex_state::{
    empty_states, spec_apply_transitions, spec_evaluate, spec_initial_state, spec_terminal_state_p,
    spec_tokens, zero_counts,
};
use crate::spec_compile;

verus! {

/// A distribution whose masses are all zero or one.
pub open spec fn dist_boolean(d: DistV) -> bool {
    d is ExactlyTimes
}

pub open spec fn link_boolean(l: Option<DistLinkV>) -> bool {
    match l {
        None => true,
        Some(DistLinkV::Counted(d)) => dist_boolean(d),
        Some(DistLinkV::Indexed(d)) => dist_boolean(d),
    }
}

/// An automaton compiled from a pattern without distribution clauses:
/// every state carries either no distribution or the exact-count
/// distribution that a bare `{n}` denotes.
pub open spec fn boolean_nfa(nfa: Seq<StateV>) -> bool {
    forall|i: int| 0 <= i < nfa.len() ==> link_boolean(#[trigger] nfa[i].dist)
}

pub open spec fn all_boolish(ts: Seq<(Option<usize>, Rat)>) -> bool {
    forall|j: int| 0 <= j < ts.len() ==> boolish(#[trigger] ts[j].1)
}

pub open spec fn states_boolish(s: Seq<Option<Rat>>) -> bool {
    forall|i: int|
        0 <= i < s.len() ==> (#[trigger] s[i] matches Some(p) ==> boolish(p))
}

proof fn lemma_all_boolish_concat(a: Seq<(Option<usize>, Rat)>, b: Seq<(Option<usize>, Rat)>)
    requires
        all_boolish(a),
        all_boolish(b),
    ensures
        all_boolish(a + b),
{
    assert forall|j: int| 0 <= j < (a + b).len() implies boolish(#[trigger] (a + b)[j].1) by {
        if j < a.len() {
            assert((a + b)[j] == a[j]);
        } else {
            assert((a + b)[j] == b[j - a.len()]);
        }
    }
}

/// The exact-count distribution emits only zero-or-one masses.
proof fn lemma_pmf_boolish(link: DistLinkV, token: KindV, x: Option<u64>, inv: bool)
    requires
        match link {
            DistLinkV::Counted(d) => dist_boolean(d),
            DistLinkV::Indexed(d) => dist_boolean(d),
        },
    ensures
        boolish(spec_pmf_link(link, token, x, inv).1),
{
}

/// Against a boolean automaton, evaluation of a zero-or-one weight emits
/// only zero-or-one weights.
proof fn lemma_evaluate_boolish(
    nfa: Seq<StateV>,
    counts: Seq<u64>,
    idx: Option<usize>,
    token: KindV,
    p: Rat,
    is_epsilon: bool,
    fuel: nat,
)
    requires
        boolean_nfa(nfa),
        boolish(p),
    ensures
        all_boolish(spec_evaluate(nfa, counts, idx, token, p, is_epsilon, fuel)),
    decreases fuel,
{
    let r = spec_evaluate(nfa, counts, idx, token, p, is_epsilon, fuel);
    if fuel == 0 {
    } else {
        match idx {
            None => {},
            Some(idx) => {
                if idx >= nfa.len() {
                } else {
                    let st = nfa[idx as int];
                    let f2 = (fuel - 1) as nat;
                    assert(link_boolean(st.dist));
                    match st.kind {
                        KindV::Terminal => {},
                        KindV::Start => {
                            if !is_epsilon {
                                lemma_evaluate_boolish(nfa, counts, st.outs.0, token, p, true, f2);
                                lemma_evaluate_boolish(nfa, counts, st.outs.1, token, p, true, f2);
                                lemma_all_boolish_concat(
                                    seq![(Some(idx), rat_one())],
                                    spec_evaluate(nfa, counts, st.outs.0, token, p, true, f2),
                                );
                                lemma_all_boolish_concat(
                                    seq![(Some(idx), rat_one())] + spec_evaluate(
                                        nfa,
                                        counts,
                                        st.outs.0,
                                        token,
                                        p,
                                        true,
                                        f2,
                                    ),
                                    spec_evaluate(nfa, counts, st.outs.1, token, p, true, f2),
                                );
                            }
                        },
                        KindV::AnchorStart => {
                            if !is_epsilon && token is Start {
                                lemma_evaluate_boolish(nfa, counts, st.outs.0, token, p, true, f2);
                            }
                        },
                        KindV::AnchorEnd => {},
                        KindV::Split => {
                            lemma_evaluate_boolish(nfa, counts, st.outs.0, token, p, true, f2);
                            lemma_evaluate_boolish(nfa, counts, st.outs.1, token, p, true, f2);
                            lemma_all_boolish_concat(
                                spec_evaluate(nfa, counts, st.outs.0, token, p, true, f2),
                                spec_evaluate(nfa, counts, st.outs.1, token, p, true, f2),
                            );
                        },
                        KindV::Quantifier(_) | KindV::ExactQuantifier(_) => {
                            if is_epsilon {
                                let n = if idx < counts.len() {
                                    counts[idx as int]
                                } else {
                                    0
                                };
                                let p1 = match st.dist {
                                    Some(link) => spec_pmf_link(link, token, Some(n), false).1,
                                    None => rat_one(),
                                };
                                match st.dist {
                                    Some(link) => lemma_pmf_boolish(link, token, Some(n), false),
                                    None => {},
                                }
                                lemma_boolish_mul(p, p1);
                                lemma_evaluate_boolish(nfa, counts, st.outs.0, token, p, true, f2);
                                lemma_evaluate_boolish(
                                    nfa,
                                    counts,
                                    st.outs.1,
                                    token,
                                    crate::rational::rat_mul(p, p1),
                                    true,
                                    f2,
                                );
                                lemma_all_boolish_concat(
                                    seq![(Some(idx), p)],
                                    spec_evaluate(nfa, counts, st.outs.0, token, p, true, f2),
                                );
                                lemma_all_boolish_concat(
                                    seq![(Some(idx), p)] + spec_evaluate(
                                        nfa,
                                        counts,
                                        st.outs.0,
                                        token,
                                        p,
                                        true,
                                        f2,
                                    ),
                                    spec_evaluate(
                                        nfa,
                                        counts,
                                        st.outs.1,
                                        token,
                                        crate::rational::rat_mul(p, p1),
                                        true,
                                        f2,
                                    ),
                                );
                            }
                        },
                        KindV::Dot => {
                            if !is_epsilon && token is Literal {
                                lemma_evaluate_boolish(nfa, counts, st.outs.0, token, p, true, f2);
                                lemma_evaluate_boolish(nfa, counts, st.outs.1, token, p, true, f2);
                                lemma_all_boolish_concat(
                                    spec_evaluate(nfa, counts, st.outs.0, token, p, true, f2),
                                    spec_evaluate(nfa, counts, st.outs.1, token, p, true, f2),
                                );
                            }
                        },
                        KindV::Literal(mc) => {
                            if !is_epsilon && (token matches KindV::Literal(c) && c == mc) {
                                lemma_evaluate_boolish(nfa, counts, st.outs.0, token, p, true, f2);
                            }
                        },
                        KindV::Class(negated, chars) => {
                            if !is_epsilon && token is Literal {
                                let pos = crate::regex_state::spec_char_index(
                                    chars,
                                    token->Literal_0,
                                );
                                let p1 = match st.dist {
                                    Some(link) => spec_pmf_link(link, token, pos, negated).1,
                                    None => match (pos, negated) {
                                        (None, false) => rat_zero(),
                                        (None, true) => rat_one(),
                                        (Some(_), false) => rat_one(),
                                        (Some(_), true) => rat_zero(),
                                    },
                                };
                                match st.dist {
                                    Some(link) => lemma_pmf_boolish(link, token, pos, negated),
                                    None => {},
                                }
                                lemma_boolish_mul(p, p1);
                                lemma_evaluate_boolish(
                                    nfa,
                                    counts,
                                    st.outs.0,
                                    token,
                                    crate::rational::rat_mul(p, p1),
                                    true,
                                    f2,
                                );
                            }
                        },
                        _ => {},
                    }
                }
            },
        }
    }
}

/// Max-merging zero-or-one transitions keeps the active set zero-or-one.
proof fn lemma_apply_boolish(states: Seq<Option<Rat>>, ts: Seq<(Option<usize>, Rat)>, i: int)
    requires
        states_boolish(states),
        all_boolish(ts),
    ensures
        states_boolish(spec_apply_transitions(states, ts, i)),
    decreases ts.len() - i,
{
    if i < 0 || i >= ts.len() {
    } else {
        match ts[i].0 {
            Some(o) => {
                if o < states.len() {
                    let newv = match states[o as int] {
                        Some(q) => if crate::rational::rat_le(q, ts[i].1) {
                            ts[i].1
                        } else {
                            q
                        },
                        None => ts[i].1,
                    };
                    let next = states.update(o as int, Some(newv));
                    assert(states_boolish(next)) by {
                        assert(boolish(newv));
                        assert(forall|k: int|
                            0 <= k < next.len() && k != o ==> next[k] == states[k]);
                    }
                    lemma_apply_boolish(next, ts, i + 1);
                } else {
                    lemma_apply_boolish(states, ts, i + 1);
                }
            },
            None => {
                lemma_apply_boolish(states, ts, i + 1);
            },
        }
    }
}

/// One step of a boolean automaton keeps the active set zero-or-one.
proof fn lemma_step_boolish(
    states: Seq<Option<Rat>>,
    acc: Seq<Option<Rat>>,
    counts: Seq<u64>,
    token: KindV,
    nfa: Seq<StateV>,
    i: int,
)
    requires
        boolean_nfa(nfa),
        states_boolish(states),
        states_boolish(acc),
    ensures
        states_boolish(spec_step_states_from(states, acc, counts, token, nfa, i)),
    decreases nfa.len() - i,
{
    if i < 0 || i >= nfa.len() {
    } else {
        if i < states.len() && states[i] is Some {
            let ts = spec_evaluate(
                nfa,
                counts,
                Some(i as usize),
                token,
                states[i]->Some_0,
                false,
                nfa.len() + 1,
            );
            lemma_evaluate_boolish(
                nfa,
                counts,
                Some(i as usize),
                token,
                states[i]->Some_0,
                false,
                nfa.len() + 1,
            );
            lemma_apply_boolish(acc, ts, 0);
            lemma_step_boolish(states, spec_apply_transitions(acc, ts, 0), counts, token, nfa, i + 1);
        } else {
            lemma_step_boolish(states, acc, counts, token, nfa, i + 1);
        }
    }
}

/// A whole run of a boolean automaton keeps the active set zero-or-one.
proof fn lemma_run_boolish(
    nfa: Seq<StateV>,
    states: Seq<Option<Rat>>,
    counts: Seq<u64>,
    tokens: Seq<KindV>,
)
    requires
        boolean_nfa(nfa),
        states_boolish(states),
    ensures
        states_boolish(spec_run(nfa, states, counts, tokens)),
    decreases tokens.len(),
{
    if tokens.len() > 0 {
        let s2 = spec_step_states(states, counts, tokens[0], nfa);
        lemma_step_boolish(states, empty_states(nfa.len()), counts, tokens[0], nfa, 0);
        lemma_run_boolish(nfa, s2, spec_add_counts(s2, counts), tokens.drop_first());
    }
}

/// A distribution whose stored masses are at most one, and whose mass
/// function is known here to stay at most one. The binomial family is
/// not covered: its mass function is also bounded by one, but that fact
/// is not proved here.
pub open spec fn dist_bounded(d: DistV) -> bool {
    match d {
        DistV::ExactlyTimes(_) => true,
        DistV::Constant(_, _, p) => crate::rational::sub_one(p),
        DistV::PGeometric(_, _, p) => crate::rational::sub_one(p),
        DistV::PBernoulli(_, _, p) => crate::rational::sub_one(p),
        DistV::Categorical(v) => forall|j: int|
            0 <= j < v.len() ==> crate::rational::sub_one(#[trigger] v[j]),
        DistV::PZipf(_, _, _) => true,
        DistV::PBinomial(_, _, _) => false,
    }
}

pub open spec fn link_bounded(l: Option<DistLinkV>) -> bool {
    match l {
        None => true,
        Some(DistLinkV::Counted(d)) => dist_bounded(d),
        Some(DistLinkV::Indexed(d)) => dist_bounded(d),
    }
}

/// An automaton whose distributions all have bounded mass functions.
pub open spec fn bounded_nfa(nfa: Seq<StateV>) -> bool {
    forall|i: int| 0 <= i < nfa.len() ==> link_bounded(#[trigger] nfa[i].dist)
}

pub open spec fn sub_one(r: Rat) -> bool {
    crate::rational::sub_one(r)
}

proof fn lemma_pow_sub_one(base: Rat, e: nat)
    requires
        sub_one(base),
    ensures
        sub_one(crate::distribution::spec_pow_rat(base, e)),
    decreases e,
{
    if e > 0 {
        lemma_pow_sub_one(base, (e - 1) as nat);
        crate::rational::lemma_sub_one_mul(
            base,
            crate::distribution::spec_pow_rat(base, (e - 1) as nat),
        );
    }
}

proof fn lemma_pow_wf(base: Rat, e: nat)
    requires
        1 <= base.d,
    ensures
        1 <= crate::distribution::spec_pow_rat(base, e).d,
    decreases e,
{
    if e > 0 {
        lemma_pow_wf(base, (e - 1) as nat);
        crate::rational::lemma_mul_wf(
            base,
            crate::distribution::spec_pow_rat(base, (e - 1) as nat),
        );
    }
}

proof fn lemma_harmonic_ge_one(n: nat, s: nat)
    ensures
        crate::distribution::spec_harmonic(n, s) matches Some(h) ==> 1 <= h.d && (n >= 1 ==> h.d
            <= h.n),
    decreases n,
{
    if n > 0 {
        lemma_harmonic_ge_one((n - 1) as nat, s);
        match crate::distribution::spec_harmonic((n - 1) as nat, s) {
            Some(h) => {
                crate::rational::lemma_norm_value(1, n);
                let t = crate::distribution::spec_pow_rat(crate::rational::norm(1, n), s);
                lemma_pow_wf(crate::rational::norm(1, n), s);
                if n == 1 {
                    crate::distribution::lemma_norm_whole(1);
                    crate::distribution::lemma_pow_one(s);
                    assert(t == rat_one());
                }
                crate::rational::lemma_add_exact_ge(h, t);
            },
            None => {},
        }
    }
}

/// Against bounded distributions, every emitted mass is at most one.
proof fn lemma_dist_eval_sub_one(d: DistV, x: u64)
    requires
        dist_bounded(d),
    ensures
        sub_one(spec_dist_evaluate(d, x).1),
        sub_one(spec_dist_evaluate(d, x).0),
{
    match d {
        DistV::Constant(_, _, p) => {},
        DistV::ExactlyTimes(_) => {},
        DistV::PGeometric(n_min, _, p) => {
            if x >= n_min {
                let k = (x - n_min + 1) as nat;
                crate::rational::lemma_sub_one_comp(p);
                lemma_pow_sub_one(crate::rational::rat_comp(p), (k - 1) as nat);
                crate::rational::lemma_sub_one_mul(
                    p,
                    crate::distribution::spec_pow_rat(
                        crate::rational::rat_comp(p),
                        (k - 1) as nat,
                    ),
                );
                crate::rational::lemma_sub_one_comp(
                    crate::distribution::spec_geo_pmf(p, k),
                );
            }
        },
        DistV::PBernoulli(_, n_max, p) => {
            if x <= n_max {
                crate::rational::lemma_sub_one_comp(p);
                let pmf = crate::distribution::spec_ber_pmf(p, x as nat);
                assert(sub_one(pmf));
                crate::rational::lemma_sub_one_comp(pmf);
            }
        },
        DistV::PZipf(_, n_max, s) => {
            let pmf = crate::distribution::spec_zipf_pmf(s as nat, n_max as nat, x as nat);
            if x == 0 {
            } else {
                lemma_harmonic_ge_one(n_max as nat, s as nat);
                match crate::distribution::spec_harmonic(n_max as nat, s as nat) {
                    Some(h) => {
                        if h.n == 0 {
                        } else {
                            crate::rational::lemma_norm_value(1, x as nat);
                            let base = crate::rational::norm(1, x as nat);
                            assert(sub_one(base)) by {
                                assert(base.n * (x as nat) == 1 * base.d);
                                assert(base.n <= base.d) by (nonlinear_arith)
                                    requires
                                        base.n * (x as nat) == 1 * base.d,
                                        1 <= x,
                                        1 <= base.d,
                                        base.n <= 1,
                                ;
                            }
                            lemma_pow_sub_one(base, s as nat);
                            assert(n_max >= 1) by {
                                if n_max == 0 {
                                    assert(h == rat_zero());
                                }
                            }
                            crate::rational::lemma_sub_one_div(
                                crate::distribution::spec_pow_rat(base, s as nat),
                                h,
                            );
                        }
                    },
                    None => {},
                }
            }
            crate::rational::lemma_sub_one_comp(pmf);
        },
        DistV::Categorical(v) => {
            let pmf = crate::distribution::spec_cat_pmf(v, x as nat);
            assert(sub_one(pmf));
            crate::rational::lemma_sub_one_comp(pmf);
        },
        DistV::PBinomial(_, _, _) => {},
    }
}

proof fn lemma_pmf_sub_one(link: DistLinkV, token: KindV, x: Option<u64>, inv: bool)
    requires
        match link {
            DistLinkV::Counted(d) => dist_bounded(d),
            DistLinkV::Indexed(d) => dist_bounded(d),
        },
    ensures
        sub_one(spec_pmf_link(link, token, x, inv).1),
{
    match link {
        DistLinkV::Counted(d) => {
            lemma_dist_eval_sub_one(
                d,
                match x {
                    Some(x) => x,
                    None => 0,
                },
            );
        },
        DistLinkV::Indexed(d) => {
            if token is Literal {
                match x {
                    Some(x) => {
                        match d {
                            DistV::PZipf(_, _, _) => lemma_dist_eval_sub_one(d, x.wrapping_add(1)),
                            DistV::Categorical(_) => lemma_dist_eval_sub_one(d, x.wrapping_add(1)),
                            DistV::Constant(_, _, _) => lemma_dist_eval_sub_one(d, 0),
                            _ => lemma_dist_eval_sub_one(d, x),
                        }
                    },
                    None => {
                        match d {
                            DistV::Categorical(v) => {
                                crate::rational::lemma_sub_one_comp(
                                    crate::distribution::spec_cat_pmf(v, 0),
                                );
                            },
                            DistV::Constant(_, _, p) => {
                                crate::rational::lemma_sub_one_comp(p);
                            },
                            _ => {},
                        }
                    },
                }
            }
        },
    }
}

pub open spec fn all_sub_one(ts: Seq<(Option<usize>, Rat)>) -> bool {
    forall|j: int| 0 <= j < ts.len() ==> sub_one(#[trigger] ts[j].1)
}

pub open spec fn states_sub_one(s: Seq<Option<Rat>>) -> bool {
    forall|i: int|
        0 <= i < s.len() ==> (#[trigger] s[i] matches Some(p) ==> sub_one(p))
}

proof fn lemma_all_sub_one_concat(a: Seq<(Option<usize>, Rat)>, b: Seq<(Option<usize>, Rat)>)
    requires
        all_sub_one(a),
        all_sub_one(b),
    ensures
        all_sub_one(a + b),
{
    assert forall|j: int| 0 <= j < (a + b).len() implies sub_one(#[trigger] (a + b)[j].1) by {
        if j < a.len() {
            assert((a + b)[j] == a[j]);
        } else {
            assert((a + b)[j] == b[j - a.len()]);
        }
    }
}

/// Against bounded distributions, evaluation of a weight at most one
/// emits only weights at most one.
proof fn lemma_evaluate_sub_one(
    nfa: Seq<StateV>,
    counts: Seq<u64>,
    idx: Option<usize>,
    token: KindV,
    p: Rat,
    is_epsilon: bool,
    fuel: nat,
)
    requires
        bounded_nfa(nfa),
        sub_one(p),
    ensures
        all_sub_one(spec_evaluate(nfa, counts, idx, token, p, is_epsilon, fuel)),
    decreases fuel,
{
    let r = spec_evaluate(nfa, counts, idx, token, p, is_epsilon, fuel);
    if fuel == 0 {
    } else {
        match idx {
            None => {},
            Some(idx) => {
                if idx >= nfa.len() {
                } else {
                    let st = nfa[idx as int];
                    let f2 = (fuel - 1) as nat;
                    assert(link_bounded(st.dist));
                    match st.kind {
                        KindV::Terminal => {},
                        KindV::Start => {
                            if !is_epsilon {
                                lemma_evaluate_sub_one(nfa, counts, st.outs.0, token, p, true, f2);
                                lemma_evaluate_sub_one(nfa, counts, st.outs.1, token, p, true, f2);
                                lemma_all_sub_one_concat(
                                    seq![(Some(idx), rat_one())],
                                    spec_evaluate(nfa, counts, st.outs.0, token, p, true, f2),
                                );
                                lemma_all_sub_one_concat(
                                    seq![(Some(idx), rat_one())] + spec_evaluate(
                                        nfa,
                                        counts,
                                        st.outs.0,
                                        token,
                                        p,
                                        true,
                                        f2,
                                    ),
                                    spec_evaluate(nfa, counts, st.outs.1, token, p, true, f2),
                                );
                            }
                        },
                        KindV::AnchorStart => {
                            if !is_epsilon && token is Start {
                                lemma_evaluate_sub_one(nfa, counts, st.outs.0, token, p, true, f2);
                            }
                        },
                        KindV::AnchorEnd => {},
                        KindV::Split => {
                            lemma_evaluate_sub_one(nfa, counts, st.outs.0, token, p, true, f2);
                            lemma_evaluate_sub_one(nfa, counts, st.outs.1, token, p, true, f2);
                            lemma_all_sub_one_concat(
                                spec_evaluate(nfa, counts, st.outs.0, token, p, true, f2),
                                spec_evaluate(nfa, counts, st.outs.1, token, p, true, f2),
                            );
                        },
                        KindV::Quantifier(_) | KindV::ExactQuantifier(_) => {
                            if is_epsilon {
                                let n = if idx < counts.len() {
                                    counts[idx as int]
                                } else {
                                    0
                                };
                                let p1 = match st.dist {
                                    Some(link) => spec_pmf_link(link, token, Some(n), false).1,
                                    None => rat_one(),
                                };
                                match st.dist {
                                    Some(link) => lemma_pmf_sub_one(link, token, Some(n), false),
                                    None => {},
                                }
                                crate::rational::lemma_sub_one_mul(p, p1);
                                lemma_evaluate_sub_one(nfa, counts, st.outs.0, token, p, true, f2);
                                lemma_evaluate_sub_one(
                                    nfa,
                                    counts,
                                    st.outs.1,
                                    token,
                                    crate::rational::rat_mul(p, p1),
                                    true,
                                    f2,
                                );
                                lemma_all_sub_one_concat(
                                    seq![(Some(idx), p)],
                                    spec_evaluate(nfa, counts, st.outs.0, token, p, true, f2),
                                );
                                lemma_all_sub_one_concat(
                                    seq![(Some(idx), p)] + spec_evaluate(
                                        nfa,
                                        counts,
                                        st.outs.0,
                                        token,
                                        p,
                                        true,
                                        f2,
                                    ),
                                    spec_evaluate(
                                        nfa,
                                        counts,
                                        st.outs.1,
                                        token,
                                        crate::rational::rat_mul(p, p1),
                                        true,
                                        f2,
                                    ),
                                );
                            }
                        },
                        KindV::Dot => {
                            if !is_epsilon && token is Literal {
                                lemma_evaluate_sub_one(nfa, counts, st.outs.0, token, p, true, f2);
                                lemma_evaluate_sub_one(nfa, counts, st.outs.1, token, p, true, f2);
                                lemma_all_sub_one_concat(
                                    spec_evaluate(nfa, counts, st.outs.0, token, p, true, f2),
                                    spec_evaluate(nfa, counts, st.outs.1, token, p, true, f2),
                                );
                            }
                        },
                        KindV::Literal(mc) => {
                            if !is_epsilon && (token matches KindV::Literal(c) && c == mc) {
                                lemma_evaluate_sub_one(nfa, counts, st.outs.0, token, p, true, f2);
                            }
                        },
                        KindV::Class(negated, chars) => {
                            if !is_epsilon && token is Literal {
                                let pos = crate::regex_state::spec_char_index(
                                    chars,
                                    token->Literal_0,
                                );
                                let p1 = match st.dist {
                                    Some(link) => spec_pmf_link(link, token, pos, negated).1,
                                    None => match (pos, negated) {
                                        (None, false) => rat_zero(),
                                        (None, true) => rat_one(),
                                        (Some(_), false) => rat_one(),
                                        (Some(_), true) => rat_zero(),
                                    },
                                };
                                match st.dist {
                                    Some(link) => lemma_pmf_sub_one(link, token, pos, negated),
                                    None => {},
                                }
                                crate::rational::lemma_sub_one_mul(p, p1);
                                lemma_evaluate_sub_one(
                                    nfa,
                                    counts,
                                    st.outs.0,
                                    token,
                                    crate::rational::rat_mul(p, p1),
                                    true,
                                    f2,
                                );
                            }
                        },
                        _ => {},
                    }
                }
            },
        }
    }
}

proof fn lemma_apply_sub_one(states: Seq<Option<Rat>>, ts: Seq<(Option<usize>, Rat)>, i: int)
    requires
        states_sub_one(states),
        all_sub_one(ts),
    ensures
        states_sub_one(spec_apply_transitions(states, ts, i)),
    decreases ts.len() - i,
{
    if i < 0 || i >= ts.len() {
    } else {
        match ts[i].0 {
            Some(o) => {
                if o < states.len() {
                    let newv = match states[o as int] {
                        Some(q) => if crate::rational::rat_le(q, ts[i].1) {
                            ts[i].1
                        } else {
                            q
                        },
                        None => ts[i].1,
                    };
                    let next = states.update(o as int, Some(newv));
                    assert(states_sub_one(next)) by {
                        assert(sub_one(newv));
                        assert(forall|k: int|
                            0 <= k < next.len() && k != o ==> next[k] == states[k]);
                    }
                    lemma_apply_sub_one(next, ts, i + 1);
                } else {
                    lemma_apply_sub_one(states, ts, i + 1);
                }
            },
            None => {
                lemma_apply_sub_one(states, ts, i + 1);
            },
        }
    }
}

proof fn lemma_step_sub_one(
    states: Seq<Option<Rat>>,
    acc: Seq<Option<Rat>>,
    counts: Seq<u64>,
    token: KindV,
    nfa: Seq<StateV>,
    i: int,
)
    requires
        bounded_nfa(nfa),
        states_sub_one(states),
        states_sub_one(acc),
    ensures
        states_sub_one(spec_step_states_from(states, acc, counts, token, nfa, i)),
    decreases nfa.len() - i,
{
    if i < 0 || i >= nfa.len() {
    } else {
        if i < states.len() && states[i] is Some {
            let ts = spec_evaluate(
                nfa,
                counts,
                Some(i as usize),
                token,
                states[i]->Some_0,
                false,
                nfa.len() + 1,
            );
            lemma_evaluate_sub_one(
                nfa,
                counts,
                Some(i as usize),
                token,
                states[i]->Some_0,
                false,
                nfa.len() + 1,
            );
            lemma_apply_sub_one(acc, ts, 0);
            lemma_step_sub_one(
                states,
                spec_apply_transitions(acc, ts, 0),
                counts,
                token,
                nfa,
                i + 1,
            );
        } else {
            lemma_step_sub_one(states, acc, counts, token, nfa, i + 1);
        }
    }
}

proof fn lemma_run_sub_one(
    nfa: Seq<StateV>,
    states: Seq<Option<Rat>>,
    counts: Seq<u64>,
    tokens: Seq<KindV>,
)
    requires
        bounded_nfa(nfa),
        states_sub_one(states),
    ensures
        states_sub_one(spec_run(nfa, states, counts, tokens)),
    decreases tokens.len(),
{
    if tokens.len() > 0 {
        let s2 = spec_step_states(states, counts, tokens[0], nfa);
        lemma_step_sub_one(states, empty_states(nfa.len()), counts, tokens[0], nfa, 0);
        lemma_run_sub_one(nfa, s2, spec_add_counts(s2, counts), tokens.drop_first());
    }
}

/// The likelihood of any input lies in the unit interval, for an
/// automaton whose distributions have bounded mass functions: it is
/// either nothing or a weight of value at most one. An unbounded
/// parameter breaks the bound: against the pattern whose single state
/// carries the constant mass five, the empty input scores five.
pub proof fn lemma_likelihood_in_unit_interval(nfa: Seq<StateV>, input: Seq<char>)
    requires
        bounded_nfa(nfa),
    ensures
        match spec_match_likelihood(nfa, input) {
            Some(p) => crate::rational::rat_le(p, rat_one()),
            None => true,
        },
{
    let init = spec_initial_state(nfa, false);
    assert(states_sub_one(empty_states(nfa.len())));
    lemma_evaluate_sub_one(
        nfa,
        Seq::empty(),
        Some(0),
        KindV::Start,
        rat_one(),
        true,
        nfa.len() + 1,
    );
    lemma_apply_sub_one(
        empty_states(nfa.len()),
        spec_evaluate(nfa, Seq::empty(), Some(0), KindV::Start, rat_one(), true, nfa.len() + 1),
        0,
    );
    lemma_run_sub_one(nfa, init, zero_counts(nfa.len()), spec_tokens(input));
    let finals = spec_run(nfa, init, zero_counts(nfa.len()), spec_tokens(input));
    match spec_terminal_state_p(finals, nfa) {
        Some(p) => {
            assert(sub_one(p));
            assert(p.n * 1 <= 1 * p.d) by (nonlinear_arith)
                requires p.n <= p.d;
        },
        None => {},
    }
}

/// A pattern without probability-distribution clauses is a plain matcher:
/// the likelihood of any input is either certainty or nothing. Such a
/// pattern compiles to an automaton whose states carry either no
/// distribution or a bare exact count, which emits only zero-or-one
/// masses.
pub proof fn lemma_boolean_pattern_likelihood(nfa: Seq<StateV>, input: Seq<char>)
    requires
        boolean_nfa(nfa),
    ensures
        match spec_match_likelihood(nfa, input) {
            Some(p) => p == rat_one(),
            None => true,
        },
{
    let init = spec_initial_state(nfa, false);
    assert(states_boolish(empty_states(nfa.len())));
    lemma_evaluate_boolish(
        nfa,
        Seq::empty(),
        Some(0),
        KindV::Start,
        rat_one(),
        true,
        nfa.len() + 1,
    );
    lemma_apply_boolish(
        empty_states(nfa.len()),
        spec_evaluate(nfa, Seq::empty(), Some(0), KindV::Start, rat_one(), true, nfa.len() + 1),
        0,
    );
    lemma_run_boolish(nfa, init, zero_counts(nfa.len()), spec_tokens(input));
}

/// Compilation is a function of the pattern alone: two compilations of
/// one pattern yield the same automaton. Together with `compile`'s
/// contract, any two successful calls of `compile` on the same source
/// return state arrays with the same contents.
pub proof fn lemma_compile_deterministic(source: Seq<char>, a: Seq<StateV>, b: Seq<StateV>)
    requires
        spec_compile(source) == Ok::<_, ParseError>(a),
        spec_compile(source) == Ok::<_, ParseError>(b),
    ensures
        a == b,
{
}

/// Simulation terminates in a fixed number of steps: on an input of
/// length `n`, the run folds over exactly `n + 2` tokens (the synthetic
/// start token, one literal token per character, and the synthetic
/// terminal token), and the result is the terminal state's weight after
/// that fold.
pub proof fn lemma_simulation_steps(nfa: Seq<StateV>, input: Seq<char>)
    ensures
        spec_tokens(input).len() == input.len() + 2,
        spec_match_likelihood(nfa, input) == spec_terminal_state_p(
            spec_run(
                nfa,
                spec_initial_state(nfa, false),
                zero_counts(nfa.len()),
                spec_tokens(input),
            ),
            nfa,
        ),
{
}

} // verus!
