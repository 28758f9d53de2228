//! A probabilistic regular-expression engine.
//!
//! A pattern may attach discrete probability distributions to its
//! quantifiers and character classes; matching an input then yields the
//! likelihood that the pattern produced it, instead of a boolean. The
//! pipeline is: [`parser::parse`] turns the pattern into a syntax tree,
//! [`nfa::asts_to_nfa`] compiles the tree into a flat automaton, and
//! [`regex::match_likelihood`] advances a weighted state set over the
//! input and reads the terminal state's weight. Likelihoods are exact
//! rational weights; see [`rational`].

pub mod ast;
pub mod charclass;
pub mod cli;
pub mod config;
pub mod distribution;
pub mod laws;
pub mod nfa;
pub mod parser;
pub mod rational;
pub mod regex;
pub mod regex_state;
pub mod runner;

use vstd::prelude::*;

use crate::ast::{wf_asts_shape, wf_body, AstV, KindV};
use crate::nfa::{asts_to_nfa, nfa_view, spec_asts_to_nfa, sub_ok, State, StateV};
use crate::parser::{parse, spec_parse, ParseError};

verus! {

/// What `compile` returns: the compiled form of the parsed pattern.
pub open spec fn spec_compile(source: Seq<char>) -> Result<Seq<StateV>, ParseError> {
    match spec_parse(source) {
        Ok(asts) => Ok(spec_asts_to_nfa(asts)),
        Err(e) => Err(e),
    }
}

/// A well-formed body node satisfies the compiler's span discipline.
proof fn lemma_wf_body_sub_ok(n: AstV)
    ensures
        wf_body(n) ==> sub_ok(n),
    decreases n,
{
    match n.kind {
        KindV::Alternation(l, r) => {
            lemma_wf_body_sub_ok(*l);
            lemma_wf_body_sub_ok(*r);
        },
        KindV::Concatenation(l, r) => {
            lemma_wf_body_sub_ok(*l);
            lemma_wf_body_sub_ok(*r);
        },
        KindV::Classified(inner, _) => {
            lemma_wf_body_sub_ok(*inner);
        },
        KindV::Quantified(q, b, _) => {
            lemma_wf_body_sub_ok(*q);
            lemma_wf_body_sub_ok(*b);
        },
        _ => {},
    }
}

/// Compile a pattern into its automaton: parse, then build the state
/// array. The result is exactly what [`spec_compile`] denotes, so two
/// compilations of one pattern yield the same automaton.
#[verifier::rlimit(100)]
pub fn compile(source: &str) -> (r: Result<Vec<State>, ParseError>)
    requires
        4 * source@.len() + 8 <= usize::MAX,
    ensures
        match r {
            Ok(nfa) => spec_compile(source@) == Ok::<_, ParseError>(nfa_view(nfa@)),
            Err(e) => spec_compile(source@) == Err::<Seq<StateV>, _>(e),
        },
{
    let asts = match parse(source) {
        Ok(asts) => asts,
        Err(e) => {
            return Err(e);
        },
    };
    proof {
        let views = crate::ast::asts_view(asts@);
        let (a, b, e): (bool, bool, bool) = choose|a: bool, b: bool, e: bool|
            #[trigger] wf_asts_shape(views, a, b, e);
        assert(wf_asts_shape(views, a, b, e));
        let pos0: int = if a {
            1
        } else {
            0
        };
        let bi: int = if a {
            1
        } else {
            0
        };
        if b {
            crate::parser::lemma_alternation_ok(source@, pos0);
            lemma_wf_body_sub_ok(views[bi]);
            assert(views[bi].length <= source@.len() + 1);
        }
        assert forall|i: int| 0 <= i < views.len() implies sub_ok(#[trigger] views[i]) by {
            if !(b && i == bi) {
                assert(views[i].kind is AnchorStart || views[i].kind is AnchorEnd
                    || views[i].kind is Terminal);
            }
        }
        assert(forall|j: int|
            0 <= j < views.len() ==> (#[trigger] views[j]).length <= source@.len() + 1);
        lemma_total_len_parts(views, 0, source@.len() as int + 1);
        assert(crate::nfa::total_len(views) <= 4 * (source@.len() + 1)) by {
            assert(views.len() <= 4);
            assert(views.len() * (source@.len() as int + 1) <= 4 * (source@.len() as int + 1))
                by (nonlinear_arith)
                requires views.len() <= 4, source@.len() >= 0;
        }
    }
    Ok(asts_to_nfa(asts))
}

/// Node lengths in a parse result are each at most the given bound, so
/// the total is bounded by the node count times that.
proof fn lemma_total_len_parts(views: Seq<AstV>, i: int, bound: int)
    requires
        0 <= i <= views.len(),
        0 <= bound,
        forall|j: int| 0 <= j < views.len() ==> (#[trigger] views[j]).length <= bound,
    ensures
        crate::nfa::total_len(views.skip(i)) <= (views.len() - i) * bound,
        i == 0 ==> crate::nfa::total_len(views) <= views.len() * bound,
    decreases views.len() - i,
{
    if i == views.len() {
        assert(views.skip(i) =~= Seq::<AstV>::empty());
        assert((views.len() - i) * bound == 0) by (nonlinear_arith)
            requires i == views.len();
    } else {
        lemma_total_len_parts(views, i + 1, bound);
        assert(views.skip(i)[0] == views[i]);
        assert(views.skip(i).drop_first() =~= views.skip(i + 1));
        assert((views.len() - i) * bound == bound + (views.len() - i - 1) * bound)
            by (nonlinear_arith);
    }
    if i == 0 {
        assert(views.skip(0) =~= views);
    }
}

} // verus!
