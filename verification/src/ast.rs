//! The abstract syntax tree of a pattern.
//!
//! Each node carries a `length`: the number of slots its compiled form
//! occupies in the flat state array, which the compiler uses to place
//! fragments at precomputed indices. The spec-level mirror of a node is
//! [`AstV`], reached through [`ast_view`]; contracts about parsing and
//! compilation are stated over that mirror.

use vstd::prelude::*;

use crate::distribution::{dist_view, Dist, DistLink, DistLinkV, DistV};
use crate::rational::Rat;

verus! {

/// A syntax tree node: its compiled slot count and its kind.
#[derive(Debug, PartialEq)]
pub struct AstNode {
    pub length: usize,
    pub kind: Kind,
}

/// The kinds of syntax tree nodes. `Terminal`, `Start` and `Split` are
/// synthetic: the parser never produces them inside a pattern body.
#[derive(Debug, PartialEq)]
pub enum Kind {
    AnchorEnd,
    AnchorStart,
    Alternation(Box<AstNode>, Box<AstNode>),
    Concatenation(Box<AstNode>, Box<AstNode>),
    ExactQuantifier(u64),
    Literal(char),
    Dot,
    Split,
    Start,
    Terminal,
    /// A class together with a position-indexed distribution.
    Classified(Box<AstNode>, Option<DistLink>),
    /// `(negated, members)`.
    Class(bool, Vec<char>),
    /// `(quantifier, operand, distribution)`.
    Quantified(Box<AstNode>, Box<AstNode>, Option<DistLink>),
    Quantifier(char),
}

/// Spec-level mirror of [`AstNode`].
pub struct AstV {
    pub length: usize,
    pub kind: KindV,
}

/// Spec-level mirror of [`Kind`]: classes hold character sequences and
/// distributions hold mathematical weights.
pub enum KindV {
    AnchorEnd,
    AnchorStart,
    Alternation(Box<AstV>, Box<AstV>),
    Concatenation(Box<AstV>, Box<AstV>),
    ExactQuantifier(u64),
    Literal(char),
    Dot,
    Split,
    Start,
    Terminal,
    Classified(Box<AstV>, Option<DistLinkV>),
    Class(bool, Seq<char>),
    Quantified(Box<AstV>, Box<AstV>, Option<DistLinkV>),
    Quantifier(char),
}

pub open spec fn link_opt_view(o: Option<DistLink>) -> Option<DistLinkV> {
    match o {
        Some(l) => Some(crate::distribution::link_view(l)),
        None => None,
    }
}

pub open spec fn ast_view(n: AstNode) -> AstV {
    AstV { length: n.length, kind: kind_view(n.kind) }
}

pub open spec fn kind_view(k: Kind) -> KindV
    decreases k,
{
    match k {
        Kind::AnchorEnd => KindV::AnchorEnd,
        Kind::AnchorStart => KindV::AnchorStart,
        Kind::Alternation(l, r) => KindV::Alternation(
            Box::new(AstV { length: l.length, kind: kind_view(l.kind) }),
            Box::new(AstV { length: r.length, kind: kind_view(r.kind) }),
        ),
        Kind::Concatenation(l, r) => KindV::Concatenation(
            Box::new(AstV { length: l.length, kind: kind_view(l.kind) }),
            Box::new(AstV { length: r.length, kind: kind_view(r.kind) }),
        ),
        Kind::ExactQuantifier(n) => KindV::ExactQuantifier(n),
        Kind::Literal(c) => KindV::Literal(c),
        Kind::Dot => KindV::Dot,
        Kind::Split => KindV::Split,
        Kind::Start => KindV::Start,
        Kind::Terminal => KindV::Terminal,
        Kind::Classified(inner, d) => KindV::Classified(
            Box::new(AstV { length: inner.length, kind: kind_view(inner.kind) }),
            link_opt_view(d),
        ),
        Kind::Class(neg, chars) => KindV::Class(neg, chars@),
        Kind::Quantified(q, b, d) => KindV::Quantified(
            Box::new(AstV { length: q.length, kind: kind_view(q.kind) }),
            Box::new(AstV { length: b.length, kind: kind_view(b.kind) }),
            link_opt_view(d),
        ),
        Kind::Quantifier(c) => KindV::Quantifier(c),
    }
}

/// One unfolding step of [`kind_view`], available wherever the term
/// appears.
pub broadcast proof fn lemma_kind_view(k: Kind)
    ensures
        #[trigger] kind_view(k) == match k {
            Kind::AnchorEnd => KindV::AnchorEnd,
            Kind::AnchorStart => KindV::AnchorStart,
            Kind::Alternation(l, r) => KindV::Alternation(
                Box::new(ast_view(*l)),
                Box::new(ast_view(*r)),
            ),
            Kind::Concatenation(l, r) => KindV::Concatenation(
                Box::new(ast_view(*l)),
                Box::new(ast_view(*r)),
            ),
            Kind::ExactQuantifier(n) => KindV::ExactQuantifier(n),
            Kind::Literal(c) => KindV::Literal(c),
            Kind::Dot => KindV::Dot,
            Kind::Split => KindV::Split,
            Kind::Start => KindV::Start,
            Kind::Terminal => KindV::Terminal,
            Kind::Classified(inner, d) => KindV::Classified(
                Box::new(ast_view(*inner)),
                link_opt_view(d),
            ),
            Kind::Class(neg, chars) => KindV::Class(neg, chars@),
            Kind::Quantified(q, b, d) => KindV::Quantified(
                Box::new(ast_view(*q)),
                Box::new(ast_view(*b)),
                link_opt_view(d),
            ),
            Kind::Quantifier(c) => KindV::Quantifier(c),
        },
{
}

pub open spec fn asts_view(v: Seq<AstNode>) -> Seq<AstV> {
    v.map_values(|n: AstNode| ast_view(n))
}

/// The number of compiled slots a kind accounts for, in terms of the
/// stored lengths of its children: one per consuming atom or quantifier,
/// one extra for an alternation's split state, none for the start anchor
/// or the terminal.
pub open spec fn span_of(k: KindV) -> int {
    match k {
        KindV::Literal(_) => 1,
        KindV::Dot => 1,
        KindV::Class(_, _) => 1,
        KindV::Classified(_, _) => 1,
        KindV::Quantifier(_) => 1,
        KindV::ExactQuantifier(_) => 1,
        KindV::AnchorStart => 0,
        KindV::AnchorEnd => 1,
        KindV::Terminal => 0,
        KindV::Start => 1,
        KindV::Split => 1,
        KindV::Alternation(l, r) => l.length + r.length + 1,
        KindV::Concatenation(l, r) => l.length + r.length,
        KindV::Quantified(q, b, _) => q.length + b.length,
    }
}

/// Structural well-formedness of a pattern-body node, as the parser
/// produces it: stored lengths agree with the span rules, a quantified
/// node's first child is a quantifier, a classified node wraps a class
/// and carries a distribution, and no synthetic or anchor kind occurs.
pub open spec fn wf_body(n: AstV) -> bool
    decreases n,
{
    &&& n.length == span_of(n.kind)
    &&& match n.kind {
        KindV::Literal(_) => true,
        KindV::Dot => true,
        KindV::Class(_, _) => true,
        KindV::Classified(inner, dist) => wf_body(*inner) && (inner.kind matches KindV::Class(
            _,
            _,
        )) && dist is Some,
        KindV::Alternation(l, r) => wf_body(*l) && wf_body(*r),
        KindV::Concatenation(l, r) => wf_body(*l) && wf_body(*r),
        KindV::Quantified(q, b, _) => wf_body(*q) && wf_body(*b) && ((
        q.kind is Quantifier) || (q.kind is ExactQuantifier)),
        KindV::Quantifier(c) => c == '?' || c == '*' || c == '+',
        KindV::ExactQuantifier(_) => true,
        _ => false,
    }
}

/// Well-formedness of a full parse result: an optional start anchor,
/// then at most one body node, then an optional end anchor, closed by
/// the terminal node.
pub open spec fn wf_asts(asts: Seq<AstV>) -> bool {
    exists|a: bool, b: bool, e: bool| #[trigger] wf_asts_shape(asts, a, b, e)
}

/// The parse result consists of: a start anchor when `a`, one body node
/// when `b`, an end anchor when `e`, then the terminal.
pub open spec fn wf_asts_shape(asts: Seq<AstV>, a: bool, b: bool, e: bool) -> bool {
    let n = (if a {
        1int
    } else {
        0int
    }) + (if b {
        1int
    } else {
        0int
    }) + (if e {
        1int
    } else {
        0int
    });
    &&& asts.len() == n + 1
    &&& (a ==> asts[0] == (AstV { length: 0, kind: KindV::AnchorStart }))
    &&& (b ==> wf_body(
        asts[if a {
            1int
        } else {
            0int
        }],
    ))
    &&& (e ==> asts[n - 1] == (AstV { length: 1, kind: KindV::AnchorEnd }))
    &&& asts[n] == (AstV { length: 0, kind: KindV::Terminal })
}

} // verus!
