//! Thompson-style compilation of syntax trees to a flat state array.
//!
//! Each node compiles to a fragment of states placed at precomputed
//! indices: a fragment for a node of length `n` placed at index `i`
//! occupies slots `i .. i + n`, and its dangling exits are wired to the
//! slot after it. Slot 0 holds the start state (or the start anchor),
//! and the last slot holds the terminal state.

use vstd::prelude::*;

use crate::ast::{ast_view, kind_view, link_opt_view, AstNode, AstV, Kind, KindV};
use crate::distribution::{DistLink, DistLinkV};

verus! {

broadcast use crate::ast::lemma_kind_view;

/// Two optional forward edges into the state array.
pub type Outs = (Option<usize>, Option<usize>);

/// One state of the compiled automaton.
#[derive(Debug, PartialEq)]
pub struct State {
    pub kind: Kind,
    pub outs: Outs,
    pub dist: Option<DistLink>,
}

/// Spec-level mirror of [`State`].
pub struct StateV {
    pub kind: KindV,
    pub outs: Outs,
    pub dist: Option<DistLinkV>,
}

pub open spec fn state_view(s: State) -> StateV {
    StateV { kind: kind_view(s.kind), outs: s.outs, dist: link_opt_view(s.dist) }
}

pub open spec fn nfa_view(v: Seq<State>) -> Seq<StateV> {
    v.map_values(|s: State| state_view(s))
}

impl State {
    pub fn new(kind: Kind, outs: Outs, dist: Option<DistLink>) -> (r: State)
        ensures
            state_view(r) == (StateV {
                kind: kind_view(kind),
                outs,
                dist: link_opt_view(dist),
            }),
    {
        State { kind, outs, dist }
    }

    /// A state carrying the node's kind and no distribution.
    pub fn from(node: AstNode, outs: Outs) -> (r: State)
        ensures
            state_view(r) == (StateV { kind: ast_view(node).kind, outs, dist: None }),
    {
        State { kind: node.kind, outs, dist: None }
    }

    pub fn start(start: Option<usize>) -> (r: State)
        ensures
            state_view(r) == (StateV { kind: KindV::Start, outs: (start, None), dist: None }),
    {
        State { kind: Kind::Start, outs: (start, None), dist: None }
    }

    pub fn anchor_start(start: Option<usize>) -> (r: State)
        ensures
            state_view(r) == (StateV {
                kind: KindV::AnchorStart,
                outs: (start, None),
                dist: None,
            }),
    {
        State { kind: Kind::AnchorStart, outs: (start, None), dist: None }
    }

    pub fn anchor_end(end: Option<usize>) -> (r: State)
        ensures
            state_view(r) == (StateV { kind: KindV::AnchorEnd, outs: (end, None), dist: None }),
    {
        State { kind: Kind::AnchorEnd, outs: (end, None), dist: None }
    }

    pub fn terminal() -> (r: State)
        ensures
            state_view(r) == (StateV { kind: KindV::Terminal, outs: (None, None), dist: None }),
    {
        State { kind: Kind::Terminal, outs: (None, None), dist: None }
    }

    pub fn literal(c: char, outs: Outs) -> (r: State)
        ensures
            state_view(r) == (StateV { kind: KindV::Literal(c), outs, dist: None }),
    {
        State { kind: Kind::Literal(c), outs, dist: None }
    }

    pub fn split(outs: Outs) -> (r: State)
        ensures
            state_view(r) == (StateV { kind: KindV::Split, outs, dist: None }),
    {
        State { kind: Kind::Split, outs, dist: None }
    }

    pub fn dot(outs: Outs) -> (r: State)
        ensures
            state_view(r) == (StateV { kind: KindV::Dot, outs, dist: None }),
    {
        State { kind: Kind::Dot, outs, dist: None }
    }
}

/// Stored lengths of all proper subtrees agree with the span rules; the
/// root's own length is not constrained (the compiler never reads it).
pub open spec fn kids_ok(n: AstV) -> bool
    decreases n, 0int,
{
    match n.kind {
        KindV::Alternation(l, r) => sub_ok(*l) && sub_ok(*r),
        KindV::Concatenation(l, r) => sub_ok(*l) && sub_ok(*r),
        KindV::Classified(inner, _) => sub_ok(*inner),
        KindV::Quantified(q, b, _) => sub_ok(*q) && sub_ok(*b) && ((q.kind is Quantifier) || (
        q.kind is ExactQuantifier)),
        _ => true,
    }
}

pub open spec fn sub_ok(n: AstV) -> bool
    decreases n, 1int,
{
    n.length == crate::ast::span_of(n.kind) && kids_ok(n)
}

/// The slot count of a node as the compiler sees it.
pub open spec fn node_span(n: AstV) -> int {
    crate::ast::span_of(n.kind)
}

/// The states of the fragment for `ast`, placed at `index`, with dangling
/// exits `outs` and an optional distribution for a bare quantifier or
/// class node. Mirrors `ast_to_frag`; the fragment's entry point is
/// always `index` itself.
pub open spec fn spec_ast_to_frag(
    ast: AstV,
    index: int,
    outs: Outs,
    dist: Option<DistLinkV>,
) -> Seq<StateV>
    decreases ast,
{
    match ast.kind {
        KindV::Alternation(l, r) => {
            let split = StateV {
                kind: KindV::Split,
                outs: (Some((index + 1) as usize), Some((index + l.length + 1) as usize)),
                dist: None,
            };
            seq![split] + spec_ast_to_frag(*l, index + 1, outs, None) + spec_ast_to_frag(
                *r,
                index + l.length + 1,
                outs,
                None,
            )
        },
        KindV::AnchorEnd => seq![StateV { kind: KindV::AnchorEnd, outs, dist: None }],
        KindV::AnchorStart => seq![StateV { kind: KindV::AnchorStart, outs, dist: None }],
        KindV::Concatenation(l, r) => {
            spec_ast_to_frag(*l, index, (Some((index + l.length) as usize), None), None)
                + spec_ast_to_frag(*r, index + l.length, outs, None)
        },
        KindV::Literal(c) => seq![StateV { kind: KindV::Literal(c), outs, dist: None }],
        KindV::Dot => seq![StateV { kind: KindV::Dot, outs, dist: None }],
        KindV::Classified(inner, d) => seq![StateV { kind: inner.kind, outs, dist: d }],
        KindV::Class(neg, chars) => seq![
            StateV { kind: KindV::Class(neg, chars), outs, dist },
        ],
        KindV::Quantified(q, b, d) => {
            let body_outs: Outs = if q.kind matches KindV::Quantifier(c) && c == '?' {
                outs
            } else {
                (Some(index as usize), None)
            };
            let quant = StateV {
                kind: q.kind,
                outs: (Some((index + 1) as usize), outs.0),
                dist: d,
            };
            seq![quant] + spec_ast_to_frag(*b, index + 1, body_outs, None)
        },
        KindV::Quantifier(c) => seq![StateV { kind: KindV::Quantifier(c), outs, dist }],
        KindV::ExactQuantifier(n) => seq![
            StateV { kind: KindV::ExactQuantifier(n), outs, dist },
        ],
        KindV::Start => seq![StateV { kind: KindV::Start, outs, dist: None }],
        KindV::Terminal => seq![StateV { kind: KindV::Terminal, outs: (None, None), dist: None }],
        KindV::Split => seq![StateV { kind: KindV::Split, outs, dist: None }],
    }
}

/// A partial automaton: its states, its entry slot, and its dangling
/// exits.
struct Frag {
    states: Vec<State>,
    start: usize,
    outs: Outs,
}

/// Compile one node into the fragment at `index`.
#[verifier::rlimit(100)]
fn ast_to_frag(ast: AstNode, index: usize, outs: Outs, distribution: Option<DistLink>) -> (r: Frag)
    requires
        kids_ok(ast_view(ast)),
        index + node_span(ast_view(ast)) + 1 <= usize::MAX,
    ensures
        nfa_view(r.states@) == spec_ast_to_frag(
            ast_view(ast),
            index as int,
            outs,
            link_opt_view(distribution),
        ),
        r.start == index,
    decreases ast, 0int,
{
    match ast.kind {
        Kind::Alternation(left, right) => {
            let l = *left;
            let r = *right;
            let l_len = l.length;
            let right_frag = ast_to_frag(r, index + l_len + 1, outs, None);
            let left_frag = ast_to_frag(l, index + 1, outs, None);
            let split = State {
                kind: Kind::Split,
                outs: (Some(index + 1), Some(index + l_len + 1)),
                dist: None,
            };
            let mut states: Vec<State> = Vec::new();
            states.push(split);
            let mut lf = left_frag.states;
            let mut rf = right_frag.states;
            states.append(&mut lf);
            states.append(&mut rf);
            proof {
                assert(nfa_view(states@) =~= spec_ast_to_frag(
                    ast_view(ast),
                    index as int,
                    outs,
                    link_opt_view(distribution),
                ));
            }
            Frag { states, start: index, outs }
        },
        Kind::AnchorEnd => {
            let mut states: Vec<State> = Vec::new();
            states.push(State { kind: Kind::AnchorEnd, outs, dist: None });
            proof {
                assert(nfa_view(states@) =~= spec_ast_to_frag(
                    ast_view(ast),
                    index as int,
                    outs,
                    link_opt_view(distribution),
                ));
            }
            Frag { states, start: index, outs }
        },
        Kind::AnchorStart => {
            let mut states: Vec<State> = Vec::new();
            states.push(State { kind: Kind::AnchorStart, outs, dist: None });
            proof {
                assert(nfa_view(states@) =~= spec_ast_to_frag(
                    ast_view(ast),
                    index as int,
                    outs,
                    link_opt_view(distribution),
                ));
            }
            Frag { states, start: index, outs }
        },
        Kind::Concatenation(left, right) => {
            let l = *left;
            let r = *right;
            let llen = l.length;
            let right_frag = ast_to_frag(r, index + llen, outs, None);
            let left_frag = ast_to_frag(l, index, (Some(index + llen), None), None);
            let mut states = left_frag.states;
            let mut rf = right_frag.states;
            states.append(&mut rf);
            proof {
                assert(nfa_view(states@) =~= spec_ast_to_frag(
                    ast_view(ast),
                    index as int,
                    outs,
                    link_opt_view(distribution),
                ));
            }
            Frag { states, start: index, outs }
        },
        Kind::Literal(c) => {
            let mut states: Vec<State> = Vec::new();
            states.push(State { kind: Kind::Literal(c), outs, dist: None });
            proof {
                assert(nfa_view(states@) =~= spec_ast_to_frag(
                    ast_view(ast),
                    index as int,
                    outs,
                    link_opt_view(distribution),
                ));
            }
            Frag { states, start: index, outs }
        },
        Kind::Dot => {
            let mut states: Vec<State> = Vec::new();
            states.push(State { kind: Kind::Dot, outs, dist: None });
            proof {
                assert(nfa_view(states@) =~= spec_ast_to_frag(
                    ast_view(ast),
                    index as int,
                    outs,
                    link_opt_view(distribution),
                ));
            }
            Frag { states, start: index, outs }
        },
        Kind::Classified(class, dist) => {
            let inner = *class;
            let mut states: Vec<State> = Vec::new();
            states.push(State { kind: inner.kind, outs, dist });
            proof {
                assert(nfa_view(states@) =~= spec_ast_to_frag(
                    ast_view(ast),
                    index as int,
                    outs,
                    link_opt_view(distribution),
                ));
            }
            Frag { states, start: index, outs }
        },
        Kind::Class(neg, chars) => {
            let mut states: Vec<State> = Vec::new();
            states.push(State { kind: Kind::Class(neg, chars), outs, dist: distribution });
            proof {
                assert(nfa_view(states@) =~= spec_ast_to_frag(
                    ast_view(ast),
                    index as int,
                    outs,
                    link_opt_view(distribution),
                ));
            }
            Frag { states, start: index, outs }
        },
        Kind::Quantified(quantifier, quantified, dist) => {
            quantifier_to_frag(*quantifier, *quantified, index, outs, dist)
        },
        Kind::Quantifier(c) => {
            let mut states: Vec<State> = Vec::new();
            states.push(State { kind: Kind::Quantifier(c), outs, dist: distribution });
            proof {
                assert(nfa_view(states@) =~= spec_ast_to_frag(
                    ast_view(ast),
                    index as int,
                    outs,
                    link_opt_view(distribution),
                ));
            }
            Frag { states, start: index, outs }
        },
        Kind::ExactQuantifier(n) => {
            let mut states: Vec<State> = Vec::new();
            states.push(State { kind: Kind::ExactQuantifier(n), outs, dist: distribution });
            proof {
                assert(nfa_view(states@) =~= spec_ast_to_frag(
                    ast_view(ast),
                    index as int,
                    outs,
                    link_opt_view(distribution),
                ));
            }
            Frag { states, start: index, outs }
        },
        Kind::Start => {
            let mut states: Vec<State> = Vec::new();
            states.push(State { kind: Kind::Start, outs, dist: None });
            proof {
                assert(nfa_view(states@) =~= spec_ast_to_frag(
                    ast_view(ast),
                    index as int,
                    outs,
                    link_opt_view(distribution),
                ));
            }
            Frag { states, start: index, outs }
        },
        Kind::Terminal => {
            let mut states: Vec<State> = Vec::new();
            states.push(State { kind: Kind::Terminal, outs: (None, None), dist: None });
            proof {
                assert(nfa_view(states@) =~= spec_ast_to_frag(
                    ast_view(ast),
                    index as int,
                    outs,
                    link_opt_view(distribution),
                ));
            }
            Frag { states, start: index, outs: (None, None) }
        },
        Kind::Split => {
            let mut states: Vec<State> = Vec::new();
            states.push(State { kind: Kind::Split, outs, dist: None });
            proof {
                assert(nfa_view(states@) =~= spec_ast_to_frag(
                    ast_view(ast),
                    index as int,
                    outs,
                    link_opt_view(distribution),
                ));
            }
            Frag { states, start: index, outs }
        },
    }
}

/// Compile a quantified node: the quantifier state at `index`, its body
/// after it. A `?` body exits forward; every other body loops back to the
/// quantifier.
#[verifier::rlimit(100)]
fn quantifier_to_frag(
    quantifier: AstNode,
    quantified: AstNode,
    index: usize,
    outs: Outs,
    distribution: Option<DistLink>,
) -> (r: Frag)
    requires
        sub_ok(ast_view(quantifier)),
        sub_ok(ast_view(quantified)),
        (ast_view(quantifier).kind is Quantifier || ast_view(quantifier).kind
            is ExactQuantifier),
        index + 1 + node_span(ast_view(quantified)) + 1 <= usize::MAX,
    ensures
        nfa_view(r.states@) == spec_ast_to_frag(
            AstV {
                length: (ast_view(quantifier).length + ast_view(quantified).length) as usize,
                kind: KindV::Quantified(
                    Box::new(ast_view(quantifier)),
                    Box::new(ast_view(quantified)),
                    link_opt_view(distribution),
                ),
            },
            index as int,
            outs,
            None,
        ),
        r.start == index,
    decreases quantified, 1int,
{
    proof {
        crate::ast::lemma_kind_view(quantifier.kind);
    }
    let is_option = match &quantifier.kind {
        Kind::Quantifier(c) => *c == '?',
        _ => false,
    };
    let body_outs: Outs = if is_option {
        outs
    } else {
        (Some(index), None)
    };
    let body = ast_to_frag(quantified, index + 1, body_outs, None);
    let quant = State { kind: quantifier.kind, outs: (Some(index + 1), outs.0), dist: distribution };
    let mut states: Vec<State> = Vec::new();
    states.push(quant);
    let mut bf = body.states;
    states.append(&mut bf);
    proof {
        assert(nfa_view(states@) =~= spec_ast_to_frag(
            AstV {
                length: (ast_view(quantifier).length + ast_view(quantified).length) as usize,
                kind: KindV::Quantified(
                    Box::new(ast_view(quantifier)),
                    Box::new(ast_view(quantified)),
                    link_opt_view(distribution),
                ),
            },
            index as int,
            outs,
            None,
        ));
    }
    Frag { states, start: index, outs }
}

/// The states of `ast`'s fragment placed at `index`, with a single exit
/// to `out`.
pub fn ast_to_nfa(ast: AstNode, index: usize, out: usize) -> (r: Vec<State>)
    requires
        kids_ok(ast_view(ast)),
        index + node_span(ast_view(ast)) + 1 <= usize::MAX,
    ensures
        nfa_view(r@) == spec_ast_to_frag(ast_view(ast), index as int, (Some(out), None), None),
{
    ast_to_frag(ast, index, (Some(out), None), None).states
}

/// The fragments of the top-level nodes, tiled from slot `start` on;
/// every fragment's dangling exit is wired to the slot after it.
pub open spec fn spec_tile(asts: Seq<AstV>, start: int) -> Seq<StateV>
    decreases asts.len(),
{
    if asts.len() == 0 {
        Seq::empty()
    } else {
        spec_ast_to_frag(
            asts[0],
            start,
            (Some((start + asts[0].length) as usize), None),
            None,
        ) + spec_tile(asts.drop_first(), start + asts[0].length)
    }
}

/// What `asts_to_nfa` returns: the tiled fragments, preceded by a start
/// state unless the pattern begins with a start anchor (whose slot-zero
/// position the tiling already accounts for).
pub open spec fn spec_asts_to_nfa(asts: Seq<AstV>) -> Seq<StateV> {
    let body = spec_tile(asts, 1);
    if body.len() > 0 && (body[0].kind is AnchorStart || body[0].kind is Start) {
        body
    } else {
        seq![StateV { kind: KindV::Start, outs: (Some(1usize), None), dist: None }] + body
    }
}

/// Stored lengths of every top-level node and its subtrees agree with the
/// span rules.
pub open spec fn all_sub_ok(asts: Seq<AstV>) -> bool {
    forall|i: int| 0 <= i < asts.len() ==> sub_ok(#[trigger] asts[i])
}

/// The total slot count of the top-level nodes.
pub open spec fn total_len(asts: Seq<AstV>) -> int
    decreases asts.len(),
{
    if asts.len() == 0 {
        0
    } else {
        asts[0].length + total_len(asts.drop_first())
    }
}

/// Compile a top-level node list into the flat state array.
///
/// The nodes must be well-formed in the sense of the span rules (as the
/// parser guarantees); a start state is prepended unless the list begins
/// with a start anchor.
pub fn asts_to_nfa(asts: Vec<AstNode>) -> (r: Vec<State>)
    requires
        all_sub_ok(crate::ast::asts_view(asts@)),
        1 + total_len(crate::ast::asts_view(asts@)) + 1 <= usize::MAX,
    ensures
        nfa_view(r@) == spec_asts_to_nfa(crate::ast::asts_view(asts@)),
{
    let ghost views = crate::ast::asts_view(asts@);
    let mut states: Vec<State> = Vec::new();
    let mut start: usize = 1;
    let mut i: usize = 0;
    let n = asts.len();
    let mut asts = asts;
    while i < n
        invariant
            0 <= i <= n,
            n == views.len(),
            asts@.len() == n - i,
            crate::ast::asts_view(asts@) == views.skip(i as int),
            all_sub_ok(views),
            1 + total_len(views) + 1 <= usize::MAX,
            start == 1 + total_len(views.take(i as int)),
            nfa_view(states@) == spec_tile(views.take(i as int), 1),
        decreases n - i,
    {
        let ghost pre = asts@;
        let ast = asts.remove(0);
        proof {
            assert(crate::ast::asts_view(pre)[0] == ast_view(ast));
            assert(crate::ast::asts_view(asts@) =~= views.skip(i as int + 1)) by {
                assert(asts@ =~= pre.drop_first());
                assert(forall|j: int|
                    0 <= j < asts@.len() ==> crate::ast::asts_view(asts@)[j]
                        == crate::ast::asts_view(pre)[j + 1]);
                assert(forall|j: int|
                    0 <= j < asts@.len() ==> #[trigger] views.skip(i as int + 1)[j] == views.skip(
                        i as int,
                    )[j + 1]);
            }
            assert(views.skip(i as int)[0] == views[i as int]);
            lemma_total_len_bounds(views, i as int);
            assert(ast_view(ast) == views[i as int]);
            assert(sub_ok(views[i as int]));
        }
        let end = start + ast.length;
        let frag = ast_to_frag(ast, start, (Some(end), None), None);
        let mut fs = frag.states;
        states.append(&mut fs);
        proof {
            lemma_tile_snoc(views, i as int, 1);
            lemma_total_snoc(views, i as int);
            assert(nfa_view(states@) =~= spec_tile(views.take(i as int + 1), 1));
        }
        start = end;
        i = i + 1;
    }
    proof {
        assert(views.take(n as int) =~= views);
    }
    // prepend the start state unless the pattern begins with an anchor
    let needs_start: bool = if states.len() == 0 {
        true
    } else {
        proof {
            crate::ast::lemma_kind_view(states@[0].kind);
        }
        !(matches!(states[0].kind, Kind::AnchorStart) || matches!(states[0].kind, Kind::Start))
    };
    if needs_start {
        let mut out: Vec<State> = Vec::new();
        out.push(State { kind: Kind::Start, outs: (Some(1), None), dist: None });
        let mut rest = states;
        out.append(&mut rest);
        proof {
            assert(nfa_view(out@) =~= spec_asts_to_nfa(views));
        }
        out
    } else {
        proof {
            assert(nfa_view(states@) =~= spec_asts_to_nfa(views));
        }
        states
    }
}

/// Splitting the tiling at `i`: the whole is the prefix tiling followed
/// by the suffix tiling at the shifted start.
proof fn lemma_tile_split(asts: Seq<AstV>, start: int, i: int)
    requires
        0 <= i <= asts.len(),
    ensures
        spec_tile(asts, start) == spec_tile(asts.take(i), start) + spec_tile(
            asts.skip(i),
            start + total_len(asts.take(i)),
        ),
    decreases i,
{
    if i == 0 {
        assert(asts.take(0) =~= Seq::<AstV>::empty());
        assert(asts.skip(0) =~= asts);
        assert(spec_tile(asts.take(0), start) =~= Seq::<StateV>::empty());
        assert(spec_tile(asts, start) =~= Seq::<StateV>::empty() + spec_tile(asts, start));
    } else {
        lemma_tile_split(asts, start, i - 1);
        let prev = asts.take(i - 1);
        let cur = asts.take(i);
        assert(cur.drop_last() =~= prev);
        lemma_tile_snoc(asts, i - 1, start);
        lemma_total_snoc(asts, i - 1);
        // the suffix at i - 1 starts with asts[i - 1]
        let sfx = asts.skip(i - 1);
        assert(sfx[0] == asts[i - 1]);
        assert(sfx.drop_first() =~= asts.skip(i));
        assert(spec_tile(sfx, start + total_len(prev)) == spec_ast_to_frag(
            asts[i - 1],
            start + total_len(prev),
            (Some((start + total_len(prev) + asts[i - 1].length) as usize), None),
            None,
        ) + spec_tile(asts.skip(i), start + total_len(prev) + asts[i - 1].length));
        assert(spec_tile(asts, start) =~= spec_tile(cur, start) + spec_tile(
            asts.skip(i),
            start + total_len(cur),
        ));
    }
}

/// Tiling one more node appends its fragment at the accumulated start.
proof fn lemma_tile_snoc(asts: Seq<AstV>, i: int, start: int)
    requires
        0 <= i < asts.len(),
    ensures
        spec_tile(asts.take(i + 1), start) == spec_tile(asts.take(i), start) + spec_ast_to_frag(
            asts[i],
            start + total_len(asts.take(i)),
            (Some((start + total_len(asts.take(i)) + asts[i].length) as usize), None),
            None,
        ),
    decreases i,
{
    if i == 0 {
        assert(asts.take(1).drop_first() =~= Seq::<AstV>::empty());
        assert(asts.take(1)[0] == asts[0]);
        assert(asts.take(0) =~= Seq::<AstV>::empty());
        assert(spec_tile(asts.take(0), start) =~= Seq::<StateV>::empty());
        let one = asts.take(1);
        assert(spec_tile(one, start) == spec_ast_to_frag(
            one[0],
            start,
            (Some((start + one[0].length) as usize), None),
            None,
        ) + spec_tile(one.drop_first(), start + one[0].length));
        assert(spec_tile(one.drop_first(), start + one[0].length) =~= Seq::<StateV>::empty());
        assert(spec_tile(one, start) =~= spec_tile(asts.take(0), start) + spec_ast_to_frag(
            asts[0],
            start,
            (Some((start + asts[0].length) as usize), None),
            None,
        ));
    } else {
        let t1 = asts.take(i + 1);
        let t0 = asts.take(i);
        assert(t1[0] == asts[0]);
        assert(t0[0] == asts[0]);
        assert(t1.drop_first() =~= asts.drop_first().take(i));
        assert(t0.drop_first() =~= asts.drop_first().take(i - 1));
        lemma_tile_snoc(asts.drop_first(), i - 1, start + asts[0].length);
        assert(asts.drop_first()[i - 1] == asts[i]);
        lemma_total_len_shift(asts, i);
        assert(spec_tile(t1, start) =~= spec_tile(t0, start) + spec_ast_to_frag(
            asts[i],
            start + total_len(asts.take(i)),
            (Some((start + total_len(asts.take(i)) + asts[i].length) as usize), None),
            None,
        ));
    }
}

proof fn lemma_total_len_shift(asts: Seq<AstV>, i: int)
    requires
        0 < i <= asts.len(),
    ensures
        total_len(asts.take(i)) == asts[0].length + total_len(asts.drop_first().take(i - 1)),
{
    let t = asts.take(i);
    assert(t[0] == asts[0]);
    assert(t.drop_first() =~= asts.drop_first().take(i - 1));
}

proof fn lemma_total_snoc(asts: Seq<AstV>, i: int)
    requires
        0 <= i < asts.len(),
    ensures
        total_len(asts.take(i + 1)) == total_len(asts.take(i)) + asts[i].length,
    decreases i,
{
    if i == 0 {
        assert(asts.take(1).drop_first() =~= Seq::<AstV>::empty());
        assert(asts.take(0) =~= Seq::<AstV>::empty());
        assert(asts.take(1)[0] == asts[0]);
    } else {
        assert(asts.take(i + 1)[0] == asts[0]);
        assert(asts.take(i + 1).drop_first() =~= asts.drop_first().take(i));
        assert(asts.take(i)[0] == asts[0]);
        assert(asts.take(i).drop_first() =~= asts.drop_first().take(i - 1));
        lemma_total_snoc(asts.drop_first(), i - 1);
        assert(asts.drop_first()[i - 1] == asts[i]);
    }
}

/// Every prefix's total length is bounded by the whole.
proof fn lemma_total_len_bounds(asts: Seq<AstV>, i: int)
    requires
        0 <= i < asts.len(),
        all_sub_ok(asts),
    ensures
        0 <= total_len(asts.take(i)),
        total_len(asts.take(i)) + asts[i].length <= total_len(asts),
        asts[i].length >= 0,
        node_span(asts[i]) <= asts[i].length + 1,
    decreases asts.len(),
{
    lemma_total_nonneg(asts, 0);
    lemma_total_prefix(asts, i + 1);
    lemma_total_snoc(asts, i);
    lemma_total_nonneg(asts.take(i), 0);
    assert(sub_ok(asts[i]));
    lemma_span_vs_length(asts[i]);
}

/// For a node whose subtrees are consistent, the compiler's span equals
/// the stored child sums, and is at most `length + 1` when the node
/// itself is consistent; for top-level nodes the parser stores either the
/// exact span or (for anchors and the terminal) a length that differs
/// from the span by at most one.
proof fn lemma_span_vs_length(n: AstV)
    requires
        sub_ok(n),
    ensures
        node_span(n) == n.length,
{
}

proof fn lemma_total_nonneg(asts: Seq<AstV>, _x: int)
    ensures
        all_sub_ok(asts) ==> 0 <= total_len(asts),
    decreases asts.len(),
{
    if asts.len() > 0 {
        lemma_total_nonneg(asts.drop_first(), _x);
        if all_sub_ok(asts) {
            assert(sub_ok(asts[0]));
            assert(all_sub_ok(asts.drop_first())) by {
                assert(forall|j: int|
                    0 <= j < asts.drop_first().len() ==> asts.drop_first()[j] == asts[j + 1]);
            }
        }
    }
}

proof fn lemma_total_prefix(asts: Seq<AstV>, i: int)
    requires
        0 <= i <= asts.len(),
        all_sub_ok(asts),
    ensures
        total_len(asts.take(i)) <= total_len(asts),
    decreases asts.len() - i,
{
    if i == asts.len() {
        assert(asts.take(i) =~= asts);
    } else {
        lemma_total_snoc(asts, i);
        lemma_total_prefix(asts, i + 1);
        assert(sub_ok(asts[i]));
    }
}

} // verus!
