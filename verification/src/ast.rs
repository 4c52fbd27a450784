//! The abstract syntax tree: node shapes, the grammar's structural invariants,
//! and the flattening of a tree back to the token sequence it was parsed from.
use vstd::prelude::*;
use crate::token::Token;

verus! {

/// One part of an `Expression` node: a `+`/`-` operator, or a `Term` subtree.
#[derive(Debug)]
pub enum EElement {
    Plus,
    Minus,
    T(Box<ASTNode>),
}

/// One part of a `Term` node: a `*`/`/` operator, or a `Factor` subtree.
#[derive(Debug)]
pub enum TElement {
    Asterisk,
    Slash,
    F(Box<ASTNode>),
}

/// A node of the syntax tree. Each node exclusively owns its children;
/// the tree is built once by the parser and never mutated.
#[derive(Debug)]
pub enum ASTNode {
    /// The root: a whole statement, wrapping one expression.
    S(Box<ASTNode>),
    /// An expression: an optional leading sign, then terms joined by `+`/`-`.
    E(Vec<EElement>),
    /// A term: factors joined by `*`/`/`.
    T(Vec<TElement>),
    /// A factor: a bare number or a parenthesized expression.
    F(Box<ASTNode>),
    /// A numeric literal.
    N(u64),
}

/// A sequence of expression parts of the shape `Term ((+|-) Term)*`:
/// odd length, terms at even indices, operators at odd indices.
pub open spec fn wf_echain(v: Seq<EElement>) -> bool
    decreases v,
{
    if v.len() == 0 {
        false
    } else if v.len() == 1 {
        v[0] matches EElement::T(n) && wf_term(*n)
    } else {
        &&& v.len() >= 3
        &&& (v[v.len() - 2] is Plus || v[v.len() - 2] is Minus)
        &&& (v[v.len() - 1] matches EElement::T(n) && wf_term(*n))
        &&& wf_echain(v.subrange(0, v.len() - 2))
    }
}

/// A sequence of term parts of the shape `Factor ((*|/) Factor)*`.
pub open spec fn wf_tchain(v: Seq<TElement>) -> bool
    decreases v,
{
    if v.len() == 0 {
        false
    } else if v.len() == 1 {
        v[0] matches TElement::F(n) && wf_factor(*n)
    } else {
        &&& v.len() >= 3
        &&& (v[v.len() - 2] is Asterisk || v[v.len() - 2] is Slash)
        &&& (v[v.len() - 1] matches TElement::F(n) && wf_factor(*n))
        &&& wf_tchain(v.subrange(0, v.len() - 2))
    }
}

/// A well-formed expression node: `E` holding an optional leading sign
/// followed by a `Term ((+|-) Term)*` chain.
pub open spec fn wf_expr(a: ASTNode) -> bool
    decreases a,
{
    match a {
        ASTNode::E(v) => {
            if v@.len() > 0 && (v@[0] is Plus || v@[0] is Minus) {
                wf_echain(v@.subrange(1, v@.len() as int))
            } else {
                wf_echain(v@)
            }
        },
        _ => false,
    }
}

/// A well-formed term node: `T` holding a `Factor ((*|/) Factor)*` chain.
pub open spec fn wf_term(a: ASTNode) -> bool
    decreases a,
{
    match a {
        ASTNode::T(v) => wf_tchain(v@),
        _ => false,
    }
}

/// A well-formed factor node: `F` wrapping a bare number or a
/// (parenthesized) expression.
pub open spec fn wf_factor(a: ASTNode) -> bool
    decreases a,
{
    match a {
        ASTNode::F(inner) => match *inner {
            ASTNode::N(_) => true,
            ASTNode::E(_) => wf_expr(*inner),
            _ => false,
        },
        _ => false,
    }
}

/// A well-formed statement tree: the root of every successful parse.
pub open spec fn wf_stmt(a: ASTNode) -> bool
    decreases a,
{
    match a {
        ASTNode::S(e) => (*e matches ASTNode::E(_)) && wf_expr(*e),
        _ => false,
    }
}

/// The tail of an expression chain after its first term: `((+|-) Term)*`,
/// read from the front, as the evaluator consumes it.
pub open spec fn wf_epairs(v: Seq<EElement>) -> bool
    decreases v,
{
    if v.len() == 0 {
        true
    } else {
        &&& v.len() >= 2
        &&& (v[0] is Plus || v[0] is Minus)
        &&& (v[1] matches EElement::T(n) && wf_term(*n))
        &&& wf_epairs(v.subrange(2, v.len() as int))
    }
}

/// The tail of a term chain after its first factor: `((*|/) Factor)*`.
pub open spec fn wf_tpairs(v: Seq<TElement>) -> bool
    decreases v,
{
    if v.len() == 0 {
        true
    } else {
        &&& v.len() >= 2
        &&& (v[0] is Asterisk || v[0] is Slash)
        &&& (v[1] matches TElement::F(n) && wf_factor(*n))
        &&& wf_tpairs(v.subrange(2, v.len() as int))
    }
}

/// Appending one `(operator, term)` pair keeps the pair shape.
proof fn lemma_epairs_snoc(w: Seq<EElement>, op: EElement, t: EElement)
    requires
        wf_epairs(w),
        op is Plus || op is Minus,
        t matches EElement::T(n) && wf_term(*n),
    ensures
        wf_epairs(w + seq![op, t]),
    decreases w,
{
    let v = w + seq![op, t];
    if w.len() == 0 {
        assert(v[0] == op && v[1] == t);
        assert(v.subrange(2, v.len() as int) =~= Seq::<EElement>::empty());
        assert(wf_epairs(v.subrange(2, v.len() as int)));
    } else {
        lemma_epairs_snoc(w.subrange(2, w.len() as int), op, t);
        assert(v[0] == w[0] && v[1] == w[1]);
        assert(v.subrange(2, v.len() as int) =~= w.subrange(2, w.len() as int) + seq![op, t]);
    }
}

/// Appending one `(operator, factor)` pair keeps the pair shape.
proof fn lemma_tpairs_snoc(w: Seq<TElement>, op: TElement, t: TElement)
    requires
        wf_tpairs(w),
        op is Asterisk || op is Slash,
        t matches TElement::F(n) && wf_factor(*n),
    ensures
        wf_tpairs(w + seq![op, t]),
    decreases w,
{
    let v = w + seq![op, t];
    if w.len() == 0 {
        assert(v[0] == op && v[1] == t);
        assert(v.subrange(2, v.len() as int) =~= Seq::<TElement>::empty());
        assert(wf_tpairs(v.subrange(2, v.len() as int)));
    } else {
        lemma_tpairs_snoc(w.subrange(2, w.len() as int), op, t);
        assert(v[0] == w[0] && v[1] == w[1]);
        assert(v.subrange(2, v.len() as int) =~= w.subrange(2, w.len() as int) + seq![op, t]);
    }
}

/// A well-formed expression chain, read from the front, is one term followed
/// by `(operator, term)` pairs.
pub proof fn lemma_echain_split(v: Seq<EElement>)
    requires
        wf_echain(v),
    ensures
        v.len() >= 1,
        v[0] matches EElement::T(n) && wf_term(*n),
        wf_epairs(v.subrange(1, v.len() as int)),
    decreases v,
{
    if v.len() == 1 {
        assert(v.subrange(1, 1) =~= Seq::<EElement>::empty());
    } else {
        let w = v.subrange(0, v.len() - 2);
        lemma_echain_split(w);
        assert(v[0] == w[0]);
        lemma_epairs_snoc(
            w.subrange(1, w.len() as int),
            v[v.len() - 2],
            v[v.len() - 1],
        );
        assert(v.subrange(1, v.len() as int) =~= w.subrange(1, w.len() as int) + seq![
            v[v.len() - 2],
            v[v.len() - 1],
        ]);
    }
}

/// A well-formed term chain, read from the front, is one factor followed by
/// `(operator, factor)` pairs.
pub proof fn lemma_tchain_split(v: Seq<TElement>)
    requires
        wf_tchain(v),
    ensures
        v.len() >= 1,
        v[0] matches TElement::F(n) && wf_factor(*n),
        wf_tpairs(v.subrange(1, v.len() as int)),
    decreases v,
{
    if v.len() == 1 {
        assert(v.subrange(1, 1) =~= Seq::<TElement>::empty());
    } else {
        let w = v.subrange(0, v.len() - 2);
        lemma_tchain_split(w);
        assert(v[0] == w[0]);
        lemma_tpairs_snoc(
            w.subrange(1, w.len() as int),
            v[v.len() - 2],
            v[v.len() - 1],
        );
        assert(v.subrange(1, v.len() as int) =~= w.subrange(1, w.len() as int) + seq![
            v[v.len() - 2],
            v[v.len() - 1],
        ]);
    }
}

/// A well-formed chain alternates strictly, so it has odd length.
proof fn lemma_echain_odd_len(v: Seq<EElement>)
    requires
        wf_echain(v),
    ensures
        v.len() % 2 == 1,
    decreases v,
{
    if v.len() > 1 {
        lemma_echain_odd_len(v.subrange(0, v.len() - 2));
    }
}

/// A well-formed term chain alternates strictly, so it has odd length.
proof fn lemma_tchain_odd_len(v: Seq<TElement>)
    requires
        wf_tchain(v),
    ensures
        v.len() % 2 == 1,
    decreases v,
{
    if v.len() > 1 {
        lemma_tchain_odd_len(v.subrange(0, v.len() - 2));
    }
}

/// An expression node's part sequence has odd length when no leading sign is
/// present and even length when one is; a sign can only stand first.
pub proof fn lemma_expr_parts_parity(a: ASTNode)
    requires
        wf_expr(a),
    ensures
        a matches ASTNode::E(v) ==> (if v@[0] is Plus || v@[0] is Minus {
            v@.len() % 2 == 0
        } else {
            v@.len() % 2 == 1
        }),
{
    match a {
        ASTNode::E(vec) => {
            if vec@.len() > 0 && (vec@[0] is Plus || vec@[0] is Minus) {
                lemma_echain_odd_len(vec@.subrange(1, vec@.len() as int));
            } else {
                lemma_echain_odd_len(vec@);
            }
        },
        _ => {},
    }
}

/// A term node's part sequence always has odd length: factors at even
/// indices, operators at odd indices.
pub proof fn lemma_term_parts_parity(a: ASTNode)
    requires
        wf_term(a),
    ensures
        a matches ASTNode::T(v) ==> v@.len() % 2 == 1,
{
    match a {
        ASTNode::T(vec) => {
            lemma_tchain_odd_len(vec@);
        },
        _ => {},
    }
}

/// The tokens a tree prints back to. A parsed tree flattens to exactly the
/// token sequence it was built from, which pins the parser's output down:
/// a statement flattens to its expression's tokens followed by `;`, and a
/// factor wrapping an expression restores the parentheses around it.
pub open spec fn flat_ast(a: ASTNode) -> Seq<Token>
    decreases a,
{
    match a {
        ASTNode::S(e) => flat_ast(*e) + seq![Token::Semicolon],
        ASTNode::E(v) => flat_eparts(v@),
        ASTNode::T(v) => flat_tparts(v@),
        ASTNode::F(inner) => match *inner {
            ASTNode::N(n) => seq![Token::Number(n)],
            _ => seq![Token::Openparen] + flat_ast(*inner) + seq![Token::Closeparen],
        },
        ASTNode::N(n) => seq![Token::Number(n)],
    }
}

/// Flattening of an expression node's part sequence, rightmost part last.
pub open spec fn flat_eparts(v: Seq<EElement>) -> Seq<Token>
    decreases v,
{
    if v.len() == 0 {
        Seq::empty()
    } else {
        flat_eparts(v.subrange(0, v.len() - 1)) + flat_epart(v[v.len() - 1])
    }
}

/// Flattening of one expression part.
pub open spec fn flat_epart(p: EElement) -> Seq<Token>
    decreases p,
{
    match p {
        EElement::Plus => seq![Token::Plus],
        EElement::Minus => seq![Token::Minus],
        EElement::T(n) => flat_ast(*n),
    }
}

/// Flattening of a term node's part sequence, rightmost part last.
pub open spec fn flat_tparts(v: Seq<TElement>) -> Seq<Token>
    decreases v,
{
    if v.len() == 0 {
        Seq::empty()
    } else {
        flat_tparts(v.subrange(0, v.len() - 1)) + flat_tpart(v[v.len() - 1])
    }
}

/// Flattening of one term part.
pub open spec fn flat_tpart(p: TElement) -> Seq<Token>
    decreases p,
{
    match p {
        TElement::Asterisk => seq![Token::Asterisk],
        TElement::Slash => seq![Token::Slash],
        TElement::F(n) => flat_ast(*n),
    }
}

} // verus!
