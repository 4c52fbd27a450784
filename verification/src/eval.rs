//! Tree evaluation. The value of an expression over integer literals and
//! `+ - * /` is an exact rational; the evaluator computes one as a fraction
//! of two `i64` with positive denominator, folding each node's part sequence
//! left to right, and fails with `DivisionByZero` on a zero divisor, with
//! `MalformedTree` where the tree breaks the grammar's shape, and with
//! `Overflow` where an intermediate numerator or denominator leaves `i64`.
//! The spec `sv_ast` fixes the outcome, errors and overflow included, so the
//! evaluator's result is fully determined by the tree.
use vstd::prelude::*;
use vstd::arithmetic::mul::{lemma_mul_nonzero, lemma_mul_strictly_positive};
use crate::ast::{ASTNode, EElement, TElement};
use crate::token::EvalError;

verus! {

/// An exact rational number: `num / den` with `den > 0`. The fraction is not
/// reduced; two values denote the same rational when they cross-multiply
/// equally.
#[derive(Debug, Clone, Copy, PartialEq, Eq, Structural)]
pub struct Rat {
    pub num: i64,
    pub den: i64,
}

impl Rat {
    /// The fraction as a pair of unbounded integers.
    pub open spec fn pair(self) -> (int, int) {
        (self.num as int, self.den as int)
    }
}

/// Sum of two fractions: `a/b + c/d == (a*d + c*b) / (b*d)`.
pub open spec fn rat_add(a: (int, int), b: (int, int)) -> (int, int) {
    (a.0 * b.1 + b.0 * a.1, a.1 * b.1)
}

/// Difference of two fractions.
pub open spec fn rat_sub(a: (int, int), b: (int, int)) -> (int, int) {
    (a.0 * b.1 - b.0 * a.1, a.1 * b.1)
}

/// Product of two fractions.
pub open spec fn rat_mul(a: (int, int), b: (int, int)) -> (int, int) {
    (a.0 * b.0, a.1 * b.1)
}

/// Quotient of two fractions, the sign moved into the numerator so that a
/// positive denominator stays positive.
pub open spec fn rat_div(a: (int, int), b: (int, int)) -> (int, int) {
    let n = a.0 * b.1;
    let d = a.1 * b.0;
    if d < 0 {
        (-n, -d)
    } else {
        (n, d)
    }
}

/// Whether an unbounded integer fits in `i64`.
pub open spec fn i64_fits(x: int) -> bool {
    i64::MIN <= x <= i64::MAX
}

/// `rat_add` if every intermediate product and the results fit in `i64`,
/// else `None`.
pub open spec fn rat_add_ck(a: (int, int), b: (int, int)) -> Option<(int, int)> {
    if i64_fits(a.0 * b.1) && i64_fits(b.0 * a.1) && i64_fits(a.0 * b.1 + b.0 * a.1) && i64_fits(
        a.1 * b.1,
    ) {
        Some(rat_add(a, b))
    } else {
        None
    }
}

/// `rat_sub` if every intermediate product and the results fit in `i64`,
/// else `None`.
pub open spec fn rat_sub_ck(a: (int, int), b: (int, int)) -> Option<(int, int)> {
    if i64_fits(a.0 * b.1) && i64_fits(b.0 * a.1) && i64_fits(a.0 * b.1 - b.0 * a.1) && i64_fits(
        a.1 * b.1,
    ) {
        Some(rat_sub(a, b))
    } else {
        None
    }
}

/// `rat_mul` if both products fit in `i64`, else `None`.
pub open spec fn rat_mul_ck(a: (int, int), b: (int, int)) -> Option<(int, int)> {
    if i64_fits(a.0 * b.0) && i64_fits(a.1 * b.1) {
        Some(rat_mul(a, b))
    } else {
        None
    }
}

/// `rat_div` if both cross products, and their negations where the sign must
/// move, fit in `i64`, else `None`.
pub open spec fn rat_div_ck(a: (int, int), b: (int, int)) -> Option<(int, int)> {
    let n = a.0 * b.1;
    let d = a.1 * b.0;
    if !(i64_fits(n) && i64_fits(d)) {
        None
    } else if d < 0 {
        if i64_fits(-n) && i64_fits(-d) {
            Some(rat_div(a, b))
        } else {
            None
        }
    } else {
        Some(rat_div(a, b))
    }
}

/// The value of a tree in `i64`-bounded exact rational arithmetic: a
/// statement or factor passes evaluation to its child, an expression or term
/// folds its part sequence, a literal is itself over 1; a step that leaves
/// `i64` is `Overflow`.
pub open spec fn sv_ast(a: ASTNode) -> Result<(int, int), EvalError>
    decreases a, 2int,
{
    match a {
        ASTNode::S(e) => sv_ast(*e),
        ASTNode::E(v) => sv_eseq(v@),
        ASTNode::T(v) => sv_tseq(v@),
        ASTNode::F(n) => sv_ast(*n),
        ASTNode::N(n) => if n <= i64::MAX {
            Ok((n as int, 1))
        } else {
            Err(EvalError::Overflow)
        },
    }
}

/// Value of an expression's part sequence: a leading term seeds the
/// accumulator; a leading sign seeds it with zero, so that `-x` folds to
/// `0 - x`.
pub open spec fn sv_eseq(v: Seq<EElement>) -> Result<(int, int), EvalError>
    decreases v, 1int,
{
    if v.len() == 0 {
        Err(EvalError::MalformedTree)
    } else {
        match v[0] {
            EElement::T(n) => match sv_ast(*n) {
                Ok(w) => sv_efold(v.subrange(1, v.len() as int), w),
                Err(e) => Err(e),
            },
            _ => sv_efold(v, (0, 1)),
        }
    }
}

/// Left-to-right fold of `(+|-) term` pairs onto an accumulator.
pub open spec fn sv_efold(v: Seq<EElement>, acc: (int, int)) -> Result<(int, int), EvalError>
    decreases v, 0int,
{
    if v.len() == 0 {
        Ok(acc)
    } else if v.len() == 1 {
        Err(EvalError::MalformedTree)
    } else {
        match v[0] {
            EElement::Plus => match v[1] {
                EElement::T(n) => match sv_ast(*n) {
                    Ok(w) => match rat_add_ck(acc, w) {
                        Some(x) => sv_efold(v.subrange(2, v.len() as int), x),
                        None => Err(EvalError::Overflow),
                    },
                    Err(e) => Err(e),
                },
                _ => Err(EvalError::MalformedTree),
            },
            EElement::Minus => match v[1] {
                EElement::T(n) => match sv_ast(*n) {
                    Ok(w) => match rat_sub_ck(acc, w) {
                        Some(x) => sv_efold(v.subrange(2, v.len() as int), x),
                        None => Err(EvalError::Overflow),
                    },
                    Err(e) => Err(e),
                },
                _ => Err(EvalError::MalformedTree),
            },
            _ => Err(EvalError::MalformedTree),
        }
    }
}

/// Value of a term's part sequence: the first factor seeds the accumulator.
pub open spec fn sv_tseq(v: Seq<TElement>) -> Result<(int, int), EvalError>
    decreases v, 1int,
{
    if v.len() == 0 {
        Err(EvalError::MalformedTree)
    } else {
        match v[0] {
            TElement::F(n) => match sv_ast(*n) {
                Ok(w) => sv_tfold(v.subrange(1, v.len() as int), w),
                Err(e) => Err(e),
            },
            _ => Err(EvalError::MalformedTree),
        }
    }
}

/// Left-to-right fold of `(*|/) factor` pairs onto an accumulator; a divisor
/// whose value is zero fails with `DivisionByZero`.
pub open spec fn sv_tfold(v: Seq<TElement>, acc: (int, int)) -> Result<(int, int), EvalError>
    decreases v, 0int,
{
    if v.len() == 0 {
        Ok(acc)
    } else if v.len() == 1 {
        Err(EvalError::MalformedTree)
    } else {
        match v[0] {
            TElement::Asterisk => match v[1] {
                TElement::F(n) => match sv_ast(*n) {
                    Ok(w) => match rat_mul_ck(acc, w) {
                        Some(x) => sv_tfold(v.subrange(2, v.len() as int), x),
                        None => Err(EvalError::Overflow),
                    },
                    Err(e) => Err(e),
                },
                _ => Err(EvalError::MalformedTree),
            },
            TElement::Slash => match v[1] {
                TElement::F(n) => match sv_ast(*n) {
                    Ok(w) => if w.0 == 0 {
                        Err(EvalError::DivisionByZero)
                    } else {
                        match rat_div_ck(acc, w) {
                            Some(x) => sv_tfold(v.subrange(2, v.len() as int), x),
                            None => Err(EvalError::Overflow),
                        }
                    },
                    Err(e) => Err(e),
                },
                _ => Err(EvalError::MalformedTree),
            },
            _ => Err(EvalError::MalformedTree),
        }
    }
}

/// Evaluation is a pure function of the tree: any two values that `eval`'s
/// contract admits for the same tree are the same fraction, so invoking it
/// twice on the same tree yields the same value.
pub proof fn lemma_eval_value_is_determined(a: ASTNode, x: Rat, y: Rat)
    requires
        sv_ast(a) == Ok::<(int, int), EvalError>(x.pair()),
        sv_ast(a) == Ok::<(int, int), EvalError>(y.pair()),
    ensures
        x == y,
{
    assert(x.pair() == y.pair());
}

/// On a well-formed statement tree — what the parser returns — evaluation
/// never reports `MalformedTree`: the defensive shape check is unreachable,
/// and only a value or a division by zero can come out of the fold.
pub proof fn lemma_wf_stmt_no_malformed(a: ASTNode)
    requires
        crate::ast::wf_stmt(a),
    ensures
        sv_ast(a) != Err::<(int, int), EvalError>(EvalError::MalformedTree),
    decreases a, 3int,
{
    match a {
        ASTNode::S(e) => {
            lemma_wf_expr_no_malformed(*e);
        },
        _ => {},
    }
}

/// On a well-formed expression node evaluation never reports `MalformedTree`.
pub proof fn lemma_wf_expr_no_malformed(a: ASTNode)
    requires
        crate::ast::wf_expr(a),
    ensures
        sv_ast(a) != Err::<(int, int), EvalError>(EvalError::MalformedTree),
    decreases a, 2int,
{
    match a {
        ASTNode::E(vec) => {
            let s = vec@;
            if s[0] is Plus || s[0] is Minus {
                let chain = s.subrange(1, s.len() as int);
                crate::ast::lemma_echain_split(chain);
                assert(s[1] == chain[0]);
                assert(s.subrange(2, s.len() as int) =~= chain.subrange(1, chain.len() as int));
                assert(crate::ast::wf_epairs(s));
                lemma_efold_no_malformed(s, (0, 1));
                assert(sv_eseq(s) == sv_efold(s, (0, 1)));
            } else {
                crate::ast::lemma_echain_split(s);
                match s[0] {
                    EElement::T(n) => {
                        lemma_wf_term_no_malformed(*n);
                        let r = sv_ast(*n);
                        if r is Ok {
                            lemma_efold_no_malformed(s.subrange(1, s.len() as int), r->Ok_0);
                            assert(sv_eseq(s) == sv_efold(s.subrange(1, s.len() as int), r->Ok_0));
                        } else {
                            assert(sv_eseq(s) == Err::<(int, int), EvalError>(r->Err_0));
                        }
                    },
                    _ => {},
                }
            }
            assert(sv_ast(a) == sv_eseq(s));
        },
        _ => {},
    }
}

/// On a `((+|-) term)*` tail the fold never reports `MalformedTree`,
/// whatever the accumulator.
proof fn lemma_efold_no_malformed(w: Seq<EElement>, acc: (int, int))
    requires
        crate::ast::wf_epairs(w),
    ensures
        sv_efold(w, acc) != Err::<(int, int), EvalError>(EvalError::MalformedTree),
    decreases w, 0int,
{
    if w.len() != 0 {
        match w[1] {
            EElement::T(n) => {
                lemma_wf_term_no_malformed(*n);
                let r = sv_ast(*n);
                if r is Ok {
                    let acc2 = if w[0] is Plus {
                        rat_add_ck(acc, r->Ok_0)
                    } else {
                        rat_sub_ck(acc, r->Ok_0)
                    };
                    match acc2 {
                        Some(x) => {
                            lemma_efold_no_malformed(w.subrange(2, w.len() as int), x);
                        },
                        None => {},
                    }
                }
            },
            _ => {},
        }
    }
}

/// On a well-formed term node evaluation never reports `MalformedTree`.
proof fn lemma_wf_term_no_malformed(a: ASTNode)
    requires
        crate::ast::wf_term(a),
    ensures
        sv_ast(a) != Err::<(int, int), EvalError>(EvalError::MalformedTree),
    decreases a, 2int,
{
    match a {
        ASTNode::T(vec) => {
            let s = vec@;
            crate::ast::lemma_tchain_split(s);
            match s[0] {
                TElement::F(n) => {
                    lemma_wf_factor_no_malformed(*n);
                    let r = sv_ast(*n);
                    if r is Ok {
                        lemma_tfold_no_malformed(s.subrange(1, s.len() as int), r->Ok_0);
                        assert(sv_tseq(s) == sv_tfold(s.subrange(1, s.len() as int), r->Ok_0));
                    } else {
                        assert(sv_tseq(s) == Err::<(int, int), EvalError>(r->Err_0));
                    }
                },
                _ => {},
            }
            assert(sv_ast(a) == sv_tseq(s));
        },
        _ => {},
    }
}

/// On a `((*|/) factor)*` tail the fold never reports `MalformedTree`.
proof fn lemma_tfold_no_malformed(w: Seq<TElement>, acc: (int, int))
    requires
        crate::ast::wf_tpairs(w),
    ensures
        sv_tfold(w, acc) != Err::<(int, int), EvalError>(EvalError::MalformedTree),
    decreases w, 0int,
{
    if w.len() != 0 {
        match w[1] {
            TElement::F(n) => {
                lemma_wf_factor_no_malformed(*n);
                let r = sv_ast(*n);
                if r is Ok {
                    let acc2 = if w[0] is Asterisk {
                        rat_mul_ck(acc, r->Ok_0)
                    } else if r->Ok_0.0 != 0 {
                        rat_div_ck(acc, r->Ok_0)
                    } else {
                        None
                    };
                    match acc2 {
                        Some(x) => {
                            lemma_tfold_no_malformed(w.subrange(2, w.len() as int), x);
                        },
                        None => {},
                    }
                }
            },
            _ => {},
        }
    }
}

/// On a well-formed factor node evaluation never reports `MalformedTree`.
proof fn lemma_wf_factor_no_malformed(a: ASTNode)
    requires
        crate::ast::wf_factor(a),
    ensures
        sv_ast(a) != Err::<(int, int), EvalError>(EvalError::MalformedTree),
    decreases a, 3int,
{
    match a {
        ASTNode::F(inner) => match *inner {
            ASTNode::E(_) => {
                lemma_wf_expr_no_malformed(*inner);
            },
            _ => {},
        },
        _ => {},
    }
}

/// Exact sum of two fractions in `i64`, or `None` past the width.
fn rat_add_exec(a: Rat, b: Rat) -> (r: Option<Rat>)
    requires
        a.den > 0,
        b.den > 0,
    ensures
        r matches Some(x) ==> rat_add_ck(a.pair(), b.pair()) == Some(x.pair()) && x.den > 0,
        r is None ==> rat_add_ck(a.pair(), b.pair()) is None,
{
    let n1 = match a.num.checked_mul(b.den) {
        Some(v) => v,
        None => {
            return None;
        },
    };
    let n2 = match b.num.checked_mul(a.den) {
        Some(v) => v,
        None => {
            return None;
        },
    };
    let n = match n1.checked_add(n2) {
        Some(v) => v,
        None => {
            return None;
        },
    };
    let d = match a.den.checked_mul(b.den) {
        Some(v) => v,
        None => {
            return None;
        },
    };
    proof {
        lemma_mul_strictly_positive(a.den as int, b.den as int);
    }
    Some(Rat { num: n, den: d })
}

/// Exact difference of two fractions in `i64`, or `None` past the width.
fn rat_sub_exec(a: Rat, b: Rat) -> (r: Option<Rat>)
    requires
        a.den > 0,
        b.den > 0,
    ensures
        r matches Some(x) ==> rat_sub_ck(a.pair(), b.pair()) == Some(x.pair()) && x.den > 0,
        r is None ==> rat_sub_ck(a.pair(), b.pair()) is None,
{
    let n1 = match a.num.checked_mul(b.den) {
        Some(v) => v,
        None => {
            return None;
        },
    };
    let n2 = match b.num.checked_mul(a.den) {
        Some(v) => v,
        None => {
            return None;
        },
    };
    let n = match n1.checked_sub(n2) {
        Some(v) => v,
        None => {
            return None;
        },
    };
    let d = match a.den.checked_mul(b.den) {
        Some(v) => v,
        None => {
            return None;
        },
    };
    proof {
        lemma_mul_strictly_positive(a.den as int, b.den as int);
    }
    Some(Rat { num: n, den: d })
}

/// Exact product of two fractions in `i64`, or `None` past the width.
fn rat_mul_exec(a: Rat, b: Rat) -> (r: Option<Rat>)
    requires
        a.den > 0,
        b.den > 0,
    ensures
        r matches Some(x) ==> rat_mul_ck(a.pair(), b.pair()) == Some(x.pair()) && x.den > 0,
        r is None ==> rat_mul_ck(a.pair(), b.pair()) is None,
{
    let n = match a.num.checked_mul(b.num) {
        Some(v) => v,
        None => {
            return None;
        },
    };
    let d = match a.den.checked_mul(b.den) {
        Some(v) => v,
        None => {
            return None;
        },
    };
    proof {
        lemma_mul_strictly_positive(a.den as int, b.den as int);
    }
    Some(Rat { num: n, den: d })
}

/// Exact quotient of two fractions in `i64`, or `None` past the width.
fn rat_div_exec(a: Rat, b: Rat) -> (r: Option<Rat>)
    requires
        a.den > 0,
        b.den > 0,
        b.num != 0,
    ensures
        r matches Some(x) ==> rat_div_ck(a.pair(), b.pair()) == Some(x.pair()) && x.den > 0,
        r is None ==> rat_div_ck(a.pair(), b.pair()) is None,
{
    let n = match a.num.checked_mul(b.den) {
        Some(v) => v,
        None => {
            return None;
        },
    };
    let d = match a.den.checked_mul(b.num) {
        Some(v) => v,
        None => {
            return None;
        },
    };
    proof {
        lemma_mul_nonzero(a.den as int, b.num as int);
    }
    if d < 0 {
        let n2 = match 0i64.checked_sub(n) {
            Some(v) => v,
            None => {
                return None;
            },
        };
        let d2 = match 0i64.checked_sub(d) {
            Some(v) => v,
            None => {
                return None;
            },
        };
        Some(Rat { num: n2, den: d2 })
    } else {
        Some(Rat { num: n, den: d })
    }
}

impl ASTNode {
    /// Evaluates the tree to exactly the value or error `sv_ast` gives it.
    #[verifier::loop_isolation(false)]
    pub fn eval(&self) -> (r: Result<Rat, EvalError>)
        ensures
            match r {
                Ok(x) => sv_ast(*self) == Ok::<(int, int), EvalError>(x.pair()) && x.den > 0,
                Err(e) => sv_ast(*self) == Err::<(int, int), EvalError>(e),
            },
        decreases *self,
    {
        match self {
            ASTNode::S(node) => node.eval(),
            ASTNode::E(v) => {
                if v.len() == 0 {
                    return Err(EvalError::MalformedTree);
                }
                let mut val: Rat;
                let mut i: usize;
                match &v[0] {
                    EElement::T(n) => {
                        match n.eval() {
                            Ok(x) => {
                                val = x;
                            },
                            Err(e) => {
                                return Err(e);
                            },
                        }
                        i = 1;
                    },
                    _ => {
                        val = Rat { num: 0, den: 1 };
                        i = 0;
                    },
                }
                proof {
                    assert(v@.subrange(0, v@.len() as int) =~= v@);
                }
                while i < v.len()
                    invariant
                        i <= v@.len(),
                        val.den > 0,
                        sv_eseq(v@) == sv_efold(
                            v@.subrange(i as int, v@.len() as int),
                            val.pair(),
                        ),
                    decreases v@.len() - i,
                {
                    let ghost suffix = v@.subrange(i as int, v@.len() as int);
                    let op_is_plus: bool;
                    match &v[i] {
                        EElement::Plus => {
                            op_is_plus = true;
                        },
                        EElement::Minus => {
                            op_is_plus = false;
                        },
                        EElement::T(_) => {
                            return Err(EvalError::MalformedTree);
                        },
                    }
                    if i + 1 >= v.len() {
                        return Err(EvalError::MalformedTree);
                    }
                    match &v[i + 1] {
                        EElement::T(n) => {
                            let w = match n.eval() {
                                Ok(x) => x,
                                Err(e) => {
                                    return Err(e);
                                },
                            };
                            let nv = if op_is_plus {
                                rat_add_exec(val, w)
                            } else {
                                rat_sub_exec(val, w)
                            };
                            match nv {
                                Some(x) => {
                                    val = x;
                                },
                                None => {
                                    return Err(EvalError::Overflow);
                                },
                            }
                            proof {
                                assert(suffix.subrange(2, suffix.len() as int) =~= v@.subrange(
                                    i + 2,
                                    v@.len() as int,
                                ));
                            }
                            i = i + 2;
                        },
                        _ => {
                            return Err(EvalError::MalformedTree);
                        },
                    }
                }
                proof {
                    assert(v@.subrange(i as int, v@.len() as int) =~= Seq::<EElement>::empty());
                }
                Ok(val)
            },
            ASTNode::T(v) => {
                if v.len() == 0 {
                    return Err(EvalError::MalformedTree);
                }
                let mut val: Rat;
                match &v[0] {
                    TElement::F(n) => {
                        match n.eval() {
                            Ok(x) => {
                                val = x;
                            },
                            Err(e) => {
                                return Err(e);
                            },
                        }
                    },
                    _ => {
                        return Err(EvalError::MalformedTree);
                    },
                }
                let mut i: usize = 1;
                while i < v.len()
                    invariant
                        1 <= i <= v@.len(),
                        val.den > 0,
                        sv_tseq(v@) == sv_tfold(
                            v@.subrange(i as int, v@.len() as int),
                            val.pair(),
                        ),
                    decreases v@.len() - i,
                {
                    let ghost suffix = v@.subrange(i as int, v@.len() as int);
                    let op_is_mul: bool;
                    match &v[i] {
                        TElement::Asterisk => {
                            op_is_mul = true;
                        },
                        TElement::Slash => {
                            op_is_mul = false;
                        },
                        TElement::F(_) => {
                            return Err(EvalError::MalformedTree);
                        },
                    }
                    if i + 1 >= v.len() {
                        return Err(EvalError::MalformedTree);
                    }
                    match &v[i + 1] {
                        TElement::F(n) => {
                            let w = match n.eval() {
                                Ok(x) => x,
                                Err(e) => {
                                    return Err(e);
                                },
                            };
                            let nv = if op_is_mul {
                                rat_mul_exec(val, w)
                            } else {
                                if w.num == 0 {
                                    return Err(EvalError::DivisionByZero);
                                }
                                rat_div_exec(val, w)
                            };
                            match nv {
                                Some(x) => {
                                    val = x;
                                },
                                None => {
                                    return Err(EvalError::Overflow);
                                },
                            }
                            proof {
                                assert(suffix.subrange(2, suffix.len() as int) =~= v@.subrange(
                                    i + 2,
                                    v@.len() as int,
                                ));
                            }
                            i = i + 2;
                        },
                        _ => {
                            return Err(EvalError::MalformedTree);
                        },
                    }
                }
                proof {
                    assert(v@.subrange(i as int, v@.len() as int) =~= Seq::<TElement>::empty());
                }
                Ok(val)
            },
            ASTNode::F(node) => node.eval(),
            ASTNode::N(num) => {
                if *num <= 9223372036854775807u64 {
                    Ok(Rat { num: *num as i64, den: 1 })
                } else {
                    Err(EvalError::Overflow)
                }
            },
        }
    }
}

} // verus!
