//! Recursive-descent parsing: one function per grammar level, each returning
//! the constructed subtree and the index of the next unconsumed token.
//!
//! Each level's contract has two halves. The spec parser `sp_*` fixes, for
//! every token sequence and start position, exactly which position parsing
//! advances to or which error it fails with. For the tree itself, the result
//! is well formed for its grammar level and flattens back to precisely the
//! tokens it consumed (`flat_ast`), which ties the tree to the input.
use vstd::prelude::*;
use crate::ast::{
    flat_ast, flat_eparts, flat_epart, flat_tparts, flat_tpart, wf_echain, wf_expr, wf_factor,
    wf_stmt, wf_tchain, wf_term, ASTNode, EElement, TElement,
};
use crate::token::{ParseError, Token};

verus! {

/// Where a number token at `pos` ends, or why it is missing.
pub open spec fn sp_number(t: Seq<Token>, pos: int) -> Result<int, ParseError> {
    if 0 <= pos < t.len() && t[pos] is Number {
        Ok(pos + 1)
    } else {
        Err(ParseError::ExpectedNumber)
    }
}

/// Where a factor starting at `pos` ends: one number token, or a
/// parenthesized expression that must be closed by `)`.
pub open spec fn sp_factor(t: Seq<Token>, pos: int) -> Result<int, ParseError>
    decreases t.len() - pos, 1int,
{
    if !(0 <= pos < t.len()) {
        Err(ParseError::ExpectedFactor)
    } else {
        match t[pos] {
            Token::Number(_) => sp_number(t, pos),
            Token::Openparen => match sp_expression(t, pos + 1) {
                Ok(p) => if 0 <= p < t.len() && t[p] is Closeparen {
                    Ok(p + 1)
                } else {
                    Err(ParseError::UnmatchedParen)
                },
                Err(e) => Err(e),
            },
            _ => Err(ParseError::ExpectedFactor),
        }
    }
}

/// Where a term starting at `pos` ends: a factor, then `(*|/) factor` pairs
/// as long as they continue.
pub open spec fn sp_term(t: Seq<Token>, pos: int) -> Result<int, ParseError>
    decreases t.len() - pos, 2int,
{
    match sp_factor(t, pos) {
        Ok(p) => if pos < p <= t.len() {
            sp_tloop(t, p)
        } else {
            // never taken: a factor that parses consumes at least one token
            // and stays within the input (lemma_sp_factor_advances)
            Err(ParseError::ExpectedFactor)
        },
        Err(e) => Err(e),
    }
}

/// Consumes `(*|/) factor` pairs from `pos` until the next token is neither
/// operator or the stream ends.
pub open spec fn sp_tloop(t: Seq<Token>, pos: int) -> Result<int, ParseError>
    decreases t.len() - pos, 1int,
{
    if !(0 <= pos < t.len()) {
        Ok(pos)
    } else if t[pos] is Asterisk || t[pos] is Slash {
        match sp_factor(t, pos + 1) {
            Ok(p) => if pos + 1 < p <= t.len() {
                sp_tloop(t, p)
            } else {
                // never taken (lemma_sp_factor_advances)
                Err(ParseError::ExpectedFactor)
            },
            Err(e) => Err(e),
        }
    } else {
        Ok(pos)
    }
}

/// Where an expression starting at `pos` ends: an optional leading sign,
/// a term, then `(+|-) term` pairs as long as they continue.
pub open spec fn sp_expression(t: Seq<Token>, pos: int) -> Result<int, ParseError>
    decreases t.len() - pos, 3int,
{
    let body = if 0 <= pos < t.len() && (t[pos] is Plus || t[pos] is Minus) {
        pos + 1
    } else {
        pos
    };
    match sp_term(t, body) {
        Ok(p) => if pos < p <= t.len() {
            sp_eloop(t, p)
        } else {
            // never taken: a term that parses consumes at least one token
            // and stays within the input (lemma_sp_term_advances)
            Err(ParseError::ExpectedFactor)
        },
        Err(e) => Err(e),
    }
}

/// Consumes `(+|-) term` pairs from `pos` until the next token is neither
/// operator or the stream ends.
pub open spec fn sp_eloop(t: Seq<Token>, pos: int) -> Result<int, ParseError>
    decreases t.len() - pos, 2int,
{
    if !(0 <= pos < t.len()) {
        Ok(pos)
    } else if t[pos] is Plus || t[pos] is Minus {
        match sp_term(t, pos + 1) {
            Ok(p) => if pos + 1 < p <= t.len() {
                sp_eloop(t, p)
            } else {
                // never taken (lemma_sp_term_advances)
                Err(ParseError::ExpectedFactor)
            },
            Err(e) => Err(e),
        }
    } else {
        Ok(pos)
    }
}

/// Where a statement starting at `pos` ends: an expression followed by `;`.
pub open spec fn sp_statement(t: Seq<Token>, pos: int) -> Result<int, ParseError>
    decreases t.len() - pos, 4int,
{
    match sp_expression(t, pos) {
        Ok(p) => if 0 <= p < t.len() && t[p] is Semicolon {
            Ok(p + 1)
        } else {
            Err(ParseError::ExpectedSemicolon)
        },
        Err(e) => Err(e),
    }
}

/// The whole parse: one statement that must consume every token.
pub open spec fn sp_parse(t: Seq<Token>) -> Result<int, ParseError> {
    match sp_statement(t, 0) {
        Ok(p) => if p == t.len() {
            Ok(p)
        } else {
            Err(ParseError::TrailingTokens)
        },
        Err(e) => Err(e),
    }
}

/// A factor that parses consumes at least one token and never passes the end
/// of the input, so the guarded recursion in `sp_term` and `sp_tloop` never
/// reaches its unreachable branch.
pub proof fn lemma_sp_factor_advances(t: Seq<Token>, pos: int)
    ensures
        sp_factor(t, pos) matches Ok(p) ==> pos < p <= t.len(),
    decreases t.len() - pos, 1int,
{
    if 0 <= pos < t.len() && t[pos] is Openparen {
        lemma_sp_expression_advances(t, pos + 1);
    }
}

/// A term that parses consumes at least one token and never passes the end
/// of the input.
pub proof fn lemma_sp_term_advances(t: Seq<Token>, pos: int)
    ensures
        sp_term(t, pos) matches Ok(p) ==> pos < p <= t.len(),
    decreases t.len() - pos, 2int,
{
    lemma_sp_factor_advances(t, pos);
    match sp_factor(t, pos) {
        Ok(p) => {
            if pos < p <= t.len() {
                lemma_sp_tloop_advances(t, p);
            }
        },
        Err(_) => {},
    }
}

/// The `(*|/) factor` loop never moves backwards nor past the end.
proof fn lemma_sp_tloop_advances(t: Seq<Token>, pos: int)
    requires
        0 <= pos <= t.len(),
    ensures
        sp_tloop(t, pos) matches Ok(p) ==> pos <= p <= t.len(),
    decreases t.len() - pos, 1int,
{
    if pos < t.len() && (t[pos] is Asterisk || t[pos] is Slash) {
        lemma_sp_factor_advances(t, pos + 1);
        match sp_factor(t, pos + 1) {
            Ok(p) => {
                if pos + 1 < p <= t.len() {
                    lemma_sp_tloop_advances(t, p);
                }
            },
            Err(_) => {},
        }
    }
}

/// An expression that parses consumes at least one token and never passes the
/// end of the input.
pub proof fn lemma_sp_expression_advances(t: Seq<Token>, pos: int)
    ensures
        sp_expression(t, pos) matches Ok(p) ==> pos < p <= t.len(),
    decreases t.len() - pos, 3int,
{
    let body = if 0 <= pos < t.len() && (t[pos] is Plus || t[pos] is Minus) {
        pos + 1
    } else {
        pos
    };
    lemma_sp_term_advances(t, body);
    match sp_term(t, body) {
        Ok(p) => {
            if pos < p <= t.len() {
                lemma_sp_eloop_advances(t, p);
            }
        },
        Err(_) => {},
    }
}

/// The `(+|-) term` loop never moves backwards nor past the end.
proof fn lemma_sp_eloop_advances(t: Seq<Token>, pos: int)
    requires
        0 <= pos <= t.len(),
    ensures
        sp_eloop(t, pos) matches Ok(p) ==> pos <= p <= t.len(),
    decreases t.len() - pos, 2int,
{
    if pos < t.len() && (t[pos] is Plus || t[pos] is Minus) {
        lemma_sp_term_advances(t, pos + 1);
        match sp_term(t, pos + 1) {
            Ok(p) => {
                if pos + 1 < p <= t.len() {
                    lemma_sp_eloop_advances(t, p);
                }
            },
            Err(_) => {},
        }
    }
}

/// Reads the number token at `pos` into a leaf node.
pub fn read_number(tokens: &Vec<Token>, pos: usize) -> (r: Result<
    (Box<ASTNode>, usize),
    ParseError,
>)
    ensures
        match r {
            Ok((node, npos)) => {
                &&& sp_number(tokens@, pos as int) == Ok::<int, ParseError>(npos as int)
                &&& npos == pos + 1 && pos < tokens@.len()
                &&& *node == ASTNode::N(tokens@[pos as int]->Number_0)
            },
            Err(e) => sp_number(tokens@, pos as int) == Err::<int, ParseError>(e),
        },
{
    if pos >= tokens.len() {
        return Err(ParseError::ExpectedNumber);
    }
    match tokens[pos] {
        Token::Number(num) => Ok((Box::new(ASTNode::N(num)), pos + 1)),
        _ => Err(ParseError::ExpectedNumber),
    }
}

/// Reads one factor at `pos`: a number, or a parenthesized expression.
pub fn read_factor(tokens: &Vec<Token>, pos: usize) -> (r: Result<
    (Box<ASTNode>, usize),
    ParseError,
>)
    ensures
        match r {
            Ok((node, npos)) => {
                &&& sp_factor(tokens@, pos as int) == Ok::<int, ParseError>(npos as int)
                &&& pos < npos <= tokens@.len()
                &&& wf_factor(*node)
                &&& flat_ast(*node) == tokens@.subrange(pos as int, npos as int)
            },
            Err(e) => sp_factor(tokens@, pos as int) == Err::<int, ParseError>(e),
        },
    decreases tokens@.len() - pos, 1int,
{
    if pos >= tokens.len() {
        return Err(ParseError::ExpectedFactor);
    }
    match tokens[pos] {
        Token::Number(_) => {
            match read_number(tokens, pos) {
                Ok((node, npos)) => {
                    let r = Box::new(ASTNode::F(node));
                    proof {
                        assert(flat_ast(*r) =~= tokens@.subrange(pos as int, npos as int));
                    }
                    Ok((r, npos))
                },
                Err(e) => Err(e),
            }
        },
        Token::Openparen => {
            match read_expression(tokens, pos + 1) {
                Ok((node, npos)) => {
                    if npos < tokens.len() {
                        match tokens[npos] {
                            Token::Closeparen => {
                                let r = Box::new(ASTNode::F(node));
                                proof {
                                    assert(flat_ast(*r) =~= tokens@.subrange(
                                        pos as int,
                                        npos + 1 as int,
                                    ));
                                }
                                Ok((r, npos + 1))
                            },
                            _ => Err(ParseError::UnmatchedParen),
                        }
                    } else {
                        Err(ParseError::UnmatchedParen)
                    }
                },
                Err(e) => Err(e),
            }
        },
        _ => Err(ParseError::ExpectedFactor),
    }
}

/// Reads one term at `pos`: a factor, then `(*|/) factor` pairs.
pub fn read_term(tokens: &Vec<Token>, pos: usize) -> (r: Result<
    (Box<ASTNode>, usize),
    ParseError,
>)
    ensures
        match r {
            Ok((node, npos)) => {
                &&& sp_term(tokens@, pos as int) == Ok::<int, ParseError>(npos as int)
                &&& pos < npos <= tokens@.len()
                &&& wf_term(*node)
                &&& flat_ast(*node) == tokens@.subrange(pos as int, npos as int)
            },
            Err(e) => sp_term(tokens@, pos as int) == Err::<int, ParseError>(e),
        },
    decreases tokens@.len() - pos, 2int,
{
    let mut vec: Vec<TElement> = Vec::new();
    let mut cur: usize;
    match read_factor(tokens, pos) {
        Ok((node, npos)) => {
            let ghost gn = *node;
            vec.push(TElement::F(node));
            cur = npos;
            proof {
                assert(vec@.len() == 1);
                assert(vec@[0] == TElement::F(Box::new(gn)));
                assert(flat_tpart(vec@[0]) == flat_ast(gn));
                assert(flat_ast(gn) == tokens@.subrange(pos as int, cur as int));
            }
        },
        Err(e) => {
            return Err(e);
        },
    }
    proof {
        assert(vec@.subrange(0, vec@.len() - 1) =~= Seq::<TElement>::empty());
        assert(flat_tparts(Seq::<TElement>::empty()) == Seq::<Token>::empty());
        assert(flat_tparts(vec@) =~= tokens@.subrange(pos as int, cur as int));
    }
    loop
        invariant_except_break
            pos < cur <= tokens@.len(),
            wf_tchain(vec@),
            flat_tparts(vec@) == tokens@.subrange(pos as int, cur as int),
            sp_term(tokens@, pos as int) == sp_tloop(tokens@, cur as int),
        ensures
            pos < cur <= tokens@.len(),
            wf_tchain(vec@),
            flat_tparts(vec@) == tokens@.subrange(pos as int, cur as int),
            sp_term(tokens@, pos as int) == Ok::<int, ParseError>(cur as int),
        decreases tokens@.len() - cur,
    {
        if cur >= tokens.len() {
            break;
        }
        let op: TElement;
        match tokens[cur] {
            Token::Asterisk => {
                op = TElement::Asterisk;
            },
            Token::Slash => {
                op = TElement::Slash;
            },
            _ => {
                break;
            },
        }
        let ghost prev = vec@;
        vec.push(op);
        match read_factor(tokens, cur + 1) {
            Ok((node, npos)) => {
                let ghost gn = *node;
                vec.push(TElement::F(node));
                proof {
                    let x = vec@.subrange(0, vec@.len() - 1);
                    assert(x.subrange(0, x.len() - 1) =~= prev);
                    assert(x[x.len() - 1] == op);
                    assert(flat_tparts(x) == flat_tparts(prev) + flat_tpart(op));
                    assert(vec@.subrange(0, vec@.len() - 2) =~= prev);
                    assert(vec@[vec@.len() - 1] == TElement::F(Box::new(gn)));
                    assert(flat_tpart(vec@[vec@.len() - 1]) == flat_ast(gn));
                    assert(flat_ast(gn) == tokens@.subrange(cur as int + 1, npos as int));
                    assert(flat_tpart(op) =~= tokens@.subrange(cur as int, cur as int + 1));
                    assert(flat_tparts(vec@) =~= tokens@.subrange(pos as int, npos as int));
                }
                cur = npos;
            },
            Err(e) => {
                return Err(e);
            },
        }
    }
    Ok((Box::new(ASTNode::T(vec)), cur))
}

/// Reads one expression at `pos`: an optional leading sign, a term, then
/// `(+|-) term` pairs.
pub fn read_expression(tokens: &Vec<Token>, pos: usize) -> (r: Result<
    (Box<ASTNode>, usize),
    ParseError,
>)
    ensures
        match r {
            Ok((node, npos)) => {
                &&& sp_expression(tokens@, pos as int) == Ok::<int, ParseError>(npos as int)
                &&& pos < npos <= tokens@.len()
                &&& wf_expr(*node)
                &&& flat_ast(*node) == tokens@.subrange(pos as int, npos as int)
            },
            Err(e) => sp_expression(tokens@, pos as int) == Err::<int, ParseError>(e),
        },
    decreases tokens@.len() - pos, 3int,
{
    let mut vec: Vec<EElement> = Vec::new();
    let mut cur: usize = pos;
    if cur < tokens.len() {
        match tokens[cur] {
            Token::Plus => {
                vec.push(EElement::Plus);
                cur = cur + 1;
            },
            Token::Minus => {
                vec.push(EElement::Minus);
                cur = cur + 1;
            },
            _ => {},
        }
    }
    let ghost sign = vec@;
    let ghost body = cur as int;
    match read_term(tokens, cur) {
        Ok((node, npos)) => {
            let ghost gn = *node;
            vec.push(EElement::T(node));
            cur = npos;
            proof {
                assert(vec@[vec@.len() - 1] == EElement::T(Box::new(gn)));
                assert(flat_epart(vec@[vec@.len() - 1]) == flat_ast(gn));
                assert(flat_ast(gn) == tokens@.subrange(body, cur as int));
            }
        },
        Err(e) => {
            return Err(e);
        },
    }
    proof {
        let chain = vec@.subrange(sign.len() as int, vec@.len() as int);
        assert(chain.len() == 1 && chain[0] == vec@[vec@.len() - 1]);
        assert(wf_echain(chain));
        assert(vec@.subrange(0, vec@.len() - 1) =~= sign);
        assert(flat_eparts(Seq::<EElement>::empty()) == Seq::<Token>::empty());
        if sign.len() == 1 {
            assert(sign.subrange(0, sign.len() - 1) =~= Seq::<EElement>::empty());
            assert(flat_epart(sign[0]) =~= tokens@.subrange(pos as int, pos as int + 1));
        }
        assert(flat_eparts(sign) =~= tokens@.subrange(pos as int, body));
        assert(flat_eparts(vec@) =~= tokens@.subrange(pos as int, cur as int));
    }
    loop
        invariant_except_break
            pos < cur <= tokens@.len(),
            vec@.len() > sign.len(),
            vec@.subrange(0, sign.len() as int) == sign,
            sign.len() == 0 ==> vec@[0] matches EElement::T(_),
            wf_echain(vec@.subrange(sign.len() as int, vec@.len() as int)),
            flat_eparts(vec@) == tokens@.subrange(pos as int, cur as int),
            sp_expression(tokens@, pos as int) == sp_eloop(tokens@, cur as int),
        ensures
            pos < cur <= tokens@.len(),
            vec@.len() > sign.len(),
            vec@.subrange(0, sign.len() as int) == sign,
            sign.len() == 0 ==> vec@[0] matches EElement::T(_),
            wf_echain(vec@.subrange(sign.len() as int, vec@.len() as int)),
            flat_eparts(vec@) == tokens@.subrange(pos as int, cur as int),
            sp_expression(tokens@, pos as int) == Ok::<int, ParseError>(cur as int),
        decreases tokens@.len() - cur,
    {
        if cur >= tokens.len() {
            break;
        }
        let op: EElement;
        match tokens[cur] {
            Token::Plus => {
                op = EElement::Plus;
            },
            Token::Minus => {
                op = EElement::Minus;
            },
            _ => {
                break;
            },
        }
        let ghost prev = vec@;
        vec.push(op);
        match read_term(tokens, cur + 1) {
            Ok((node, npos)) => {
                let ghost gn = *node;
                vec.push(EElement::T(node));
                proof {
                    let x = vec@.subrange(0, vec@.len() - 1);
                    assert(x.subrange(0, x.len() - 1) =~= prev);
                    assert(x[x.len() - 1] == op);
                    assert(flat_eparts(x) == flat_eparts(prev) + flat_epart(op));
                    assert(vec@.subrange(0, sign.len() as int) =~= sign);
                    let chain = vec@.subrange(sign.len() as int, vec@.len() as int);
                    assert(chain.len() >= 3);
                    assert(chain.subrange(0, chain.len() - 2) =~= prev.subrange(
                        sign.len() as int,
                        prev.len() as int,
                    ));
                    assert(chain[chain.len() - 1] == vec@[vec@.len() - 1]);
                    assert(chain[chain.len() - 2] == op);
                    assert(wf_echain(chain));
                    assert(vec@[vec@.len() - 1] == EElement::T(Box::new(gn)));
                    assert(flat_epart(vec@[vec@.len() - 1]) == flat_ast(gn));
                    assert(flat_ast(gn) == tokens@.subrange(cur as int + 1, npos as int));
                    assert(flat_epart(op) =~= tokens@.subrange(cur as int, cur as int + 1));
                    assert(flat_eparts(vec@) =~= tokens@.subrange(pos as int, npos as int));
                }
                cur = npos;
            },
            Err(e) => {
                return Err(e);
            },
        }
    }
    let r = Box::new(ASTNode::E(vec));
    proof {
        if sign.len() == 0 {
            assert(vec@.subrange(0, vec@.len() as int) =~= vec@);
        } else {
            assert(vec@[0] == sign[0]);
            assert(vec@[0] is Plus || vec@[0] is Minus);
        }
        assert(wf_expr(*r));
    }
    Ok((r, cur))
}

/// Reads the whole statement at `pos`: an expression followed by `;`.
pub fn read_statement(tokens: &Vec<Token>, pos: usize) -> (r: Result<
    (Box<ASTNode>, usize),
    ParseError,
>)
    ensures
        match r {
            Ok((node, npos)) => {
                &&& sp_statement(tokens@, pos as int) == Ok::<int, ParseError>(npos as int)
                &&& pos < npos <= tokens@.len()
                &&& wf_stmt(*node)
                &&& flat_ast(*node) == tokens@.subrange(pos as int, npos as int)
            },
            Err(e) => sp_statement(tokens@, pos as int) == Err::<int, ParseError>(e),
        },
{
    match read_expression(tokens, pos) {
        Ok((node, npos)) => {
            if npos < tokens.len() {
                match tokens[npos] {
                    Token::Semicolon => {
                        let r = Box::new(ASTNode::S(node));
                        proof {
                            assert(flat_ast(*r) =~= tokens@.subrange(pos as int, npos + 1 as int));
                        }
                        Ok((r, npos + 1))
                    },
                    _ => Err(ParseError::ExpectedSemicolon),
                }
            } else {
                Err(ParseError::ExpectedSemicolon)
            }
        },
        Err(e) => Err(e),
    }
}

/// Parses a whole token sequence into its statement tree. Fails if the tokens
/// do not form exactly one statement: the returned tree is well formed and
/// flattens back to the entire input.
pub fn parser(tokens: &Vec<Token>) -> (r: Result<Box<ASTNode>, ParseError>)
    ensures
        match r {
            Ok(node) => {
                &&& sp_parse(tokens@) == Ok::<int, ParseError>(tokens@.len() as int)
                &&& wf_stmt(*node)
                &&& flat_ast(*node) == tokens@
            },
            Err(e) => sp_parse(tokens@) == Err::<int, ParseError>(e),
        },
{
    match read_statement(tokens, 0) {
        Ok((node, npos)) => {
            if npos == tokens.len() {
                proof {
                    assert(flat_ast(*node) =~= tokens@);
                }
                Ok(node)
            } else {
                Err(ParseError::TrailingTokens)
            }
        },
        Err(e) => Err(e),
    }
}

} // verus!
