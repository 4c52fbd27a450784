//! Trace rendering: a fully parenthesized textual form of the tree, for
//! example `(S (E (T (F (N 2))) + (T (F (N 3)) * (F (N 4)))))`. A debugging
//! aid only: it has no effect on evaluation.
use vstd::prelude::*;
use crate::ast::{ASTNode, EElement, TElement};

verus! {

/// The character of one decimal digit.
pub open spec fn digit_char(d: nat) -> char {
    if d == 0 {
        '0'
    } else if d == 1 {
        '1'
    } else if d == 2 {
        '2'
    } else if d == 3 {
        '3'
    } else if d == 4 {
        '4'
    } else if d == 5 {
        '5'
    } else if d == 6 {
        '6'
    } else if d == 7 {
        '7'
    } else if d == 8 {
        '8'
    } else {
        '9'
    }
}

/// The decimal digits of `n`, most significant first, no leading zeros.
pub open spec fn dec_str(n: nat) -> Seq<char>
    decreases n,
{
    if n < 10 {
        seq![digit_char(n)]
    } else {
        dec_str(n / 10).push(digit_char(n % 10))
    }
}

/// The rendering of a tree: each node prints its tag and its children inside
/// parentheses, each part of an expression or term preceded by one space.
pub open spec fn show_ast(a: ASTNode) -> Seq<char>
    decreases a,
{
    match a {
        ASTNode::S(e) => seq!['(', 'S', ' '] + show_ast(*e) + seq![')'],
        ASTNode::E(v) => seq!['(', 'E'] + show_eparts(v@) + seq![')'],
        ASTNode::T(v) => seq!['(', 'T'] + show_tparts(v@) + seq![')'],
        ASTNode::F(n) => seq!['(', 'F', ' '] + show_ast(*n) + seq![')'],
        ASTNode::N(n) => seq!['(', 'N', ' '] + dec_str(n as nat) + seq![')'],
    }
}

/// The rendering of an expression's parts, each preceded by one space.
pub open spec fn show_eparts(v: Seq<EElement>) -> Seq<char>
    decreases v,
{
    if v.len() == 0 {
        Seq::empty()
    } else {
        show_eparts(v.subrange(0, v.len() - 1)) + seq![' '] + show_epart(v[v.len() - 1])
    }
}

/// The rendering of one expression part.
pub open spec fn show_epart(p: EElement) -> Seq<char>
    decreases p,
{
    match p {
        EElement::Plus => seq!['+'],
        EElement::Minus => seq!['-'],
        EElement::T(n) => show_ast(*n),
    }
}

/// The rendering of a term's parts, each preceded by one space.
pub open spec fn show_tparts(v: Seq<TElement>) -> Seq<char>
    decreases v,
{
    if v.len() == 0 {
        Seq::empty()
    } else {
        show_tparts(v.subrange(0, v.len() - 1)) + seq![' '] + show_tpart(v[v.len() - 1])
    }
}

/// The rendering of one term part.
pub open spec fn show_tpart(p: TElement) -> Seq<char>
    decreases p,
{
    match p {
        TElement::Asterisk => seq!['*'],
        TElement::Slash => seq!['/'],
        TElement::F(n) => show_ast(*n),
    }
}

/// One decimal digit as a string.
fn digit_string(d: u64) -> (r: String)
    requires
        d < 10,
    ensures
        r@ == seq![digit_char(d as nat)],
{
    let r = if d == 0 {
        String::from_str("0")
    } else if d == 1 {
        String::from_str("1")
    } else if d == 2 {
        String::from_str("2")
    } else if d == 3 {
        String::from_str("3")
    } else if d == 4 {
        String::from_str("4")
    } else if d == 5 {
        String::from_str("5")
    } else if d == 6 {
        String::from_str("6")
    } else if d == 7 {
        String::from_str("7")
    } else if d == 8 {
        String::from_str("8")
    } else {
        String::from_str("9")
    };
    proof {
        reveal_strlit("0");
        reveal_strlit("1");
        reveal_strlit("2");
        reveal_strlit("3");
        reveal_strlit("4");
        reveal_strlit("5");
        reveal_strlit("6");
        reveal_strlit("7");
        reveal_strlit("8");
        reveal_strlit("9");
        assert(r@ =~= seq![digit_char(d as nat)]);
    }
    r
}

/// The decimal rendering of an unsigned integer.
fn u64_to_dec(n: u64) -> (r: String)
    ensures
        r@ == dec_str(n as nat),
    decreases n,
{
    if n < 10 {
        digit_string(n)
    } else {
        let mut s = u64_to_dec(n / 10);
        let last = digit_string(n % 10);
        s.append(last.as_str());
        proof {
            assert(s@ =~= dec_str((n / 10) as nat).push(digit_char((n % 10) as nat)));
        }
        s
    }
}

impl ASTNode {
    /// Renders the tree as its parenthesized trace, exactly `show_ast`.
    #[verifier::loop_isolation(false)]
    pub fn show(&self) -> (r: String)
        ensures
            r@ == show_ast(*self),
        decreases *self,
    {
        proof {
            reveal_strlit("(S ");
            reveal_strlit("(E");
            reveal_strlit("(T");
            reveal_strlit("(F ");
            reveal_strlit("(N ");
            reveal_strlit(")");
            reveal_strlit(" ");
            reveal_strlit("+");
            reveal_strlit("-");
            reveal_strlit("*");
            reveal_strlit("/");
        }
        match self {
            ASTNode::S(node) => {
                let mut s = String::from_str("(S ");
                let inner = node.show();
                s.append(inner.as_str());
                s.append(")");
                proof {
                    assert(s@ =~= show_ast(*self));
                }
                s
            },
            ASTNode::E(v) => {
                let mut s = String::from_str("(E");
                let mut i: usize = 0;
                proof {
                    assert(v@.subrange(0, 0) =~= Seq::<EElement>::empty());
                    assert(s@ =~= seq!['(', 'E'] + show_eparts(v@.subrange(0, 0)));
                }
                while i < v.len()
                    invariant
                        i <= v@.len(),
                        s@ == seq!['(', 'E'] + show_eparts(v@.subrange(0, i as int)),
                    decreases v@.len() - i,
                {
                    let ghost s0 = s@;
                    s.append(" ");
                    match &v[i] {
                        EElement::Plus => {
                            s.append("+");
                        },
                        EElement::Minus => {
                            s.append("-");
                        },
                        EElement::T(n) => {
                            let inner = n.show();
                            s.append(inner.as_str());
                            proof {
                                assert(show_epart(v@[i as int]) == show_ast(**n));
                            }
                        },
                    }
                    proof {
                        assert(s@ =~= s0 + seq![' '] + show_epart(v@[i as int]));
                        let pre = v@.subrange(0, i + 1);
                        assert(pre.subrange(0, pre.len() - 1) =~= v@.subrange(0, i as int));
                        assert(pre[pre.len() - 1] == v@[i as int]);
                        assert(show_eparts(pre) == show_eparts(v@.subrange(0, i as int)) + seq![' ']
                            + show_epart(v@[i as int]));
                        assert(s@ =~= seq!['(', 'E'] + show_eparts(pre));
                    }
                    i = i + 1;
                }
                s.append(")");
                proof {
                    assert(v@.subrange(0, v@.len() as int) =~= v@);
                    assert(s@ =~= show_ast(*self));
                }
                s
            },
            ASTNode::T(v) => {
                let mut s = String::from_str("(T");
                let mut i: usize = 0;
                proof {
                    assert(v@.subrange(0, 0) =~= Seq::<TElement>::empty());
                    assert(s@ =~= seq!['(', 'T'] + show_tparts(v@.subrange(0, 0)));
                }
                while i < v.len()
                    invariant
                        i <= v@.len(),
                        s@ == seq!['(', 'T'] + show_tparts(v@.subrange(0, i as int)),
                    decreases v@.len() - i,
                {
                    let ghost s0 = s@;
                    s.append(" ");
                    match &v[i] {
                        TElement::Asterisk => {
                            s.append("*");
                        },
                        TElement::Slash => {
                            s.append("/");
                        },
                        TElement::F(n) => {
                            let inner = n.show();
                            s.append(inner.as_str());
                            proof {
                                assert(show_tpart(v@[i as int]) == show_ast(**n));
                            }
                        },
                    }
                    proof {
                        assert(s@ =~= s0 + seq![' '] + show_tpart(v@[i as int]));
                        let pre = v@.subrange(0, i + 1);
                        assert(pre.subrange(0, pre.len() - 1) =~= v@.subrange(0, i as int));
                        assert(pre[pre.len() - 1] == v@[i as int]);
                        assert(show_tparts(pre) == show_tparts(v@.subrange(0, i as int)) + seq![' ']
                            + show_tpart(v@[i as int]));
                        assert(s@ =~= seq!['(', 'T'] + show_tparts(pre));
                    }
                    i = i + 1;
                }
                s.append(")");
                proof {
                    assert(v@.subrange(0, v@.len() as int) =~= v@);
                    assert(s@ =~= show_ast(*self));
                }
                s
            },
            ASTNode::F(node) => {
                let mut s = String::from_str("(F ");
                let inner = node.show();
                s.append(inner.as_str());
                s.append(")");
                proof {
                    assert(s@ =~= show_ast(*self));
                }
                s
            },
            ASTNode::N(num) => {
                let mut s = String::from_str("(N ");
                let digits = u64_to_dec(*num);
                s.append(digits.as_str());
                s.append(")");
                proof {
                    assert(s@ =~= show_ast(*self));
                }
                s
            },
        }
    }
}

} // verus!
