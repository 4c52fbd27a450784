//! Lexical analysis: one line of text becomes a token sequence.
//!
//! The input is trimmed of leading and trailing ASCII whitespace; inside the
//! trimmed body every byte must be a single-character token or part of a
//! decimal digit run, else lexing fails.
use vstd::prelude::*;
use vstd::string::StringSliceAdditionalSpecFns;
use crate::token::{LexError, Token};

verus! {

/// ASCII whitespace: the bytes `str::trim` removes from ASCII text.
pub open spec fn is_ws(c: u8) -> bool {
    c == 32 || (9 <= c && c <= 13)
}

/// An ASCII decimal digit.
pub open spec fn is_digit_byte(c: u8) -> bool {
    48 <= c && c <= 57
}

/// Index of the first byte from `i` on that is not whitespace.
pub open spec fn first_non_ws(b: Seq<u8>, i: int) -> int
    decreases b.len() - i,
{
    if 0 <= i < b.len() && is_ws(b[i]) {
        first_non_ws(b, i + 1)
    } else {
        i
    }
}

/// Index just past the last byte before `j` that is not whitespace.
pub open spec fn last_ws_cut(b: Seq<u8>, j: int) -> int
    decreases j,
{
    if 0 < j <= b.len() && is_ws(b[j - 1]) {
        last_ws_cut(b, j - 1)
    } else {
        j
    }
}

/// The input with leading and trailing whitespace removed.
pub open spec fn trim_bytes(b: Seq<u8>) -> Seq<u8> {
    let s = first_non_ws(b, 0);
    let e = last_ws_cut(b, b.len() as int);
    if s <= e {
        b.subrange(s, e)
    } else {
        Seq::empty()
    }
}

/// Length of the maximal digit run starting at `i`.
pub open spec fn digit_run_len(b: Seq<u8>, i: int) -> nat
    decreases b.len() - i,
{
    if 0 <= i < b.len() && is_digit_byte(b[i]) {
        1 + digit_run_len(b, i + 1)
    } else {
        0
    }
}

/// The value of a digit run, most significant digit first.
pub open spec fn digits_val(d: Seq<u8>) -> nat
    decreases d,
{
    if d.len() == 0 {
        0
    } else {
        let last = d[d.len() - 1];
        digits_val(d.subrange(0, d.len() - 1)) * 10 + (if is_digit_byte(last) {
            (last - 48) as nat
        } else {
            0
        })
    }
}

/// Prepends already-produced tokens to the outcome of lexing the rest.
pub open spec fn lex_prepend(pre: Seq<Token>, r: Result<Seq<Token>, LexError>) -> Result<
    Seq<Token>,
    LexError,
> {
    match r {
        Ok(s) => Ok(pre + s),
        Err(e) => Err(e),
    }
}

/// The tokens of the trimmed input from position `i` on: each single-character
/// token maps directly, a maximal digit run becomes one `Number` (or fails
/// with `Overflow` past `u64::MAX`), and any other byte fails with
/// `UnexpectedCharacter` carrying the byte and its offset.
pub open spec fn lex_bytes(b: Seq<u8>, i: int) -> Result<Seq<Token>, LexError>
    decreases b.len() - i,
{
    if !(0 <= i < b.len()) {
        Ok(Seq::empty())
    } else {
        let c = b[i];
        if c == 43 {
            lex_prepend(seq![Token::Plus], lex_bytes(b, i + 1))
        } else if c == 45 {
            lex_prepend(seq![Token::Minus], lex_bytes(b, i + 1))
        } else if c == 42 {
            lex_prepend(seq![Token::Asterisk], lex_bytes(b, i + 1))
        } else if c == 47 {
            lex_prepend(seq![Token::Slash], lex_bytes(b, i + 1))
        } else if c == 59 {
            lex_prepend(seq![Token::Semicolon], lex_bytes(b, i + 1))
        } else if c == 40 {
            lex_prepend(seq![Token::Openparen], lex_bytes(b, i + 1))
        } else if c == 41 {
            lex_prepend(seq![Token::Closeparen], lex_bytes(b, i + 1))
        } else if is_digit_byte(c) {
            // the run never passes the end of the input (lemma_digit_run_len);
            // the bound keeps the recursion's measure in range
            let end = if i + digit_run_len(b, i) <= b.len() {
                i + digit_run_len(b, i)
            } else {
                b.len() as int
            };
            let v = digits_val(b.subrange(i, end));
            if v > u64::MAX {
                Err(LexError::Overflow)
            } else {
                lex_prepend(seq![Token::Number(v as u64)], lex_bytes(b, end))
            }
        } else {
            Err(LexError::UnexpectedCharacter(c, i as usize))
        }
    }
}

/// What `lexer` computes: the tokens of the trimmed input.
pub open spec fn spec_lexer(b: Seq<u8>) -> Result<Seq<Token>, LexError> {
    lex_bytes(trim_bytes(b), 0)
}

/// Runtime test for ASCII whitespace.
fn is_ws_byte(c: u8) -> (r: bool)
    ensures
        r == is_ws(c),
{
    c == 32 || (9 <= c && c <= 13)
}

/// Runtime test for an ASCII decimal digit.
fn is_digit(c: u8) -> (r: bool)
    ensures
        r == is_digit_byte(c),
{
    48 <= c && c <= 57
}

/// Prepending no tokens changes nothing.
proof fn lemma_prepend_empty(r: Result<Seq<Token>, LexError>)
    ensures
        lex_prepend(Seq::empty(), r) == r,
{
    match r {
        Ok(s) => {
            assert(Seq::<Token>::empty() + s =~= s);
        },
        Err(_) => {},
    }
}

/// Produced tokens can be moved one at a time into the prefix.
proof fn lemma_prepend_shift(pre: Seq<Token>, tok: Token, r: Result<Seq<Token>, LexError>)
    ensures
        lex_prepend(pre.push(tok), r) == lex_prepend(pre, lex_prepend(seq![tok], r)),
{
    match r {
        Ok(s) => {
            assert(pre.push(tok) + s =~= pre + (seq![tok] + s));
        },
        Err(_) => {},
    }
}

/// The whitespace cut never moves right.
proof fn lemma_last_ws_cut_le(b: Seq<u8>, j: int)
    requires
        0 <= j <= b.len(),
    ensures
        last_ws_cut(b, j) <= j,
    decreases j,
{
    if 0 < j && is_ws(b[j - 1]) {
        lemma_last_ws_cut_le(b, j - 1);
    }
}

/// The maximal digit run starting at `i` ends exactly at `j` when all bytes
/// in `[i, j)` are digits and `j` sits at the end or before a non-digit.
proof fn lemma_digit_run_len(b: Seq<u8>, i: int, j: int)
    requires
        0 <= i <= j <= b.len(),
        forall|k: int| i <= k < j ==> is_digit_byte(#[trigger] b[k]),
        j == b.len() || !is_digit_byte(b[j]),
    ensures
        digit_run_len(b, i) == j - i,
    decreases j - i,
{
    if i < j {
        lemma_digit_run_len(b, i + 1, j);
    }
}

/// Growing a digit run never shrinks its value.
proof fn lemma_digits_val_monotonic(d: Seq<u8>, n: int)
    requires
        0 <= n <= d.len(),
    ensures
        digits_val(d.subrange(0, n)) <= digits_val(d),
    decreases d.len() - n,
{
    if n < d.len() {
        lemma_digits_val_monotonic(d.subrange(0, d.len() - 1), n);
        assert(d.subrange(0, d.len() - 1).subrange(0, n) =~= d.subrange(0, n));
    } else {
        assert(d.subrange(0, n) =~= d);
    }
}

/// For every non-empty run of decimal digits whose value fits in `u64`,
/// followed by `;` and nothing else, lexing trims nothing and yields exactly
/// the number token and the semicolon.
pub proof fn lemma_digits_statement(d: Seq<u8>)
    requires
        d.len() >= 1,
        forall|k: int| 0 <= k < d.len() ==> is_digit_byte(#[trigger] d[k]),
        digits_val(d) <= u64::MAX,
    ensures
        trim_bytes(d.push(59)) == d.push(59),
        spec_lexer(d.push(59)) == Ok::<Seq<Token>, LexError>(
            seq![Token::Number(digits_val(d) as u64), Token::Semicolon],
        ),
{
    let s = d.push(59u8);
    assert(s[0] == d[0]);
    assert(forall|k: int| 0 <= k < d.len() ==> s[k] == #[trigger] d[k]);
    assert(first_non_ws(s, 0) == 0);
    assert(last_ws_cut(s, s.len() as int) == s.len() as int);
    assert(trim_bytes(s) =~= s);
    lemma_digit_run_len(s, 0, d.len() as int);
    assert(s.subrange(0, d.len() as int) =~= d);
    assert(lex_bytes(s, s.len() as int) == Ok::<Seq<Token>, LexError>(Seq::empty()));
    assert(lex_bytes(s, d.len() as int) == Ok::<Seq<Token>, LexError>(seq![Token::Semicolon]))
        by {
        assert(s[d.len() as int] == 59);
        assert(seq![Token::Semicolon] + Seq::<Token>::empty() =~= seq![Token::Semicolon]);
    };
    assert(lex_bytes(s, 0) == Ok::<Seq<Token>, LexError>(
        seq![Token::Number(digits_val(d) as u64), Token::Semicolon],
    )) by {
        assert(seq![Token::Number(digits_val(d) as u64)] + seq![Token::Semicolon]
            =~= seq![Token::Number(digits_val(d) as u64), Token::Semicolon]);
    };
}

/// Converts one line of text to its token sequence, or fails on the first
/// unrecognized byte or oversized digit run. Pure: the result is a function
/// of the characters alone.
#[verifier::loop_isolation(false)]
pub fn lexer(s: &str) -> (r: Result<Vec<Token>, LexError>)
    ensures
        match r {
            Ok(v) => spec_lexer(s.spec_bytes()) == Ok::<Seq<Token>, LexError>(v@),
            Err(e) => spec_lexer(s.spec_bytes()) == Err::<Seq<Token>, LexError>(e),
        },
{
    let bytes = s.as_bytes();
    let ghost b = bytes@;
    let mut start: usize = 0;
    while start < bytes.len() && is_ws_byte(bytes[start])
        invariant
            0 <= start <= b.len(),
            bytes@ == b,
            first_non_ws(b, 0) == first_non_ws(b, start as int),
            forall|k: int| 0 <= k < start ==> is_ws(#[trigger] b[k]),
        decreases b.len() - start,
    {
        start = start + 1;
    }
    assert(first_non_ws(b, 0) == start as int);
    let mut end: usize = bytes.len();
    while end > start && is_ws_byte(bytes[end - 1])
        invariant
            start <= end <= b.len(),
            bytes@ == b,
            start as int == first_non_ws(b, 0),
            last_ws_cut(b, b.len() as int) == last_ws_cut(b, end as int),
            forall|k: int| end <= k < b.len() ==> is_ws(#[trigger] b[k]),
        decreases end,
    {
        end = end - 1;
    }
    let ghost t = trim_bytes(b);
    proof {
        if start < end {
            // the byte before `end` is not whitespace, so the cut stops here
            assert(last_ws_cut(b, end as int) == end as int);
            assert(t =~= b.subrange(start as int, end as int));
        } else {
            // the whole input is whitespace: the trimmed body is empty
            assert(start == end);
            if 0 < b.len() {
                assert(is_ws(b[b.len() - 1]));
                lemma_last_ws_cut_le(b, b.len() - 1);
            }
            assert(t =~= Seq::<u8>::empty());
        }
    }

    let mut toks: Vec<Token> = Vec::new();
    let mut i: usize = start;
    proof {
        lemma_prepend_empty(lex_bytes(t, 0));
    }
    while i < end
        invariant
            start <= i <= end <= b.len(),
            bytes@ == b,
            t == b.subrange(start as int, end as int) || (start == end && t
                =~= Seq::<u8>::empty()),
            t.len() == end - start,
            forall|k: int| 0 <= k < t.len() ==> t[k] == b[start + k],
            lex_bytes(t, 0) == lex_prepend(toks@, lex_bytes(t, i - start)),
        decreases end - i,
    {
        let ghost p: int = i - start;
        let ghost prev = toks@;
        let c = bytes[i];
        assert(t[p] == c);
        let tok: Token;
        let next: usize;
        if c == 43 {
            tok = Token::Plus;
            next = i + 1;
        } else if c == 45 {
            tok = Token::Minus;
            next = i + 1;
        } else if c == 42 {
            tok = Token::Asterisk;
            next = i + 1;
        } else if c == 47 {
            tok = Token::Slash;
            next = i + 1;
        } else if c == 59 {
            tok = Token::Semicolon;
            next = i + 1;
        } else if c == 40 {
            tok = Token::Openparen;
            next = i + 1;
        } else if c == 41 {
            tok = Token::Closeparen;
            next = i + 1;
        } else if 48 <= c && c <= 57 {
            let mut j: usize = i;
            let mut val: u64 = 0;
            let mut over = false;
            while j < end && is_digit(bytes[j])
                invariant
                    start <= i <= j <= end <= b.len(),
                    bytes@ == b,
                    t.len() == end - start,
                    forall|k: int| 0 <= k < t.len() ==> t[k] == b[start + k],
                    forall|k: int| i - start <= k < j - start ==> is_digit_byte(#[trigger] t[k]),
                    !over ==> val == digits_val(t.subrange(i - start, j - start)),
                    over ==> digits_val(t.subrange(i - start, j - start)) > u64::MAX,
                decreases end - j,
            {
                let d = bytes[j];
                assert(t[j - start] == d);
                proof {
                    assert(t.subrange(i - start, j + 1 - start).subrange(0, j - i) =~= t.subrange(
                        i - start,
                        j - start,
                    ));
                }
                if !over {
                    match val.checked_mul(10) {
                        Some(v10) => match v10.checked_add((d - 48) as u64) {
                            Some(v) => {
                                val = v;
                            },
                            None => {
                                over = true;
                            },
                        },
                        None => {
                            over = true;
                        },
                    }
                }
                j = j + 1;
            }
            proof {
                lemma_digit_run_len(t, p, j - start);
                if over {
                    lemma_digits_val_monotonic(
                        t.subrange(p, p + digit_run_len(t, p)),
                        j - i,
                    );
                    assert(t.subrange(p, p + digit_run_len(t, p)).subrange(0, j - i) =~= t.subrange(
                        i - start,
                        j - start,
                    ));
                }
            }
            if over {
                assert(lex_bytes(t, p) == Err::<Seq<Token>, LexError>(LexError::Overflow));
                return Err(LexError::Overflow);
            }
            tok = Token::Number(val);
            next = j;
        } else {
            assert(lex_bytes(t, p) == Err::<Seq<Token>, LexError>(
                LexError::UnexpectedCharacter(c, p as usize),
            ));
            return Err(LexError::UnexpectedCharacter(c, i - start));
        }
        toks.push(tok);
        i = next;
        proof {
            assert(lex_bytes(t, p) == lex_prepend(seq![tok], lex_bytes(t, i - start)));
            lemma_prepend_shift(prev, tok, lex_bytes(t, i - start));
            assert(toks@ == prev.push(tok));
        }
    }
    proof {
        assert(lex_bytes(t, (i - start) as int) == Ok::<Seq<Token>, LexError>(Seq::empty()));
        assert(toks@ + Seq::<Token>::empty() =~= toks@);
    }
    Ok(toks)
}

} // verus!
