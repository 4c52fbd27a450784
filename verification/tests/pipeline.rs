use exprcalc::{lexer, parser, ASTNode, EvalError, LexError, ParseError, Rat, Token};

fn eval_str(s: &str) -> Result<Rat, EvalError> {
    let tokens = lexer(s).expect("lexing failed");
    let ast = parser(&tokens).expect("parsing failed");
    ast.eval()
}

fn eval_f64(s: &str) -> f64 {
    let r = eval_str(s).expect("evaluation failed");
    assert!(r.den > 0);
    r.num as f64 / r.den as f64
}

#[test]
fn digit_statement_tokenizes_to_number_and_semicolon() {
    assert_eq!(
        lexer("5;").unwrap(),
        vec![Token::Number(5), Token::Semicolon]
    );
    assert_eq!(
        lexer("123;").unwrap(),
        vec![Token::Number(123), Token::Semicolon]
    );
    assert_eq!(
        lexer("007;").unwrap(),
        vec![Token::Number(7), Token::Semicolon]
    );
}

#[test]
fn precedence_multiplication_binds_tighter() {
    assert_eq!(eval_f64("2+3*4;"), 14.0);
    assert_eq!(eval_f64("(2+3)*4;"), 20.0);
}

#[test]
fn subtraction_is_left_associative() {
    assert_eq!(eval_f64("10-2-3;"), 5.0);
}

#[test]
fn division_is_left_associative() {
    assert_eq!(eval_f64("8/4/2;"), 1.0);
}

#[test]
fn evaluate_twice_gives_the_same_value() {
    let tokens = lexer("2+3*4;").unwrap();
    let ast = parser(&tokens).unwrap();
    let first = ast.eval().unwrap();
    let second = ast.eval().unwrap();
    assert_eq!(first, second);
}

#[test]
fn unexpected_character_fails_lexing() {
    assert_eq!(
        lexer("2+#;"),
        Err(LexError::UnexpectedCharacter(b'#', 2))
    );
}

#[test]
fn missing_right_hand_term_fails_parsing() {
    let tokens = lexer("2+;").unwrap();
    assert_eq!(parser(&tokens).unwrap_err(), ParseError::ExpectedFactor);
}

#[test]
fn unclosed_parenthesis_fails_parsing() {
    let tokens = lexer("(2+3;").unwrap();
    assert_eq!(parser(&tokens).unwrap_err(), ParseError::UnmatchedParen);
}

#[test]
fn missing_semicolon_fails_parsing() {
    let tokens = lexer("5").unwrap();
    assert_eq!(parser(&tokens).unwrap_err(), ParseError::ExpectedSemicolon);
}

#[test]
fn trailing_tokens_fail_parsing() {
    let tokens = lexer("5;5").unwrap();
    assert_eq!(parser(&tokens).unwrap_err(), ParseError::TrailingTokens);
}

#[test]
fn bare_number_statement_has_minimal_depth() {
    let tokens = lexer("5;").unwrap();
    let ast = parser(&tokens).unwrap();
    match *ast {
        ASTNode::S(expr) => match *expr {
            ASTNode::E(eparts) => {
                assert_eq!(eparts.len(), 1);
                match &eparts[0] {
                    exprcalc::EElement::T(term) => match &**term {
                        ASTNode::T(tparts) => {
                            assert_eq!(tparts.len(), 1);
                            match &tparts[0] {
                                exprcalc::TElement::F(factor) => match &**factor {
                                    ASTNode::F(inner) => match &**inner {
                                        ASTNode::N(n) => assert_eq!(*n, 5),
                                        other => panic!("expected a number, got {:?}", other),
                                    },
                                    other => panic!("expected a factor, got {:?}", other),
                                },
                                other => panic!("expected a factor part, got {:?}", other),
                            }
                        },
                        other => panic!("expected a term, got {:?}", other),
                    },
                    other => panic!("expected a term part, got {:?}", other),
                }
            },
            other => panic!("expected an expression, got {:?}", other),
        },
        other => panic!("expected a statement, got {:?}", other),
    }
    assert_eq!(eval_f64("5;"), 5.0);
}

#[test]
fn division_by_zero_is_reported() {
    assert_eq!(eval_str("1/0;"), Err(EvalError::DivisionByZero));
    assert_eq!(eval_str("1/(2-2);"), Err(EvalError::DivisionByZero));
}

#[test]
fn oversized_digit_run_fails_lexing() {
    assert_eq!(lexer("18446744073709551616;"), Err(LexError::Overflow));
    assert_eq!(
        lexer("18446744073709551615;").unwrap(),
        vec![Token::Number(u64::MAX), Token::Semicolon]
    );
}

#[test]
fn literal_beyond_i64_fails_evaluation() {
    assert_eq!(eval_str("9223372036854775808;"), Err(EvalError::Overflow));
}

#[test]
fn surrounding_whitespace_is_trimmed() {
    assert_eq!(eval_f64("  2+3*4;\t\n"), 14.0);
}

#[test]
fn embedded_whitespace_is_rejected() {
    assert_eq!(lexer("2 +3;"), Err(LexError::UnexpectedCharacter(b' ', 1)));
}

#[test]
fn empty_input_fails_parsing() {
    let tokens = lexer("").unwrap();
    assert_eq!(tokens, vec![]);
    assert_eq!(parser(&tokens).unwrap_err(), ParseError::ExpectedFactor);
    let tokens = lexer("   ").unwrap();
    assert_eq!(tokens, vec![]);
}

#[test]
fn leading_sign_is_applied_to_the_seed() {
    assert_eq!(eval_f64("-5;"), -5.0);
    assert_eq!(eval_f64("+5;"), 5.0);
    assert_eq!(eval_f64("-2+3;"), 1.0);
}

#[test]
fn nested_parentheses_evaluate() {
    assert_eq!(eval_f64("((2));"), 2.0);
    assert_eq!(eval_f64("2*(3+(4-1));"), 12.0);
}

#[test]
fn trace_shows_the_tree_shape() {
    let tokens = lexer("2+3*4;").unwrap();
    let ast = parser(&tokens).unwrap();
    assert_eq!(
        ast.show(),
        "(S (E (T (F (N 2))) + (T (F (N 3)) * (F (N 4)))))"
    );
}

#[test]
fn trace_of_bare_number() {
    let tokens = lexer("5;").unwrap();
    let ast = parser(&tokens).unwrap();
    assert_eq!(ast.show(), "(S (E (T (F (N 5)))))");
}

#[test]
fn hand_built_malformed_tree_is_reported() {
    let tree = ASTNode::E(vec![]);
    assert_eq!(tree.eval(), Err(EvalError::MalformedTree));
    let op_only = ASTNode::E(vec![exprcalc::EElement::Plus]);
    assert_eq!(op_only.eval(), Err(EvalError::MalformedTree));
}

#[test]
fn read_number_requires_a_number_token() {
    let tokens = vec![Token::Plus];
    assert_eq!(
        exprcalc::read_number(&tokens, 0).unwrap_err(),
        ParseError::ExpectedNumber
    );
    let tokens = vec![Token::Number(9)];
    let (node, next) = exprcalc::read_number(&tokens, 0).unwrap();
    assert_eq!(next, 1);
    assert!(matches!(*node, ASTNode::N(9)));
}

#[test]
fn empty_parentheses_fail_parsing() {
    let tokens = lexer("();").unwrap();
    assert_eq!(parser(&tokens).unwrap_err(), ParseError::ExpectedFactor);
}

#[test]
fn doubled_operator_fails_parsing() {
    let tokens = lexer("2*+3;").unwrap();
    assert_eq!(parser(&tokens).unwrap_err(), ParseError::ExpectedFactor);
}

#[test]
fn trace_renders_multi_digit_numbers() {
    let tokens = lexer("123;").unwrap();
    let ast = parser(&tokens).unwrap();
    assert_eq!(ast.show(), "(S (E (T (F (N 123)))))");
}

#[test]
fn division_keeps_exact_rational_values() {
    let r = eval_str("1/3;").unwrap();
    assert_eq!((r.num, r.den), (1, 3));
    let r = eval_str("8/4/2;").unwrap();
    assert_eq!((r.num, r.den), (8, 8));
}
