use exprcalc::ast::Expression;
use exprcalc::lexer::Token;
use exprcalc::parser::Parser;

fn parse_ok(input: &str) -> Expression {
    let mut parser = Parser::new(input).expect("tokenizing should succeed");
    parser.parse().expect("parsing should succeed")
}

fn parse_err(input: &str) -> String {
    match Parser::new(input) {
        Err(e) => e,
        Ok(mut parser) => match parser.parse() {
            Err(e) => e,
            Ok(_) => panic!("parsing should fail"),
        },
    }
}

#[test]
fn addition_ast_value_and_rendering() {
    let e = parse_ok("2 + 3");
    match &e {
        Expression::Addition(l, r) => {
            assert!(matches!(**l, Expression::Number(2)));
            assert!(matches!(**r, Expression::Number(3)));
        },
        _ => panic!("expected an addition at the root"),
    }
    assert_eq!(e.evaluate(), Some(5));
    assert_eq!(e.to_string_prec(0), "2 + 3");
}

#[test]
fn right_subtraction_keeps_parentheses() {
    let e = parse_ok("2 - (3 - 4)");
    assert_eq!(e.to_string_prec(0), "2 - (3 - 4)");
    assert_eq!(e.evaluate(), Some(3));
}

#[test]
fn left_subtraction_drops_parentheses() {
    let e = parse_ok("(2 - 3) - 4");
    assert_eq!(e.to_string_prec(0), "2 - 3 - 4");
    assert_eq!(e.evaluate(), Some(-5));
}

#[test]
fn leading_negation() {
    let e = parse_ok("-5 + 3");
    assert_eq!(e.evaluate(), Some(-2));
    assert_eq!(e.to_string_prec(0), "-5 + 3");
}

#[test]
fn division_and_remainder_by_zero_fail() {
    assert_eq!(parse_ok("10 / 0").evaluate(), None);
    assert_eq!(parse_ok("10 % 0").evaluate(), None);
}

#[test]
fn overflow_fails_instead_of_wrapping() {
    assert_eq!(parse_ok("9223372036854775807 + 1").evaluate(), None);
    assert_eq!(parse_ok("9223372036854775807 * 2").evaluate(), None);
    assert_eq!(parse_ok("0 - 9223372036854775807 - 2").evaluate(), None);
}

#[test]
fn empty_and_unbalanced_inputs_fail() {
    let m1 = parse_err("");
    assert_eq!(m1, "Invalid expression");
    let m2 = parse_err("   ");
    assert_eq!(m2, "Invalid expression");
    let m3 = parse_err("(()");
    assert_eq!(m3, "Invalid expression");
}

#[test]
fn missing_closing_parenthesis() {
    assert_eq!(parse_err("(1 + 2"), "Expected ')'");
}

#[test]
fn invalid_character_is_named() {
    assert_eq!(parse_err("2 + a"), "Invalid character: 'a'");
}

#[test]
fn too_large_number_fails_at_lexing() {
    assert_eq!(parse_err("99999999999999999999"), "Invalid number");
    assert_eq!(parse_err("9223372036854775808"), "Invalid number");
}

#[test]
fn largest_number_still_lexes() {
    let e = parse_ok("9223372036854775807");
    assert_eq!(e.evaluate(), Some(i64::MAX));
    assert_eq!(e.to_string_prec(0), "9223372036854775807");
}

#[test]
fn tree_diagram_orders_children() {
    let e = parse_ok("1 + 2 * 3");
    let tree = e.print_tree();
    assert_eq!(tree, "+\n  \u{251c} 1\n  \u{2514} *\n    \u{251c} 2\n    \u{2514} 3\n");
}

#[test]
fn tree_diagram_single_number() {
    let e = parse_ok("42");
    assert_eq!(e.print_tree(), "42\n");
}

#[test]
fn unary_minus_binds_tighter_than_times() {
    let e = parse_ok("-2*3");
    match &e {
        Expression::Multiplication(l, _) => {
            assert!(matches!(**l, Expression::Negation(_)));
        },
        _ => panic!("expected a multiplication at the root"),
    }
    assert_eq!(e.evaluate(), Some(-6));
    assert_eq!(e.to_string_prec(0), "-2 * 3");
}

#[test]
fn double_negation() {
    let e = parse_ok("--5");
    assert_eq!(e.evaluate(), Some(5));
    assert_eq!(e.to_string_prec(0), "--5");
}

#[test]
fn negated_parenthesized_sum() {
    let e = parse_ok("-(2 + 3)");
    assert_eq!(e.evaluate(), Some(-5));
    assert_eq!(e.to_string_prec(0), "-(2 + 3)");
}

#[test]
fn truncating_division_and_remainder() {
    assert_eq!(parse_ok("7 / -2").evaluate(), Some(-3));
    assert_eq!(parse_ok("-7 % 2").evaluate(), Some(-1));
    assert_eq!(parse_ok("-7 / 2").evaluate(), Some(-3));
}

#[test]
fn precedence_of_remainder_and_division() {
    assert_eq!(parse_ok("1 + 10 % 4 * 2").evaluate(), Some(5));
    assert_eq!(parse_ok("20 / 2 / 5").evaluate(), Some(2));
}

#[test]
fn whitespace_is_skipped() {
    let e = parse_ok(" \t1\n+ 2 ");
    assert_eq!(e.evaluate(), Some(3));
}

#[test]
fn render_reparse_evaluates_identically() {
    let inputs = ["2 + 3", "2 - (3 - 4)", "(2 - 3) - 4", "-5 + 3", "2 - -3", "((1+2))*3 - 4 % 3",
        "-(2 * (3 + 4)) / 5"];
    for input in inputs {
        let e = parse_ok(input);
        let rendered = e.to_string_prec(0);
        let e2 = parse_ok(&rendered);
        assert_eq!(e.evaluate(), e2.evaluate());
        assert_eq!(e2.to_string_prec(0), rendered);
    }
}

#[test]
fn tokenize_yields_the_token_sequence() {
    let toks = Parser::tokenize("(1+2)*3").expect("tokenizing should succeed");
    assert_eq!(
        toks,
        vec![Token::LeftParen, Token::Number(1), Token::Plus, Token::Number(2),
            Token::RightParen, Token::Times, Token::Number(3)]
    );
}

#[test]
fn trailing_tokens_are_left_unread() {
    let mut parser = Parser::new("1 2").expect("tokenizing should succeed");
    let e = parser.parse().expect("parsing should succeed");
    assert!(matches!(e, Expression::Number(1)));
    assert_eq!(parser.pos, 1);
    assert_eq!(parser.tokens.len(), 2);
}
