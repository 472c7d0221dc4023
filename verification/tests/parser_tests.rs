use lib::ast::{Expr, LiteralValue, Stmt};
use lib::lexer::Lexer;
use lib::parser::Parser;
use lib::token::TokenType;

fn parser_for(src: &str) -> Parser {
    let mut lexer = Lexer::new(src.to_string());
    let tokens = lexer.analyze();
    assert!(!lexer.encountered_error);
    Parser::new(tokens)
}

fn printed(src: &str) -> String {
    let mut parser = parser_for(src);
    let expr = parser.parse().expect("parses");
    assert!(!parser.encountered_error);
    expr.to_string()
}

#[test]
fn new_parser_starts_at_the_first_token() {
    let parser = parser_for("1");
    assert_eq!(parser.current, 0);
    assert!(!parser.encountered_error);
    assert!(parser.error.is_none());
    assert_eq!(parser.tokens.len(), 2);
}

#[test]
fn literals_print_as_written() {
    assert_eq!(printed("true"), "true");
    assert_eq!(printed("false"), "false");
    assert_eq!(printed("nil"), "nil");
    assert_eq!(printed("42"), "42");
    assert_eq!(printed("\"hi there\""), "hi there");
    assert_eq!(printed("foo"), "foo");
}

#[test]
fn factors_bind_tighter_than_terms() {
    assert_eq!(printed("1 + 2 * 3"), "(+ 1 (* 2 3))");
    assert_eq!(printed("1 * 2 + 3"), "(+ (* 1 2) 3)");
}

#[test]
fn binary_operators_group_to_the_left() {
    assert_eq!(printed("1 - 2 - 3"), "(- (- 1 2) 3)");
    assert_eq!(printed("8 / 4 / 2"), "(/ (/ 8 4) 2)");
    assert_eq!(printed("a == b != c"), "(!= (== a b) c)");
}

#[test]
fn comparison_between_terms_and_equality() {
    assert_eq!(printed("1 < 2 == 3 >= 4"), "(== (< 1 2) (>= 3 4))");
}

#[test]
fn unary_and_grouping() {
    assert_eq!(printed("-!x"), "(- (! x))");
    assert_eq!(printed("(1 + 2) * 3"), "(* (group (+ 1 2)) 3)");
    assert_eq!(printed("((x))"), "(group (group x))");
}

#[test]
fn logical_operators() {
    assert_eq!(printed("a or b and c"), "(or a (and b c))");
    assert_eq!(printed("a and b or c"), "(or (and a b) c)");
}

#[test]
fn assignment_groups_to_the_right() {
    assert_eq!(printed("a = b = 1"), "(assign a (assign b 1))");
}

#[test]
fn invalid_assignment_target_is_an_error() {
    let mut parser = parser_for("1 = 2");
    assert!(parser.parse().is_none());
    assert!(parser.encountered_error);
    let e = parser.error.as_ref().unwrap();
    assert_eq!(e.message, "Invalid assignment target.");
    assert_eq!(e.token.lexeme, "=");
}

#[test]
fn missing_operand_reports_the_token() {
    let mut parser = parser_for("(1 +");
    assert!(parser.parse().is_none());
    assert!(parser.encountered_error);
    let e = parser.error.as_ref().unwrap();
    assert_eq!(e.message, "Unexpected token.");
    assert_eq!(e.token.token_type, TokenType::Eof);
    assert_eq!(e.expression_report(), "[line 1] Error at '': Expect expression.");
}

#[test]
fn unclosed_group_is_an_error() {
    let mut parser = parser_for("(1");
    assert!(parser.parse().is_none());
    let e = parser.error.as_ref().unwrap();
    assert_eq!(e.message, "Expected ')' after expression.");
}

#[test]
fn error_report_names_line_and_lexeme() {
    let mut parser = parser_for("\n\n)");
    assert!(parser.parse().is_none());
    assert_eq!(
        parser.error.as_ref().unwrap().expression_report(),
        "[line 3] Error at ')': Expect expression."
    );
}

#[test]
fn a_later_parse_clears_the_error() {
    let mut parser = parser_for(") 1");
    assert!(parser.parse().is_none());
    assert!(parser.encountered_error);
    let e = parser.parse().expect("the second parse succeeds");
    assert_eq!(e.to_string(), "1");
    assert!(!parser.encountered_error);
    assert!(parser.error.is_none());
}

#[test]
fn number_literal_keeps_the_token_literal() {
    let mut parser = parser_for("3.25");
    match parser.parse() {
        Some(Expr::Literal(LiteralValue::Number(text))) => assert_eq!(text, "3.25"),
        _ => panic!("expected a number"),
    }
}

#[test]
fn statements_of_every_kind() {
    let mut parser = parser_for(
        "var a = 1; var b; print a; a = 2; { var c = a; } if (a) print 1; else print 2; if (b) b; while (a > 0) a = a - 1;",
    );
    let stmts = parser.parse_stmts().ok().expect("parses");
    assert_eq!(stmts.len(), 8);
    match &stmts[0] {
        Stmt::Var { identifier, expression: Some(e) } => {
            assert_eq!(identifier, "a");
            assert_eq!(e.to_string(), "1");
        }
        _ => panic!("var with initializer"),
    }
    match &stmts[1] {
        Stmt::Var { identifier, expression: None } => assert_eq!(identifier, "b"),
        _ => panic!("var without initializer"),
    }
    match &stmts[2] {
        Stmt::Print(e) => assert_eq!(e.to_string(), "a"),
        _ => panic!("print"),
    }
    match &stmts[3] {
        Stmt::Expression(e) => assert_eq!(e.to_string(), "(assign a 2)"),
        _ => panic!("expression statement"),
    }
    match &stmts[4] {
        Stmt::Block(inner) => assert_eq!(inner.len(), 1),
        _ => panic!("block"),
    }
    match &stmts[5] {
        Stmt::If { condition, else_branch: Some(_), .. } => assert_eq!(condition.to_string(), "a"),
        _ => panic!("if with else"),
    }
    match &stmts[6] {
        Stmt::If { else_branch: None, .. } => {}
        _ => panic!("if without else"),
    }
    match &stmts[7] {
        Stmt::While { condition, body } => {
            assert_eq!(condition.to_string(), "(> a 0)");
            match &**body {
                Stmt::Expression(e) => assert_eq!(e.to_string(), "(assign a (- a 1))"),
                _ => panic!("while body"),
            }
        }
        _ => panic!("while"),
    }
    assert_eq!(parser.tokens[parser.current].token_type, TokenType::Eof);
}

#[test]
fn empty_program_has_no_statements() {
    let mut parser = parser_for("");
    let stmts = parser.parse_stmts().ok().expect("parses");
    assert!(stmts.is_empty());
}

#[test]
fn missing_semicolon_is_an_error() {
    let mut parser = parser_for("print 1");
    match parser.parse_stmts() {
        Err(e) => {
            assert_eq!(e.message, "Expect ';' after value.");
            assert_eq!(e.token.token_type, TokenType::Eof);
        }
        Ok(_) => panic!("should fail"),
    }
    let mut parser = parser_for("1 2");
    match parser.parse_stmts() {
        Err(e) => assert_eq!(e.message, "Expect ';' after expression."),
        Ok(_) => panic!("should fail"),
    }
}

#[test]
fn statement_errors_have_their_messages() {
    let cases = [
        ("var 1;", "Expect variable name."),
        ("var a 1;", "Expect ';' after variable declaration."),
        ("if a) 1;", "Expect '(' after 'if'."),
        ("if (a 1;", "Expect ')' after if condition."),
        ("while a) 1;", "Expect '(' after 'while'."),
        ("while (a 1;", "Expect ')' after condition."),
        ("{ 1;", "Unexpected token."),
    ];
    for (src, message) in cases {
        let mut parser = parser_for(src);
        match parser.parse_stmts() {
            Err(e) => assert_eq!(e.message, message, "for {}", src),
            Ok(_) => panic!("{} should fail", src),
        }
    }
}

fn number_token(literal: &str) -> lib::token::Token {
    lib::token::Token {
        token_type: TokenType::Number,
        lexeme: literal.to_string(),
        literal: literal.to_string(),
        line: 1,
    }
}

fn eof_token() -> lib::token::Token {
    lib::token::Token {
        token_type: TokenType::Eof,
        lexeme: String::new(),
        literal: "null".to_string(),
        line: 1,
    }
}

#[test]
fn number_literal_that_does_not_read_is_an_error() {
    let mut parser = Parser::new(vec![number_token("12abc"), eof_token()]);
    assert!(parser.parse().is_none());
    assert!(parser.encountered_error);
    let e = parser.error.as_ref().unwrap();
    assert_eq!(e.message, "Failed to parse number");
    assert_eq!(e.token.lexeme, "12abc");
    let mut parser = Parser::new(vec![number_token("."), eof_token()]);
    assert!(parser.parse().is_none());
    assert_eq!(parser.error.as_ref().unwrap().message, "Failed to parse number");
}

#[test]
fn number_literal_that_reads_is_kept() {
    let mut parser = Parser::new(vec![number_token("2.5e3"), eof_token()]);
    assert_eq!(parser.parse().expect("parses").to_string(), "2.5e3");
    assert!(!parser.encountered_error);
    let mut parser = Parser::new(vec![number_token("-inf"), eof_token()]);
    assert_eq!(parser.parse().expect("parses").to_string(), "-inf");
}

#[test]
fn lexed_numerals_always_parse() {
    assert_eq!(printed("1."), "1.");
    assert_eq!(printed("007.50"), "007.50");
}
