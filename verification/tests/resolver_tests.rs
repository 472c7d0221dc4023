use lib::ast::{Expr, Stmt};
use lib::lexer::Lexer;
use lib::parser::Parser;
use lib::resolver::Resolver;

fn program(src: &str) -> Vec<Stmt> {
    let mut lexer = Lexer::new(src.to_string());
    let tokens = lexer.analyze();
    let mut parser = Parser::new(tokens);
    parser.parse_stmts().ok().expect("parses")
}

fn variable_depths(resolver: &Resolver) -> Vec<(String, usize)> {
    resolver
        .locals
        .iter()
        .map(|(e, d)| match e {
            Expr::Variable(t) => (t.lexeme.clone(), *d),
            Expr::Assign { left, .. } => (format!("={}", left.lexeme), *d),
            other => (other.to_string(), *d),
        })
        .collect()
}

#[test]
fn equal_expressions_share_one_record() {
    let mut resolver = Resolver::new();
    let stmts = program("{ var a = 1; { print a; } print a; }");
    assert!(resolver.resolve_statements(&stmts).is_ok());
    assert_eq!(variable_depths(&resolver), vec![("a".to_string(), 0)]);
}

#[test]
fn globals_are_not_recorded() {
    let mut resolver = Resolver::new();
    assert!(resolver.resolve_statements(&program("var a = 1; print a; a = 2;")).is_ok());
    assert!(resolver.locals.is_empty());
}

#[test]
fn depths_count_scopes_outwards() {
    let mut resolver = Resolver::new();
    let stmts = program("{ var a = 1;\n { var b = a;\n print b;\n a = b; }\n print a; }");
    assert!(resolver.resolve_statements(&stmts).is_ok());
    let depths = variable_depths(&resolver);
    assert_eq!(
        depths,
        vec![
            ("a".to_string(), 1),
            ("b".to_string(), 0),
            ("b".to_string(), 0),
            ("=a".to_string(), 1),
            ("a".to_string(), 0),
        ]
    );
}

#[test]
fn reading_a_variable_in_its_own_initializer_fails() {
    let mut resolver = Resolver::new();
    match resolver.resolve_statements(&program("{ var a = a; }")) {
        Err(e) => assert_eq!(e.message, "Can't read local variable in its own initializer."),
        Ok(_) => panic!("should fail"),
    }
}

#[test]
fn redeclaring_in_one_scope_fails() {
    let mut resolver = Resolver::new();
    match resolver.resolve_statements(&program("{ var a = 1; var a = 2; }")) {
        Err(e) => assert_eq!(e.message, "Already a variable with this name in this scope."),
        Ok(_) => panic!("should fail"),
    }
}

#[test]
fn redeclaring_at_top_level_is_allowed() {
    let mut resolver = Resolver::new();
    assert!(resolver.resolve_statements(&program("var a = 1; var a = a;")).is_ok());
}

#[test]
fn shadowing_in_an_inner_block_is_allowed() {
    let mut resolver = Resolver::new();
    assert!(resolver
        .resolve_statements(&program("{ var a = 1; { var a = 2; print a; } if (a) print a; else { a = 3; } while (a) a = a - 1; }"))
        .is_ok());
}
