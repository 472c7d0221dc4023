use lib::environment::Environment;
use lib::token::{Token, TokenType};

fn name(s: &str) -> Token {
    Token { token_type: TokenType::Identifier, lexeme: s.to_string(), literal: "null".to_string(), line: 1 }
}

#[test]
fn get_after_define() {
    let mut env: Environment<i64> = Environment::new();
    env.define("a".to_string(), 1);
    assert_eq!(*env.get(name("a")).ok().unwrap(), 1);
    env.define("a".to_string(), 2);
    assert_eq!(*env.get(name("a")).ok().unwrap(), 2);
}

#[test]
fn undefined_names_are_errors() {
    let mut env: Environment<i64> = Environment::new();
    match env.get(name("x")) {
        Err(e) => assert_eq!(e.message, "Undefined variable 'x'."),
        Ok(_) => panic!("x is not defined"),
    }
    match env.assign(name("x"), 3) {
        Err(e) => assert_eq!(e.message, "Undefined variable 'x'."),
        Ok(_) => panic!("x is not defined"),
    }
}

#[test]
fn assign_changes_the_innermost_binding() {
    let mut outer: Environment<i64> = Environment::new();
    outer.define("a".to_string(), 1);
    outer.define("b".to_string(), 10);
    let mut inner = Environment::new_with_parent(outer);
    inner.define("b".to_string(), 20);
    assert!(inner.assign(name("a"), 5).is_ok());
    assert!(inner.assign(name("b"), 30).is_ok());
    assert_eq!(*inner.get(name("a")).ok().unwrap(), 5);
    assert_eq!(*inner.get(name("b")).ok().unwrap(), 30);
    let outer = inner.into_parent().expect("has a parent");
    assert_eq!(*outer.get(name("a")).ok().unwrap(), 5);
    assert_eq!(*outer.get(name("b")).ok().unwrap(), 10);
    assert!(outer.into_parent().is_none());
}

#[test]
fn inner_definitions_shadow_and_vanish() {
    let mut outer: Environment<&str> = Environment::new();
    outer.define("v".to_string(), "outer");
    let mut inner = Environment::new_with_parent(outer);
    assert_eq!(*inner.get(name("v")).ok().unwrap(), "outer");
    inner.define("v".to_string(), "inner");
    assert_eq!(*inner.get(name("v")).ok().unwrap(), "inner");
    let outer = inner.into_parent().unwrap();
    assert_eq!(*outer.get(name("v")).ok().unwrap(), "outer");
}
