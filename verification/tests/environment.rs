use rusty_lox::environment::Environment;
use rusty_lox::literal::Literal;
use rusty_lox::token::Token;
use rusty_lox::token_type::TokenType;
use rusty_lox::value::Value;

fn name(lexeme: &str, line: usize) -> Token {
    Token { kind: TokenType::Identifier, lexeme: lexeme.to_string(), literal: Literal::Nil, line }
}

fn number_of(value: &Value) -> u64 {
    match value {
        Value::Number(bits) => *bits,
        other => panic!("not a number: {:?}", other),
    }
}

#[test]
fn define_then_get() {
    let one = Value::Number(1);
    let mut environment = Environment::new();
    assert_eq!(environment.len(), 1);
    environment.define(0, "a".to_string(), &one);
    assert_eq!(number_of(environment.get(0, &name("a", 1)).unwrap()), 1);
}

#[test]
fn get_of_an_undefined_name_fails_naming_it() {
    let environment = Environment::new();
    let error = environment.get(0, &name("missing", 4)).unwrap_err();
    assert_eq!(error.message, "Undefined variable 'missing'.");
    assert_eq!(error.token_line, 4);
}

#[test]
fn assign_of_an_undefined_name_fails_and_defines_nothing() {
    let one = Value::Number(1);
    let mut environment = Environment::new();
    let error = environment.assign(0, &name("a", 2), &one).unwrap_err();
    assert_eq!(error.message, "Undefined variable 'a'.");
    assert_eq!(error.token_line, 2);
    assert!(environment.get(0, &name("a", 3)).is_err());
}

#[test]
fn inner_scope_sees_and_shadows_the_outer_one() {
    let (one, two) = (Value::Number(1), Value::Number(2));
    let mut environment = Environment::new();
    environment.define(0, "a".to_string(), &one);
    let inner = environment.new_with_enclosing(0);
    assert_eq!(inner, 1);
    assert_eq!(number_of(environment.get(inner, &name("a", 1)).unwrap()), 1);
    environment.define(inner, "a".to_string(), &two);
    assert_eq!(number_of(environment.get(inner, &name("a", 1)).unwrap()), 2);
    assert_eq!(number_of(environment.get(0, &name("a", 1)).unwrap()), 1);
}

#[test]
fn assign_changes_the_innermost_binding_only() {
    let (one, two, three) = (Value::Number(1), Value::Number(2), Value::Number(3));
    let mut environment = Environment::new();
    environment.define(0, "a".to_string(), &one);
    environment.define(0, "b".to_string(), &one);
    let inner = environment.new_with_enclosing(0);
    environment.define(inner, "a".to_string(), &two);
    environment.assign(inner, &name("a", 1), &three).unwrap();
    environment.assign(inner, &name("b", 1), &two).unwrap();
    assert_eq!(number_of(environment.get(inner, &name("a", 1)).unwrap()), 3);
    assert_eq!(number_of(environment.get(0, &name("a", 1)).unwrap()), 1);
    assert_eq!(number_of(environment.get(0, &name("b", 1)).unwrap()), 2);
}

#[test]
fn two_scopes_may_share_an_enclosing_scope() {
    let (one, two) = (Value::Number(1), Value::Number(2));
    let mut environment = Environment::new();
    environment.define(0, "shared".to_string(), &one);
    let left = environment.new_with_enclosing(0);
    let right = environment.new_with_enclosing(0);
    environment.define(left, "mine".to_string(), &two);
    assert!(environment.get(right, &name("mine", 1)).is_err());
    assert_eq!(number_of(environment.get(right, &name("shared", 1)).unwrap()), 1);
    environment.assign(right, &name("shared", 1), &two).unwrap();
    assert_eq!(number_of(environment.get(left, &name("shared", 1)).unwrap()), 2);
    assert_eq!(environment.len(), 3);
}

#[test]
fn define_again_replaces_the_value() {
    let (one, two) = (Value::Number(1), Value::Number(2));
    let mut environment = Environment::new();
    environment.define(0, "a".to_string(), &one);
    environment.define(0, "b".to_string(), &one);
    environment.define(0, "a".to_string(), &two);
    assert_eq!(number_of(environment.get(0, &name("a", 1)).unwrap()), 2);
    assert_eq!(number_of(environment.get(0, &name("b", 1)).unwrap()), 1);
}
