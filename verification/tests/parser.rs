use rusty_lox::expr::Expr;
use rusty_lox::grammar::{Message, SyntaxError};
use rusty_lox::literal::Literal;
use rusty_lox::parser::Parser;
use rusty_lox::scanner::Scanner;
use rusty_lox::stmt::Stmt;
use rusty_lox::token::Token;
use rusty_lox::token_type::TokenType;
use typed_arena::Arena;

fn tokens_of(source: &str) -> Vec<Token> {
    let (tokens, errors) = Scanner::new(source.as_bytes().to_vec()).scan_tokens();
    assert!(errors.is_empty());
    tokens
}

fn parse<'a>(tokens: &'a Vec<Token>, arena: &'a Arena<Expr<'a>>) -> (Vec<Stmt<'a>>, Vec<SyntaxError<'a>>) {
    let mut parser = Parser::new(tokens);
    let statements = parser.parse(arena).unwrap();
    (statements, parser.into_errors())
}

/// A compact rendering used only to compare shapes.
fn shape(expr: &Expr) -> String {
    match expr {
        Expr::Assign { name, value } => format!("(= {} {})", name.lexeme, shape(value)),
        Expr::Binary { left, operator, right } => {
            format!("({} {} {})", operator.lexeme, shape(left), shape(right))
        }
        Expr::Grouping { expression } => format!("(group {})", shape(expression)),
        Expr::Literal(Literal::Bool(b)) => format!("{}", b),
        Expr::Literal(Literal::Number(n)) => n.clone(),
        Expr::Literal(Literal::String(s)) => format!("{:?}", s),
        Expr::Literal(Literal::Nil) => "nil".to_string(),
        Expr::Unary { operator, right } => format!("({} {})", operator.lexeme, shape(right)),
        Expr::Variable(name) => name.lexeme.clone(),
    }
}

fn shape_of_statement(stmt: &Stmt) -> String {
    match stmt {
        Stmt::Block { statements } => {
            let inner: Vec<String> = statements.iter().map(shape_of_statement).collect();
            format!("{{{}}}", inner.join(" "))
        }
        Stmt::Expression(e) => format!("{};", shape(e)),
        Stmt::Print(e) => format!("print {};", shape(e)),
        Stmt::Var { name, initializer: Some(e) } => format!("var {} = {};", name.lexeme, shape(e)),
        Stmt::Var { name, initializer: None } => format!("var {};", name.lexeme),
    }
}

fn shapes(source: &str) -> (Vec<String>, Vec<(usize, String, Message)>) {
    let tokens = tokens_of(source);
    let arena = Arena::new();
    let (statements, errors) = parse(&tokens, &arena);
    (
        statements.iter().map(shape_of_statement).collect(),
        errors.iter().map(|e| (e.token.line, e.token.lexeme.clone(), e.message)).collect(),
    )
}

#[test]
fn negated_product_of_a_group() {
    let tokens = tokens_of("-123 * (45.67);");
    let arena = Arena::new();
    let (statements, errors) = parse(&tokens, &arena);
    assert!(errors.is_empty());
    assert_eq!(statements.len(), 1);
    match &statements[0] {
        Stmt::Expression(Expr::Binary { left, operator, right }) => {
            assert_eq!(operator.kind, TokenType::Star);
            match left {
                Expr::Unary { operator, right } => {
                    assert_eq!(operator.kind, TokenType::Minus);
                    assert!(matches!(right, Expr::Literal(Literal::Number(n)) if n == "123"));
                }
                _ => panic!("left operand is not a negation"),
            }
            match right {
                Expr::Grouping { expression } => {
                    assert!(
                        matches!(expression, Expr::Literal(Literal::Number(n)) if n == "45.67")
                    );
                }
                _ => panic!("right operand is not a group"),
            }
        }
        _ => panic!("not an expression statement over a product"),
    }
}

#[test]
fn binary_operators_fold_from_the_left() {
    let (statements, errors) = shapes("1 - 2 - 3; 8 / 4 / 2; 1 < 2 < 3; 1 == 2 == 3;");
    assert!(errors.is_empty());
    assert_eq!(
        statements,
        vec!["(- (- 1 2) 3);", "(/ (/ 8 4) 2);", "(< (< 1 2) 3);", "(== (== 1 2) 3);"]
    );
}

#[test]
fn precedence_from_loose_to_tight() {
    let (statements, errors) = shapes("1 == 2 < 3 + 4 * -5;");
    assert!(errors.is_empty());
    assert_eq!(statements, vec!["(== 1 (< 2 (+ 3 (* 4 (- 5)))));"]);
}

#[test]
fn assignment_nests_to_the_right() {
    let (statements, errors) = shapes("a = b = 3;");
    assert!(errors.is_empty());
    assert_eq!(statements, vec!["(= a (= b 3));"]);
}

#[test]
fn literals_and_unary_operators() {
    let (statements, errors) = shapes("!true; !!false; nil; \"s\"; -x;");
    assert!(errors.is_empty());
    assert_eq!(statements, vec!["(! true);", "(! (! false));", "nil;", "\"s\";", "(- x);"]);
}

#[test]
fn declarations_prints_and_blocks() {
    let (statements, errors) = shapes("var a = 1; var b; { var a = 2; print a; { } } print a;");
    assert!(errors.is_empty());
    assert_eq!(
        statements,
        vec!["var a = 1;", "var b;", "{var a = 2; print a; {}}", "print a;"]
    );
}

#[test]
fn empty_program_has_no_statements() {
    let (statements, errors) = shapes("");
    assert!(statements.is_empty());
    assert!(errors.is_empty());
}

#[test]
fn invalid_assignment_target_is_reported_at_the_equals_sign() {
    let (statements, errors) = shapes("1 + 2 = 3; print 4;");
    assert_eq!(statements, vec!["print 4;"]);
    assert_eq!(errors, vec![(1, "=".to_string(), Message::InvalidAssignmentTarget)]);
    assert_eq!(Message::InvalidAssignmentTarget.to_string(), "Invalid assignment target.");
}

#[test]
fn missing_right_paren_is_reported_at_the_token_found() {
    let (statements, errors) = shapes("(1 + 2;");
    assert!(statements.is_empty());
    assert_eq!(errors, vec![(1, ";".to_string(), Message::ExpectRightParen)]);
    assert_eq!(Message::ExpectRightParen.to_string(), "Expect ')' after expression.");
}

#[test]
fn missing_semicolon_is_reported_at_end() {
    let tokens = tokens_of("print 1");
    let arena = Arena::new();
    let (statements, errors) = parse(&tokens, &arena);
    assert!(statements.is_empty());
    assert_eq!(errors.len(), 1);
    assert_eq!(errors[0].token.kind, TokenType::Eof);
    assert_eq!(errors[0].message, Message::ExpectSemicolonAfterValue);
    assert_eq!(Message::ExpectSemicolonAfterValue.to_string(), "Expect ';' after value.");
}

#[test]
fn missing_expression_is_reported() {
    let (statements, errors) = shapes("1 + ;");
    assert!(statements.is_empty());
    assert_eq!(errors, vec![(1, ";".to_string(), Message::ExpectExpression)]);
    assert_eq!(Message::ExpectExpression.to_string(), "Expect expression.");
}

#[test]
fn variable_declaration_errors() {
    let (statements, errors) = shapes("var 1;\nvar a 2;\nvar b = 3");
    assert!(statements.is_empty());
    assert_eq!(errors.len(), 3);
    assert_eq!(errors[0], (1, "1".to_string(), Message::ExpectVariableName));
    assert_eq!(errors[1], (2, "2".to_string(), Message::ExpectSemicolonAfterDeclaration));
    assert_eq!(errors[2].2, Message::ExpectSemicolonAfterDeclaration);
    assert_eq!(Message::ExpectVariableName.to_string(), "Expect variable name.");
    assert_eq!(
        Message::ExpectSemicolonAfterDeclaration.to_string(),
        "Expect ';' after variable declaration."
    );
}

#[test]
fn unclosed_block_is_reported_at_end() {
    let (statements, errors) = shapes("{ print 1;");
    assert!(statements.is_empty());
    assert_eq!(errors.len(), 1);
    assert_eq!(errors[0].2, Message::ExpectRightBrace);
    assert_eq!(Message::ExpectRightBrace.to_string(), "Expect '}' after block.");
}

#[test]
fn error_inside_a_block_drops_only_that_statement() {
    let (statements, errors) = shapes("{ 1 + ; print 2; } print 3;");
    assert_eq!(statements, vec!["{print 2;}", "print 3;"]);
    assert_eq!(errors, vec![(1, ";".to_string(), Message::ExpectExpression)]);
}

#[test]
fn each_invalid_statement_yields_one_error() {
    let (statements, errors) = shapes(") ; * 2 ; , , ; = 1 ;");
    assert!(statements.is_empty());
    assert_eq!(errors.len(), 4);
    assert!(errors.iter().all(|e| e.2 == Message::ExpectExpression));
    let (statements, errors) = shapes("+; print 1; +; print 2; +;");
    assert_eq!(statements, vec!["print 1;", "print 2;"]);
    assert_eq!(errors.len(), 3);
}

#[test]
fn recovery_stops_in_front_of_a_statement_keyword() {
    let (statements, errors) = shapes("1 2 print 3;");
    assert_eq!(statements, vec!["print 3;"]);
    assert_eq!(errors, vec![(1, "2".to_string(), Message::ExpectSemicolonAfterValue)]);
}

#[test]
fn a_keyword_inside_an_invalid_statement_starts_another() {
    let (statements, errors) = shapes(") class ;");
    assert!(statements.is_empty());
    assert_eq!(errors.len(), 2);
}

#[test]
fn parsed_statements_are_well_formed() {
    let tokens = tokens_of("print -1 * (2 + 3) == !true; { var a = 1 < 2; a = a != nil; }");
    let arena = Arena::new();
    let (statements, errors) = parse(&tokens, &arena);
    assert!(errors.is_empty());
    assert!(rusty_lox::semantics::statements_are_well_formed(&statements));
}

#[test]
fn product_binds_tighter_than_sum_and_sum_than_equality() {
    let (statements, errors) = shapes("1 + 2 * 3 == 7;");
    assert!(errors.is_empty());
    assert_eq!(statements, vec!["(== (+ 1 (* 2 3)) 7);"]);
}

#[test]
fn valid_statements_among_invalid_ones_are_kept_in_order() {
    let (statements, errors) = shapes("+; print 1; );");
    assert_eq!(statements, vec!["print 1;"]);
    assert_eq!(
        errors,
        vec![
            (1, "+".to_string(), Message::ExpectExpression),
            (1, ")".to_string(), Message::ExpectExpression),
        ]
    );
    let (statements, errors) = shapes("var a = 1; * ; print a; , ; a = 2; 3 3;");
    assert_eq!(statements, vec!["var a = 1;", "print a;", "(= a 2);"]);
    assert_eq!(errors.len(), 3);
}
