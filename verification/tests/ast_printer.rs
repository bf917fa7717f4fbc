use rusty_lox::ast_printer::AstPrinter;
use rusty_lox::expr::{Expr, Visitor};
use rusty_lox::literal::{Fragment, Literal};
use rusty_lox::parser::Parser;
use rusty_lox::scanner::Scanner;
use rusty_lox::stmt::Stmt;
use rusty_lox::token::Token;
use rusty_lox::token_type::TokenType;
use typed_arena::Arena;

/// Joins fragments as a host would, numerals rendered as numbers in the
/// inspection format.
fn join(fragments: &[Fragment]) -> String {
    let mut text = String::new();
    for fragment in fragments {
        match fragment {
            Fragment::Text(piece) => text.push_str(piece),
            Fragment::Number(numeral) => {
                text.push_str(&format!("{:?}", numeral.parse::<f64>().unwrap()))
            }
        }
    }
    text
}

fn print(source: &str) -> String {
    let (tokens, _) = Scanner::new(source.as_bytes().to_vec()).scan_tokens();
    let arena = Arena::new();
    let mut parser = Parser::new(&tokens);
    let statements = parser.parse(&arena).unwrap();
    assert_eq!(statements.len(), 1);
    match &statements[0] {
        Stmt::Expression(expression) => join(&AstPrinter.print(expression)),
        _ => panic!("not an expression statement"),
    }
}

#[test]
fn prints_parsed_product_in_prefix_form() {
    assert_eq!(print("-123 * (45.67);"), "(* (- 123.0) (group 45.67))");
}

#[test]
fn prints_a_tree_built_by_hand() {
    let minus = Token { kind: TokenType::Minus, lexeme: "-".into(), literal: Literal::Nil, line: 1 };
    let star = Token { kind: TokenType::Star, lexeme: "*".into(), literal: Literal::Nil, line: 1 };
    let (a, b) = (Literal::Number("123".into()), Literal::Number("45.67".into()));
    let (left_operand, inner) = (Expr::Literal(&a), Expr::Literal(&b));
    let left = Expr::Unary { operator: &minus, right: &left_operand };
    let right = Expr::Grouping { expression: &inner };
    let tree = Expr::Binary { left: &left, operator: &star, right: &right };
    assert_eq!(join(&AstPrinter.print(&tree)), "(* (- 123.0) (group 45.67))");
    assert_eq!(join(&AstPrinter.visit_expr(&tree)), "(* (- 123.0) (group 45.67))");
}

#[test]
fn whole_numbers_keep_a_fraction_in_the_inspection_format() {
    assert_eq!(print("5;"), "5.0");
    assert_eq!(print("1.50;"), "1.5");
    assert_eq!(print("0005;"), "5.0");
}

#[test]
fn prints_literals_variables_and_assignments() {
    assert_eq!(print("nil;"), "null");
    assert_eq!(print("true;"), "true");
    assert_eq!(print("false;"), "false");
    assert_eq!(print("\"text\";"), "text");
    assert_eq!(print("a;"), "a");
    assert_eq!(print("a = b = 1 + 2;"), "(= a (= b (+ 1.0 2.0)))");
    assert_eq!(print("!(1 == 2);"), "(! (group (== 1.0 2.0)))");
}

#[test]
fn literal_and_token_fragments() {
    assert_eq!(join(&[Literal::Nil.fragment()]), "null");
    assert_eq!(join(&[Literal::Bool(true).fragment()]), "true");
    assert_eq!(join(&[Literal::Bool(false).fragment()]), "false");
    assert_eq!(join(&[Literal::String("s".into()).fragment()]), "s");
    assert_eq!(join(&[Literal::Number("5".into()).fragment()]), "5.0");
    let (tokens, _) = Scanner::new(b"12 \"ab\" var".to_vec()).scan_tokens();
    let shown: Vec<String> = tokens.iter().map(|t| join(&t.fragments())).collect();
    assert_eq!(shown, vec!["NUMBER 12 12.0", "STRING \"ab\" ab", "VAR var null", "EOF  null"]);
}

#[test]
fn the_absent_value_shows_as_null_wherever_it_stands() {
    assert_eq!(print("nil;"), "null");
    assert_eq!(print("!nil;"), "(! null)");
    assert_eq!(print("a = (nil);"), "(= a (group null))");
    assert_eq!(print("nil == nil;"), "(== null null)");
    let absent = Literal::Nil;
    let tree = Expr::Literal(&absent);
    assert_eq!(join(&AstPrinter.print(&tree)), "null");
    assert_eq!(join(&AstPrinter.visit_expr(&tree)), "null");
    assert_eq!(join(&AstPrinter.print(&tree)), join(&[absent.fragment()]));
}
