use rusty_lox::expr::Expr;
use rusty_lox::parser::Parser;
use rusty_lox::scanner::Scanner;
use typed_arena::Arena;

fn reports(source: &str) -> Vec<String> {
    let (tokens, scan_errors) = Scanner::new(source.as_bytes().to_vec()).scan_tokens();
    let arena: Arena<Expr> = Arena::new();
    let mut parser = Parser::new(&tokens);
    parser.parse(&arena);
    let mut all = Vec::new();
    for error in &scan_errors {
        let d = error.diagnostic();
        all.push(format!("[line {}] Error{}: {}", d.line, d.location, d.message));
    }
    for error in &parser.into_errors() {
        let d = error.diagnostic();
        all.push(format!("[line {}] Error{}: {}", d.line, d.location, d.message));
    }
    all
}

#[test]
fn lexical_errors_have_no_place() {
    assert_eq!(reports("@"), vec!["[line 1] Error: Unexpected character."]);
    assert_eq!(reports("\n\"abc"), vec!["[line 2] Error: Unterminated string."]);
}

#[test]
fn syntax_errors_name_the_lexeme_or_the_end() {
    assert_eq!(reports("print 1"), vec!["[line 1] Error at end: Expect ';' after value."]);
    assert_eq!(reports("\n(1 2;"), vec!["[line 2] Error at '2': Expect ')' after expression."]);
    assert_eq!(reports("1 = 2;"), vec!["[line 1] Error at '=': Invalid assignment target."]);
}
