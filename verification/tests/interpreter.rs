use rusty_lox::expr::Expr;
use rusty_lox::interpreter::{Action, Execution, Interpreter, Output, Verdict};
use rusty_lox::literal::Literal;
use rusty_lox::parser::Parser;
use rusty_lox::scanner::Scanner;
use rusty_lox::semantics::{statements_are_well_formed, Event, Operation};
use rusty_lox::token::Token;
use rusty_lox::token_type::TokenType;
use rusty_lox::value::{RuntimeError, Value};
use typed_arena::Arena;

fn calculate(operation: Operation, left: u64, right: u64) -> u64 {
    let (a, b) = (f64::from_bits(left), f64::from_bits(right));
    let result = match operation {
        Operation::Add => a + b,
        Operation::Subtract => a - b,
        Operation::Multiply => a * b,
        Operation::Divide => a / b,
    };
    result.to_bits()
}

/// Runs an execution to its end as a host would, and collects what it
/// prints and reports.
fn drive(execution: &mut Execution) -> Vec<String> {
    let mut lines = Vec::new();
    let mut event = Event::Resume;
    loop {
        let action = execution.step(event);
        event = Event::Resume;
        match action {
            Action::Continue => {}
            Action::Convert(numeral) => {
                event = Event::Number(numeral.parse::<f64>().unwrap().to_bits());
            }
            Action::Calculate { operation, left, right } => {
                event = Event::Number(calculate(operation, left, right));
            }
            Action::Print(Output::Text(text)) => lines.push(text),
            Action::Print(Output::Number(bits)) => lines.push(format!("{}", f64::from_bits(bits))),
            Action::Report(error) => {
                lines.push(format!("{} [line {}]", error.message, error.token_line))
            }
            Action::Finished => break,
        }
    }
    lines
}

fn run(source: &str) -> Vec<String> {
    let (tokens, errors) = Scanner::new(source.as_bytes().to_vec()).scan_tokens();
    assert!(errors.is_empty());
    let expressions = Arena::new();
    let mut parser = Parser::new(&tokens);
    let statements = parser.parse(&expressions).unwrap();
    assert!(parser.into_errors().is_empty());
    assert!(statements_are_well_formed(&statements));
    let values = Arena::new();
    let interpreter = Interpreter::new(&values);
    let mut execution = interpreter.interpret(&statements);
    let lines = drive(&mut execution);
    assert!(execution.is_finished());
    lines
}

fn token(kind: TokenType, lexeme: &str, line: usize) -> Token {
    Token { kind, lexeme: lexeme.to_string(), literal: Literal::Nil, line }
}

fn number(value: f64) -> Value {
    Value::Number(value.to_bits())
}

#[test]
fn inner_scope_shadows_and_outer_scope_returns() {
    assert_eq!(run("var a = 1; { var a = 2; print a; } print a;"), vec!["2", "1"]);
}

#[test]
fn equal_strings_print_true() {
    assert_eq!(run("print \"one\" == \"one\";"), vec!["true"]);
}

#[test]
fn whole_numbers_print_without_a_fraction() {
    assert_eq!(run("print 5; print 2.5; print 10 / 4; print 6 / 3;"), vec!["5", "2.5", "2.5", "2"]);
}

#[test]
fn arithmetic_follows_precedence() {
    assert_eq!(run("print 1 + 2 * 3; print (1 + 2) * 3; print -123 * (45.67);"), vec![
        "7",
        "9",
        "-5617.41"
    ]);
}

#[test]
fn operands_are_evaluated_left_to_right() {
    assert_eq!(run("var a = 1; print (a = 2) - a; a = 1; print a - (a = 2);"), vec!["0", "-1"]);
}

#[test]
fn strings_join() {
    assert_eq!(run("print \"a\" + \"b\"; print \"\" + \"\";"), vec!["ab", ""]);
}

#[test]
fn truthiness_of_literals() {
    assert_eq!(run("print !nil; print !0; print !\"\"; print !false; print !true;"), vec![
        "true", "false", "false", "true", "false"
    ]);
}

#[test]
fn equality_never_crosses_kinds() {
    assert_eq!(
        run("print 1 == 1; print 1 == \"1\"; print nil == false; print nil == nil; print 1 != 2; print \"a\" != \"a\";"),
        vec!["true", "false", "false", "true", "true", "false"]
    );
}

#[test]
fn comparisons_of_numbers() {
    assert_eq!(
        run("print 1 < 2; print 2 < 1; print 2 <= 2; print 3 > 2; print 2 >= 3; print -1 < 0; print -2 < -1;"),
        vec!["true", "false", "true", "true", "false", "true", "true"]
    );
}

#[test]
fn nil_prints_as_nil_and_booleans_by_name() {
    assert_eq!(run("var a; print a; print nil; print true; print false;"), vec![
        "nil", "nil", "true", "false"
    ]);
}

#[test]
fn assignment_is_an_expression_and_reaches_outer_scopes() {
    assert_eq!(run("var a = 1; { a = 2; } print a; print a = 3; var b; print b = a = 4; print a;"), vec![
        "2", "3", "4", "4"
    ]);
}

#[test]
fn redefinition_replaces_the_binding() {
    assert_eq!(run("var a = 1; var a = 2; print a;"), vec!["2"]);
}

#[test]
fn reading_an_undefined_variable_fails_and_defines_nothing() {
    assert_eq!(run("print a;\nprint a;"), vec![
        "Undefined variable 'a'. [line 1]",
        "Undefined variable 'a'. [line 2]"
    ]);
}

#[test]
fn assigning_an_undefined_variable_fails_and_defines_nothing() {
    assert_eq!(run("a = 1;\nprint a;"), vec![
        "Undefined variable 'a'. [line 1]",
        "Undefined variable 'a'. [line 2]"
    ]);
}

#[test]
fn block_variables_end_with_the_block() {
    assert_eq!(run("{ var a = 1; print a; }\nprint a;"), vec!["1", "Undefined variable 'a'. [line 2]"]);
}

#[test]
fn statements_after_a_runtime_error_still_run() {
    assert_eq!(run("print 1; print nil + 1; print 2;"), vec![
        "1",
        "Operands must be two numbers or two strings. [line 1]",
        "2"
    ]);
}

#[test]
fn runtime_error_in_a_block_ends_the_block_and_restores_the_scope() {
    assert_eq!(run("var a = 1; { var a = 2; { var a = 3; print -\"x\"; print a; } print a; } print a;"), vec![
        "Operand must be a number. [line 1]",
        "1"
    ]);
}

#[test]
fn operators_reject_operands_of_the_wrong_kind() {
    assert_eq!(run("print 1 + \"a\";"), vec!["Operands must be two numbers or two strings. [line 1]"]);
    assert_eq!(run("print \"a\" - 1;"), vec!["Operands must be numbers. [line 1]"]);
    assert_eq!(run("print \"a\" < \"b\";"), vec!["Operands must be numbers. [line 1]"]);
    assert_eq!(run("print true * 2;"), vec!["Operands must be numbers. [line 1]"]);
    assert_eq!(run("print 1 / nil;"), vec!["Operands must be numbers. [line 1]"]);
    assert_eq!(run("\n\nprint -nil;"), vec!["Operand must be a number. [line 3]"]);
}

#[test]
fn an_error_in_the_left_operand_stops_before_the_right_one() {
    assert_eq!(run("var a = 1; print (1 + nil) + (a = 2); print a;"), vec![
        "Operands must be two numbers or two strings. [line 1]",
        "1"
    ]);
}

#[test]
fn the_interpreter_keeps_its_bindings_between_programs() {
    let values = Arena::new();
    let mut interpreter = Interpreter::new(&values);
    let mut all = Vec::new();
    for source in ["var a = 1;", "a = a + 1;", "print a;"] {
        let (tokens, _) = Scanner::new(source.as_bytes().to_vec()).scan_tokens();
        let expressions = Arena::new();
        let mut parser = Parser::new(&tokens);
        let statements = parser.parse(&expressions).unwrap();
        let mut execution = interpreter.interpret(&statements);
        all.extend(drive(&mut execution));
        interpreter = execution.finish();
    }
    assert_eq!(all, vec!["2"]);
}

#[test]
fn a_number_is_awaited_until_it_comes() {
    let (tokens, _) = Scanner::new(b"print 1 + 2;".to_vec()).scan_tokens();
    let expressions = Arena::new();
    let mut parser = Parser::new(&tokens);
    let statements = parser.parse(&expressions).unwrap();
    let values = Arena::new();
    let mut execution = Interpreter::new(&values).interpret(&statements);
    let mut event = Event::Resume;
    let mut asked = 0;
    let mut printed = Vec::new();
    loop {
        match execution.step(event) {
            Action::Convert(numeral) => {
                asked += 1;
                // Ask again before answering: the same request comes back.
                match execution.step(Event::Resume) {
                    Action::Convert(again) => assert_eq!(again, numeral),
                    other => panic!("unexpected action {:?}", other),
                }
                event = Event::Number(numeral.parse::<f64>().unwrap().to_bits());
            }
            Action::Calculate { operation, left, right } => {
                assert_eq!(operation, Operation::Add);
                assert_eq!((f64::from_bits(left), f64::from_bits(right)), (1.0, 2.0));
                match execution.step(Event::Resume) {
                    Action::Calculate { operation: Operation::Add, left: l, right: r } => {
                        assert_eq!((l, r), (left, right))
                    }
                    other => panic!("unexpected action {:?}", other),
                }
                event = Event::Number(3.0f64.to_bits());
            }
            Action::Print(Output::Number(bits)) => {
                printed.push(f64::from_bits(bits));
                event = Event::Resume;
            }
            Action::Finished => break,
            Action::Continue => event = Event::Resume,
            other => panic!("unexpected action {:?}", other),
        }
    }
    assert_eq!(asked, 2);
    assert_eq!(printed, vec![3.0]);
    assert!(matches!(execution.step(Event::Resume), Action::Finished));
}

#[test]
fn plus_dispatches_on_the_kinds_of_its_operands() {
    let plus = token(TokenType::Plus, "+", 7);
    match Interpreter::binary(&plus, &number(1.0), &number(2.0)) {
        Verdict::Calculate { operation, left, right } => {
            assert_eq!(operation, Operation::Add);
            assert_eq!(f64::from_bits(calculate(operation, left, right)), 3.0);
        }
        other => panic!("unexpected verdict {:?}", other),
    }
    match Interpreter::binary(&plus, &Value::String("a".into()), &Value::String("b".into())) {
        Verdict::Value(Value::String(text)) => assert_eq!(text, "ab"),
        other => panic!("unexpected verdict {:?}", other),
    }
    match Interpreter::binary(&plus, &number(1.0), &Value::String("a".into())) {
        Verdict::Failure(RuntimeError { token_line, message }) => {
            assert_eq!(token_line, 7);
            assert_eq!(message, "Operands must be two numbers or two strings.");
        }
        other => panic!("unexpected verdict {:?}", other),
    }
}

#[test]
fn binary_operators_on_numbers() {
    let cases = [
        (TokenType::Minus, Operation::Subtract),
        (TokenType::Star, Operation::Multiply),
        (TokenType::Slash, Operation::Divide),
    ];
    for (kind, expected) in cases {
        match Interpreter::binary(&token(kind, "", 1), &number(6.0), &number(3.0)) {
            Verdict::Calculate { operation, left, right } => {
                assert_eq!(operation, expected);
                assert_eq!((f64::from_bits(left), f64::from_bits(right)), (6.0, 3.0));
            }
            other => panic!("unexpected verdict {:?}", other),
        }
        match Interpreter::binary(&token(kind, "", 4), &Value::Nil, &number(3.0)) {
            Verdict::Failure(error) => {
                assert_eq!(error.message, "Operands must be numbers.");
                assert_eq!(error.token_line, 4);
            }
            other => panic!("unexpected verdict {:?}", other),
        }
    }
    let order = [
        (TokenType::Greater, 2.0, 1.0, true),
        (TokenType::Greater, 1.0, 1.0, false),
        (TokenType::GreaterEqual, 1.0, 1.0, true),
        (TokenType::Less, 1.0, 2.0, true),
        (TokenType::Less, 2.0, 2.0, false),
        (TokenType::LessEqual, 2.0, 2.0, true),
        (TokenType::LessEqual, 3.0, 2.0, false),
    ];
    for (kind, a, b, expected) in order {
        match Interpreter::binary(&token(kind, "", 1), &number(a), &number(b)) {
            Verdict::Value(Value::Bool(found)) => assert_eq!(found, expected),
            other => panic!("unexpected verdict {:?}", other),
        }
    }
}

#[test]
fn unary_operators() {
    let bang = token(TokenType::Bang, "!", 1);
    let minus = token(TokenType::Minus, "-", 2);
    assert!(matches!(Interpreter::unary(&bang, &Value::Nil), Ok(Value::Bool(true))));
    assert!(matches!(Interpreter::unary(&bang, &number(0.0)), Ok(Value::Bool(false))));
    assert!(matches!(Interpreter::unary(&bang, &Value::String(String::new())), Ok(Value::Bool(false))));
    assert!(matches!(Interpreter::unary(&bang, &Value::Bool(false)), Ok(Value::Bool(true))));
    match Interpreter::unary(&minus, &number(3.5)) {
        Ok(Value::Number(bits)) => assert_eq!(f64::from_bits(bits), -3.5),
        other => panic!("unexpected result {:?}", other),
    }
    match Interpreter::unary(&minus, &Value::Bool(true)) {
        Err(error) => {
            assert_eq!(error.message, "Operand must be a number.");
            assert_eq!(error.token_line, 2);
        }
        other => panic!("unexpected result {:?}", other),
    }
}

#[test]
fn helpers_on_values() {
    assert!(!Interpreter::is_truthy(&Value::Nil));
    assert!(!Interpreter::is_truthy(&Value::Bool(false)));
    assert!(Interpreter::is_truthy(&Value::Bool(true)));
    assert!(Interpreter::is_truthy(&number(0.0)));
    assert!(Interpreter::is_truthy(&Value::String(String::new())));
    assert!(Interpreter::is_equal(&Value::Nil, &Value::Nil));
    assert!(Interpreter::is_equal(&number(0.0), &number(-0.0)));
    assert!(!Interpreter::is_equal(&number(f64::NAN), &number(f64::NAN)));
    assert!(!Interpreter::is_equal(&Value::Nil, &Value::Bool(false)));
    assert!(Interpreter::is_equal(&Value::String("x".into()), &Value::String("x".into())));
    assert!(matches!(Interpreter::stringify(&Value::Nil), Output::Text(t) if t == "nil"));
    assert!(matches!(Interpreter::stringify(&Value::Bool(true)), Output::Text(t) if t == "true"));
    assert!(matches!(Interpreter::stringify(&Value::Bool(false)), Output::Text(t) if t == "false"));
    assert!(matches!(Interpreter::stringify(&Value::String("s".into())), Output::Text(t) if t == "s"));
    assert!(matches!(Interpreter::stringify(&number(5.0)), Output::Number(b) if f64::from_bits(b) == 5.0));
    let star = token(TokenType::Star, "*", 9);
    assert_eq!(Interpreter::check_number_operand(&star, &number(2.0)).unwrap(), 2.0f64.to_bits());
    assert_eq!(
        Interpreter::check_number_operand(&star, &Value::Nil).unwrap_err().message,
        "Operand must be a number."
    );
    assert_eq!(
        Interpreter::check_number_operands(&star, &number(2.0), &number(3.0)).unwrap(),
        (2.0f64.to_bits(), 3.0f64.to_bits())
    );
    assert_eq!(
        Interpreter::check_number_operands(&star, &number(2.0), &Value::Nil).unwrap_err().token_line,
        9
    );
}

#[test]
fn runtime_error_takes_the_line_of_its_token() {
    let error = RuntimeError::new(&token(TokenType::Plus, "+", 12), "broken".to_string());
    assert_eq!(error.token_line, 12);
    assert_eq!(error.message, "broken");
    let error = RuntimeError::undefined(&token(TokenType::Identifier, "x", 3));
    assert_eq!(error.message, "Undefined variable 'x'.");
    assert_eq!(error.token_line, 3);
}

#[test]
fn malformed_trees_are_told_apart() {
    let plus = token(TokenType::Plus, "+", 1);
    let one = Literal::Number("1".to_string());
    let operand = Expr::Literal(&one);
    let bad = Expr::Unary { operator: &plus, right: &operand };
    let good = Expr::Binary { left: &operand, operator: &plus, right: &operand };
    assert!(!rusty_lox::semantics::expression_is_well_formed(&bad));
    assert!(rusty_lox::semantics::expression_is_well_formed(&good));
    let statements = vec![rusty_lox::stmt::Stmt::Block {
        statements: vec![rusty_lox::stmt::Stmt::Print(&good), rusty_lox::stmt::Stmt::Expression(&bad)],
    }];
    assert!(!statements_are_well_formed(&statements));
}

#[test]
fn precedence_decides_the_value() {
    assert_eq!(run("print 1 + 2 * 3 == 7; print (1 + 2) * 3 == 7;"), vec!["true", "false"]);
}

#[test]
fn a_block_changes_outer_bindings_only_by_assignment_before_it_redeclares() {
    assert_eq!(
        run("var a = 1; var b = 1; { a = 5; var a = 2; a = 3; var c = 4; print a; print b; } print a; print b; print c;"),
        vec!["3", "1", "5", "1", "Undefined variable 'c'. [line 1]"]
    );
}

#[test]
fn a_failing_block_stops_at_its_first_error_and_leaves_outer_names_as_they_were() {
    assert_eq!(
        run("var a = 1; { var a = 2; var d = 3; a = 4; print a; print -nil; a = 9; print a; } print a; print d;"),
        vec!["4", "Operand must be a number. [line 1]", "1", "Undefined variable 'd'. [line 1]"]
    );
}

#[test]
fn nested_blocks_each_return_to_the_scope_around_them() {
    assert_eq!(
        run("var a = 1; { var a = 2; { var a = 3; print a; } print a; { a = 7; } print a; } print a;"),
        vec!["3", "2", "7", "1"]
    );
}
