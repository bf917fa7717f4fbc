use rusty_lox::literal::Literal;
use rusty_lox::scanner::{LexicalError, ScanError, Scanner};
use rusty_lox::token::Token;
use rusty_lox::token_type::TokenType;

fn scan(source: &str) -> (Vec<Token>, Vec<ScanError>) {
    Scanner::new(source.as_bytes().to_vec()).scan_tokens()
}

fn kinds(tokens: &[Token]) -> Vec<TokenType> {
    tokens.iter().map(|t| t.kind).collect()
}

#[test]
fn empty_source_is_one_eof_on_line_one() {
    let (tokens, errors) = scan("");
    assert_eq!(kinds(&tokens), vec![TokenType::Eof]);
    assert_eq!(tokens[0].line, 1);
    assert_eq!(tokens[0].lexeme, "");
    assert!(errors.is_empty());
}

#[test]
fn single_character_tokens() {
    let (tokens, errors) = scan("(){},.-+;*/");
    assert_eq!(
        kinds(&tokens),
        vec![
            TokenType::LeftParen,
            TokenType::RightParen,
            TokenType::LeftBrace,
            TokenType::RightBrace,
            TokenType::Comma,
            TokenType::Dot,
            TokenType::Minus,
            TokenType::Plus,
            TokenType::Semicolon,
            TokenType::Star,
            TokenType::Slash,
            TokenType::Eof,
        ]
    );
    assert!(errors.is_empty());
}

#[test]
fn one_or_two_character_operators() {
    let (tokens, _) = scan("! != = == < <= > >=");
    assert_eq!(
        kinds(&tokens),
        vec![
            TokenType::Bang,
            TokenType::BangEqual,
            TokenType::Equal,
            TokenType::EqualEqual,
            TokenType::Less,
            TokenType::LessEqual,
            TokenType::Greater,
            TokenType::GreaterEqual,
            TokenType::Eof,
        ]
    );
    assert_eq!(tokens[1].lexeme, "!=");
    assert_eq!(tokens[3].lexeme, "==");
}

#[test]
fn comment_runs_to_end_of_line() {
    let (tokens, errors) = scan("1 // two three\n4");
    assert_eq!(kinds(&tokens), vec![TokenType::Number, TokenType::Number, TokenType::Eof]);
    assert_eq!(tokens[1].lexeme, "4");
    assert_eq!(tokens[1].line, 2);
    assert!(errors.is_empty());
}

#[test]
fn quoted_string_is_one_token_with_quotes_in_lexeme() {
    let (tokens, errors) = scan("\"hello world\"");
    assert_eq!(kinds(&tokens), vec![TokenType::String, TokenType::Eof]);
    assert_eq!(tokens[0].lexeme, "\"hello world\"");
    match &tokens[0].literal {
        Literal::String(text) => assert_eq!(text, "hello world"),
        other => panic!("unexpected literal {:?}", other),
    }
    assert_eq!(tokens[0].line, 1);
    assert!(errors.is_empty());
}

#[test]
fn string_keeps_text_beyond_ascii() {
    let (tokens, errors) = scan("\"caf\u{e9} \u{1F600}\"");
    assert_eq!(kinds(&tokens), vec![TokenType::String, TokenType::Eof]);
    match &tokens[0].literal {
        Literal::String(text) => assert_eq!(text, "caf\u{e9} \u{1F600}"),
        other => panic!("unexpected literal {:?}", other),
    }
    assert!(errors.is_empty());
}

#[test]
fn string_with_line_feed_sits_on_its_last_line() {
    let (tokens, errors) = scan("\"a\nb\" x");
    assert_eq!(kinds(&tokens), vec![TokenType::String, TokenType::Identifier, TokenType::Eof]);
    assert_eq!(tokens[0].line, 2);
    assert_eq!(tokens[1].line, 2);
    assert!(errors.is_empty());
}

#[test]
fn unterminated_string_is_reported_and_emits_no_token() {
    let (tokens, errors) = scan("1 \"abc\ndef");
    assert_eq!(kinds(&tokens), vec![TokenType::Number, TokenType::Eof]);
    assert_eq!(errors, vec![ScanError { line: 2, kind: LexicalError::UnterminatedString }]);
    assert_eq!(tokens[1].line, 2);
    assert_eq!(errors[0].kind.to_string(), "Unterminated string.");
}

#[test]
fn unexpected_characters_are_reported_and_scanning_goes_on() {
    let (tokens, errors) = scan("1 @ 2\n# 3");
    assert_eq!(
        kinds(&tokens),
        vec![TokenType::Number, TokenType::Number, TokenType::Number, TokenType::Eof]
    );
    assert_eq!(
        errors,
        vec![
            ScanError { line: 1, kind: LexicalError::UnexpectedCharacter },
            ScanError { line: 2, kind: LexicalError::UnexpectedCharacter },
        ]
    );
    assert_eq!(errors[0].kind.to_string(), "Unexpected character.");
}

#[test]
fn numbers_keep_their_numerals() {
    let (tokens, _) = scan("5 45.67 123");
    let numerals: Vec<String> = tokens
        .iter()
        .filter_map(|t| match &t.literal {
            Literal::Number(numeral) => Some(numeral.clone()),
            _ => None,
        })
        .collect();
    assert_eq!(numerals, vec!["5", "45.67", "123"]);
    assert_eq!(tokens[1].lexeme, "45.67");
}

#[test]
fn trailing_point_is_left_for_a_dot_token() {
    let (tokens, errors) = scan("5.");
    assert_eq!(kinds(&tokens), vec![TokenType::Number, TokenType::Dot, TokenType::Eof]);
    assert_eq!(tokens[0].lexeme, "5");
    assert!(errors.is_empty());
}

#[test]
fn leading_point_is_a_dot_token() {
    let (tokens, _) = scan(".5");
    assert_eq!(kinds(&tokens), vec![TokenType::Dot, TokenType::Number, TokenType::Eof]);
}

#[test]
fn keywords_and_identifiers() {
    let (tokens, _) = scan(
        "and class else false for fun if nil or print return super this true var while andy _x x1",
    );
    assert_eq!(
        kinds(&tokens),
        vec![
            TokenType::And,
            TokenType::Class,
            TokenType::Else,
            TokenType::False,
            TokenType::For,
            TokenType::Fun,
            TokenType::If,
            TokenType::Nil,
            TokenType::Or,
            TokenType::Print,
            TokenType::Return,
            TokenType::Super,
            TokenType::This,
            TokenType::True,
            TokenType::Var,
            TokenType::While,
            TokenType::Identifier,
            TokenType::Identifier,
            TokenType::Identifier,
            TokenType::Eof,
        ]
    );
    assert_eq!(tokens[16].lexeme, "andy");
}

#[test]
fn white_space_is_discarded_and_line_feeds_counted() {
    let (tokens, _) = scan(" \t\r\n\n x");
    assert_eq!(kinds(&tokens), vec![TokenType::Identifier, TokenType::Eof]);
    assert_eq!(tokens[0].line, 3);
    assert_eq!(tokens[1].line, 3);
}

#[test]
fn bytes_that_are_not_text_outside_strings_are_unexpected() {
    let (tokens, errors) = Scanner::new(vec![0xff, b'1']).scan_tokens();
    assert_eq!(kinds(&tokens), vec![TokenType::Number, TokenType::Eof]);
    assert_eq!(errors.len(), 1);
}

#[test]
fn token_kind_names() {
    assert_eq!(TokenType::LeftParen.to_string(), "LEFT_PAREN");
    assert_eq!(TokenType::BangEqual.to_string(), "BANG_EQUAL");
    assert_eq!(TokenType::Identifier.to_string(), "IDENTIFIER");
    assert_eq!(TokenType::Eof.to_string(), "EOF");
    assert_eq!(TokenType::While.to_string(), "WHILE");
}

#[test]
fn bytes_that_are_not_text_inside_a_string_are_replaced() {
    let (tokens, errors) = Scanner::new(vec![b'"', b'a', 0xff, b'b', b'"']).scan_tokens();
    assert_eq!(kinds(&tokens), vec![TokenType::String, TokenType::Eof]);
    match &tokens[0].literal {
        Literal::String(text) => assert_eq!(text, "a\u{fffd}b"),
        other => panic!("unexpected literal {:?}", other),
    }
    assert_eq!(tokens[0].lexeme, "\"a\u{fffd}b\"");
    assert!(errors.is_empty());
}

#[test]
fn a_numeral_is_one_number_token() {
    for numeral in ["0", "5", "123", "45.67", "0.5", "10.000"] {
        let (tokens, errors) = scan(numeral);
        assert_eq!(kinds(&tokens), vec![TokenType::Number, TokenType::Eof]);
        assert_eq!(tokens[0].lexeme, numeral);
        assert!(matches!(&tokens[0].literal, Literal::Number(n) if n == numeral));
        assert_eq!(tokens[0].line, 1);
        assert!(errors.is_empty());
    }
}

#[test]
fn scanned_numerals_read_as_numbers() {
    let (tokens, _) = scan("5");
    let value: f64 = match &tokens[0].literal {
        Literal::Number(numeral) => numeral.parse().unwrap(),
        other => panic!("unexpected literal {:?}", other),
    };
    assert_eq!(value, 5.0);
    assert_eq!(format!("{:?}", value), "5.0");
    assert_eq!(format!("{}", value), "5");
}

#[test]
fn only_the_last_token_is_the_end_of_the_file() {
    let (tokens, _) = scan("var a = 1;\n// done\n");
    let ends = tokens.iter().filter(|t| t.kind == TokenType::Eof).count();
    assert_eq!(ends, 1);
    assert_eq!(tokens.last().unwrap().kind, TokenType::Eof);
    assert_eq!(tokens.last().unwrap().line, 3);
}

#[test]
fn lexemes_are_stretches_of_the_source_in_order() {
    let source = "var total = (12.5 + x1) >= \"t\u{e9}xt\"; // note\nprint !done;";
    let (tokens, errors) = scan(source);
    assert!(errors.is_empty());
    let mut from = 0;
    for token in &tokens[..tokens.len() - 1] {
        let at = source[from..].find(token.lexeme.as_str()).expect("lexeme not in source");
        // Only white space and comments lie between one lexeme and the next.
        let between = &source[from..from + at];
        assert!(between.trim().is_empty() || between.trim_start().starts_with("//"));
        from += at + token.lexeme.len();
    }
    assert_eq!(tokens.last().unwrap().lexeme, "");
    let lexemes: Vec<&str> = tokens.iter().map(|t| t.lexeme.as_str()).collect();
    assert_eq!(
        lexemes,
        vec![
            "var", "total", "=", "(", "12.5", "+", "x1", ")", ">=", "\"t\u{e9}xt\"", ";", "print",
            "!", "done", ";", ""
        ]
    );
}
