//! The scanner: source bytes to tokens, in one pass from left to right.
//!
//! What the scanner produces is defined by [`scan`], a function of the source
//! alone; [`Scanner::scan_tokens`] is proved to compute it.

use crate::literal::{Literal, LiteralModel};
use crate::text::{
    decode, lemma_encoding_of_char, lemma_encoding_of_concatenation, lemma_encoding_without,
    lemma_text_of_encoding, text_of,
};
use crate::token::{Token, TokenModel};
use crate::token_type::TokenType;
use vstd::prelude::*;
use vstd::slice::slice_subrange;
use vstd::string::*;
use vstd::utf8::encode_utf8;

verus! {

// The bytes that the scanner tells apart.
pub const LEFT_PAREN: u8 = 40;
pub const RIGHT_PAREN: u8 = 41;
pub const LEFT_BRACE: u8 = 123;
pub const RIGHT_BRACE: u8 = 125;
pub const COMMA: u8 = 44;
pub const DOT: u8 = 46;
pub const MINUS: u8 = 45;
pub const PLUS: u8 = 43;
pub const SEMICOLON: u8 = 59;
pub const STAR: u8 = 42;
pub const BANG: u8 = 33;
pub const EQUAL: u8 = 61;
pub const LESS: u8 = 60;
pub const GREATER: u8 = 62;
pub const SLASH: u8 = 47;
pub const SPACE: u8 = 32;
pub const CARRIAGE_RETURN: u8 = 13;
pub const TAB: u8 = 9;
pub const LINE_FEED: u8 = 10;
pub const QUOTE: u8 = 34;
pub const DIGIT_0: u8 = 48;
pub const DIGIT_9: u8 = 57;
pub const LOWER_A: u8 = 97;
pub const LOWER_Z: u8 = 122;
pub const UPPER_A: u8 = 65;
pub const UPPER_Z: u8 = 90;
pub const UNDERSCORE: u8 = 95;

/// The two ways in which a byte sequence can fail to be a token.
#[derive(Debug, Clone, Copy, PartialEq, Eq, Structural)]
pub enum LexicalError {
    UnexpectedCharacter,
    UnterminatedString,
}

/// A lexical error and the line on which the scanner met it.
#[derive(Debug, Clone, Copy, PartialEq, Eq, Structural)]
pub struct ScanError {
    pub line: usize,
    pub kind: LexicalError,
}

pub struct ScanErrorModel {
    pub line: nat,
    pub kind: LexicalError,
}

impl View for ScanError {
    type V = ScanErrorModel;

    open spec fn view(&self) -> ScanErrorModel {
        ScanErrorModel { line: self.line as nat, kind: self.kind }
    }
}

impl LexicalError {
    pub open spec fn message(self) -> Seq<char> {
        match self {
            LexicalError::UnexpectedCharacter => "Unexpected character."@,
            LexicalError::UnterminatedString => "Unterminated string."@,
        }
    }

    pub fn to_string(&self) -> (text: String)
        ensures
            text@ == self.message(),
    {
        match self {
            LexicalError::UnexpectedCharacter => String::from_str("Unexpected character."),
            LexicalError::UnterminatedString => String::from_str("Unterminated string."),
        }
    }
}

/// The classes of byte that the scanner consumes in runs.
pub enum Class {
    Digit,
    AlphaNumeric,
    /// Anything but a line feed: the body of a comment.
    CommentBody,
    /// Anything but a double quote: the body of a string.
    StringBody,
}

pub open spec fn is_digit(c: u8) -> bool {
    DIGIT_0 <= c <= DIGIT_9
}

pub open spec fn is_alpha(c: u8) -> bool {
    (LOWER_A <= c <= LOWER_Z) || (UPPER_A <= c <= UPPER_Z) || c == UNDERSCORE
}

pub open spec fn is_alpha_numeric(c: u8) -> bool {
    is_alpha(c) || is_digit(c)
}

impl Class {
    pub open spec fn holds(self, c: u8) -> bool {
        match self {
            Class::Digit => is_digit(c),
            Class::AlphaNumeric => is_alpha_numeric(c),
            Class::CommentBody => c != LINE_FEED,
            Class::StringBody => c != QUOTE,
        }
    }
}

/// Where the run of bytes of `class` that starts at `pos` ends: the first
/// position at or after `pos` whose byte is not in the class, or the end of
/// the source.
pub open spec fn run_end(source: Seq<u8>, pos: int, class: Class) -> int
    decreases source.len() - pos,
{
    if 0 <= pos < source.len() && class.holds(source[pos]) {
        run_end(source, pos + 1, class)
    } else {
        pos
    }
}

/// The number of line feeds among the bytes from `from` up to `to`.
pub open spec fn line_feeds(source: Seq<u8>, from: int, to: int) -> nat
    decreases to - from,
{
    if to <= from || to > source.len() || from < 0 {
        0
    } else {
        line_feeds(source, from, to - 1) + if source[to - 1] == LINE_FEED {
            1nat
        } else {
            0nat
        }
    }
}

/// The reserved word that `word` spells, if it spells one.
pub open spec fn keyword(word: Seq<char>) -> Option<TokenType> {
    if word == "and"@ {
        Some(TokenType::And)
    } else if word == "class"@ {
        Some(TokenType::Class)
    } else if word == "else"@ {
        Some(TokenType::Else)
    } else if word == "false"@ {
        Some(TokenType::False)
    } else if word == "for"@ {
        Some(TokenType::For)
    } else if word == "fun"@ {
        Some(TokenType::Fun)
    } else if word == "if"@ {
        Some(TokenType::If)
    } else if word == "nil"@ {
        Some(TokenType::Nil)
    } else if word == "or"@ {
        Some(TokenType::Or)
    } else if word == "print"@ {
        Some(TokenType::Print)
    } else if word == "return"@ {
        Some(TokenType::Return)
    } else if word == "super"@ {
        Some(TokenType::Super)
    } else if word == "this"@ {
        Some(TokenType::This)
    } else if word == "true"@ {
        Some(TokenType::True)
    } else if word == "var"@ {
        Some(TokenType::Var)
    } else if word == "while"@ {
        Some(TokenType::While)
    } else {
        None
    }
}

/// What scanning one lexeme yields: where the next lexeme starts, the line
/// reached, and the token or the error, if either.
pub struct Lexeme {
    pub end: int,
    pub line: nat,
    pub token: Option<TokenModel>,
    pub error: Option<ScanErrorModel>,
}

/// The token of the given kind whose lexeme is the source from `start` up to
/// `end`.
pub open spec fn token_at(
    source: Seq<u8>,
    start: int,
    end: int,
    line: nat,
    kind: TokenType,
    literal: LiteralModel,
) -> Lexeme {
    Lexeme {
        end,
        line,
        token: Some(
            TokenModel { kind, lexeme: text_of(source.subrange(start, end)), literal, line },
        ),
        error: None,
    }
}

/// An operator of one byte, or of two where `=` follows.
pub open spec fn operator_at(
    source: Seq<u8>,
    start: int,
    line: nat,
    with_equal: TokenType,
    alone: TokenType,
) -> Lexeme {
    if start + 1 < source.len() && source[start + 1] == EQUAL {
        token_at(source, start, start + 2, line, with_equal, LiteralModel::Nil)
    } else {
        token_at(source, start, start + 1, line, alone, LiteralModel::Nil)
    }
}

/// Nothing to emit: white space or a comment, up to `end`.
pub open spec fn blank(end: int, line: nat) -> Lexeme {
    Lexeme { end, line, token: None, error: None }
}

/// A string that opens at `start`.  Its token, lexeme and literal alike, sits
/// on the line of the closing quote; without a closing quote there is no
/// token, and the error sits on the last line.
pub open spec fn string_at(source: Seq<u8>, start: int, line: nat) -> Lexeme {
    let close: int = run_end(source, start + 1, Class::StringBody);
    let last: nat = line + line_feeds(source, start + 1, close);
    if close >= source.len() {
        Lexeme {
            end: close,
            line: last,
            token: None,
            error: Some(ScanErrorModel { line: last, kind: LexicalError::UnterminatedString }),
        }
    } else {
        token_at(
            source,
            start,
            close + 1,
            last,
            TokenType::String,
            LiteralModel::String(text_of(source.subrange(start + 1, close))),
        )
    }
}

/// Where the numeral that starts at `start` ends: after its digits, and
/// after a point and further digits where a digit follows the point.
pub open spec fn number_end(source: Seq<u8>, start: int) -> int {
    let whole: int = run_end(source, start + 1, Class::Digit);
    if whole + 1 < source.len() && source[whole] == DOT && is_digit(source[whole + 1]) {
        run_end(source, whole + 1, Class::Digit)
    } else {
        whole
    }
}

pub open spec fn number_at(source: Seq<u8>, start: int, line: nat) -> Lexeme {
    let end: int = number_end(source, start);
    token_at(
        source,
        start,
        end,
        line,
        TokenType::Number,
        LiteralModel::Number(text_of(source.subrange(start, end))),
    )
}

pub open spec fn identifier_at(source: Seq<u8>, start: int, line: nat) -> Lexeme {
    let end: int = run_end(source, start + 1, Class::AlphaNumeric);
    let kind: TokenType = match keyword(text_of(source.subrange(start, end))) {
        Some(kind) => kind,
        None => TokenType::Identifier,
    };
    token_at(source, start, end, line, kind, LiteralModel::Nil)
}

/// The lexeme that starts at `start`, on line `line`.
pub open spec fn lexeme_at(source: Seq<u8>, start: int, line: nat) -> Lexeme
    recommends
        0 <= start < source.len(),
{
    let c: u8 = source[start];
    let next: int = start + 1;
    if c == LEFT_PAREN {
        token_at(source, start, next, line, TokenType::LeftParen, LiteralModel::Nil)
    } else if c == RIGHT_PAREN {
        token_at(source, start, next, line, TokenType::RightParen, LiteralModel::Nil)
    } else if c == LEFT_BRACE {
        token_at(source, start, next, line, TokenType::LeftBrace, LiteralModel::Nil)
    } else if c == RIGHT_BRACE {
        token_at(source, start, next, line, TokenType::RightBrace, LiteralModel::Nil)
    } else if c == COMMA {
        token_at(source, start, next, line, TokenType::Comma, LiteralModel::Nil)
    } else if c == DOT {
        token_at(source, start, next, line, TokenType::Dot, LiteralModel::Nil)
    } else if c == MINUS {
        token_at(source, start, next, line, TokenType::Minus, LiteralModel::Nil)
    } else if c == PLUS {
        token_at(source, start, next, line, TokenType::Plus, LiteralModel::Nil)
    } else if c == SEMICOLON {
        token_at(source, start, next, line, TokenType::Semicolon, LiteralModel::Nil)
    } else if c == STAR {
        token_at(source, start, next, line, TokenType::Star, LiteralModel::Nil)
    } else if c == BANG {
        operator_at(source, start, line, TokenType::BangEqual, TokenType::Bang)
    } else if c == EQUAL {
        operator_at(source, start, line, TokenType::EqualEqual, TokenType::Equal)
    } else if c == LESS {
        operator_at(source, start, line, TokenType::LessEqual, TokenType::Less)
    } else if c == GREATER {
        operator_at(source, start, line, TokenType::GreaterEqual, TokenType::Greater)
    } else if c == SLASH {
        if next < source.len() && source[next] == SLASH {
            blank(run_end(source, next + 1, Class::CommentBody), line)
        } else {
            token_at(source, start, next, line, TokenType::Slash, LiteralModel::Nil)
        }
    } else if c == SPACE || c == CARRIAGE_RETURN || c == TAB {
        blank(next, line)
    } else if c == LINE_FEED {
        blank(next, line + 1)
    } else if c == QUOTE {
        string_at(source, start, line)
    } else if is_digit(c) {
        number_at(source, start, line)
    } else if is_alpha(c) {
        identifier_at(source, start, line)
    } else {
        Lexeme {
            end: next,
            line,
            token: None,
            error: Some(ScanErrorModel { line, kind: LexicalError::UnexpectedCharacter }),
        }
    }
}

/// The tokens and the errors of a scan.
pub struct Scan {
    pub tokens: Seq<TokenModel>,
    pub errors: Seq<ScanErrorModel>,
}

pub open spec fn end_of_file(line: nat) -> TokenModel {
    TokenModel { kind: TokenType::Eof, lexeme: Seq::empty(), literal: LiteralModel::Nil, line }
}

pub open spec fn one_or_none<T>(item: Option<T>) -> Seq<T> {
    match item {
        Some(item) => seq![item],
        None => Seq::empty(),
    }
}

/// The scan of the source from `start` on, where `start` is on line `line`:
/// the lexemes in order, then the end-of-file token on the last line reached.
pub open spec fn scan_from(source: Seq<u8>, start: int, line: nat) -> Scan
    decreases source.len() - start,
{
    if start < 0 || start >= source.len() {
        Scan { tokens: seq![end_of_file(line)], errors: Seq::empty() }
    } else {
        let lexeme: Lexeme = lexeme_at(source, start, line);
        if lexeme.end <= start || lexeme.end > source.len() {
            // Never taken, as `lemma_lexeme_advances` shows.
            Scan { tokens: seq![end_of_file(line)], errors: Seq::empty() }
        } else {
            let rest: Scan = scan_from(source, lexeme.end, lexeme.line);
            Scan {
                tokens: one_or_none(lexeme.token) + rest.tokens,
                errors: one_or_none(lexeme.error) + rest.errors,
            }
        }
    }
}

/// The scan of a whole source, which starts on line 1.
pub open spec fn scan(source: Seq<u8>) -> Scan {
    scan_from(source, 0, 1)
}

pub open spec fn token_models(tokens: Seq<Token>) -> Seq<TokenModel> {
    tokens.map_values(|t: Token| t@)
}

pub open spec fn error_models(errors: Seq<ScanError>) -> Seq<ScanErrorModel> {
    errors.map_values(|e: ScanError| e@)
}

pub struct Scanner {
    source: Vec<u8>,
    tokens: Vec<Token>,
    errors: Vec<ScanError>,
    start: usize,
    current: usize,
    line: usize,
}

impl Scanner {
    /// The source being scanned.
    pub closed spec fn source(&self) -> Seq<u8> {
        self.source@
    }

    /// Nothing has been scanned yet: the scanner is at the start of its
    /// source, on line 1.
    pub closed spec fn fresh(&self) -> bool {
        &&& self.wf()
        &&& self.current == 0
        &&& self.line == 1
        &&& self.tokens@.len() == 0
        &&& self.errors@.len() == 0
    }

    spec fn wf(&self) -> bool {
        &&& self.start <= self.current <= self.source.len() < usize::MAX
        &&& 1 <= self.line <= self.current + 1
    }

    /// A scanner at the start of `source`.  The length of a source is less
    /// than the largest `usize`, so that its lines can be counted.
    pub fn new(source: Vec<u8>) -> (scanner: Scanner)
        requires
            source.len() < usize::MAX,
        ensures
            scanner.fresh(),
            scanner.source() == source@,
    {
        Scanner { source, tokens: Vec::new(), errors: Vec::new(), start: 0, current: 0, line: 1 }
    }

    /// Scans the source: the tokens and the lexical errors are exactly those
    /// of [`scan`].  The last token, and only the last, is the end of the
    /// file.
    pub fn scan_tokens(self) -> (out: (Vec<Token>, Vec<ScanError>))
        requires
            self.fresh(),
        ensures
            token_models(out.0@) == scan(self.source()).tokens,
            error_models(out.1@) == scan(self.source()).errors,
            out.0@.len() > 0,
            out.0@.last().kind == TokenType::Eof,
            forall|i: int| 0 <= i < out.0@.len() - 1 ==> (#[trigger] out.0@[i]).kind
                != TokenType::Eof,
    {
        let mut scanner = self;
        let ghost source: Seq<u8> = self.source@;
        let ghost whole: Scan = scan(source);
        assert(token_models(scanner.tokens@) =~= Seq::<TokenModel>::empty());
        assert(error_models(scanner.errors@) =~= Seq::<ScanErrorModel>::empty());
        assert(Seq::<TokenModel>::empty() + whole.tokens =~= whole.tokens);
        assert(Seq::<ScanErrorModel>::empty() + whole.errors =~= whole.errors);
        while !scanner.is_at_end()
            invariant
                scanner.wf(),
                scanner.source@ == source,
                whole.tokens == token_models(scanner.tokens@) + scan_from(
                    source,
                    scanner.current as int,
                    scanner.line as nat,
                ).tokens,
                whole.errors == error_models(scanner.errors@) + scan_from(
                    source,
                    scanner.current as int,
                    scanner.line as nat,
                ).errors,
            decreases scanner.source.len() - scanner.current,
        {
            let ghost lexeme: Lexeme = lexeme_at(
                source,
                scanner.current as int,
                scanner.line as nat,
            );
            let ghost rest: Scan = scan_from(source, lexeme.end, lexeme.line);
            let ghost tokens: Seq<TokenModel> = token_models(scanner.tokens@);
            let ghost errors: Seq<ScanErrorModel> = error_models(scanner.errors@);
            scanner.start = scanner.current;
            scanner.scan_token();
            assert(tokens + (one_or_none(lexeme.token) + rest.tokens) =~= (tokens + one_or_none(
                lexeme.token,
            )) + rest.tokens);
            assert(errors + (one_or_none(lexeme.error) + rest.errors) =~= (errors + one_or_none(
                lexeme.error,
            )) + rest.errors);
        }
        let token = Token {
            kind: TokenType::Eof,
            lexeme: String::from_str(""),
            literal: Literal::Nil,
            line: scanner.line,
        };
        proof {
            reveal_strlit("");
            assert(token@.lexeme =~= Seq::<char>::empty());
            assert(token@ == end_of_file(scanner.line as nat));
            assert(token_models(scanner.tokens@.push(token)) =~= token_models(scanner.tokens@)
                + seq![token@]);
            assert(whole.tokens =~= token_models(scanner.tokens@) + seq![token@]);
            assert(whole.errors =~= error_models(scanner.errors@));
            lemma_scan_ends_with_eof(source, 0, 1);
        }
        scanner.tokens.push(token);
        proof {
            assert forall|i: int| 0 <= i < scanner.tokens@.len() - 1 implies (
            #[trigger] scanner.tokens@[i]).kind != TokenType::Eof by {
                assert(token_models(scanner.tokens@)[i] == scanner.tokens@[i]@);
                assert(whole.tokens[i].kind != TokenType::Eof);
            }
        }
        (scanner.tokens, scanner.errors)
    }

    /// Scans the lexeme that starts at the current position.
    fn scan_token(&mut self)
        requires
            old(self).wf(),
            old(self).start == old(self).current,
            old(self).current < old(self).source.len(),
        ensures
            final(self).wf(),
            final(self).source@ == old(self).source@,
            ({
                let lexeme = lexeme_at(
                    old(self).source@,
                    old(self).current as int,
                    old(self).line as nat,
                );
                &&& final(self).current == lexeme.end
                &&& final(self).current > old(self).current
                &&& final(self).line == lexeme.line
                &&& token_models(final(self).tokens@) == token_models(old(self).tokens@)
                    + one_or_none(lexeme.token)
                &&& error_models(final(self).errors@) == error_models(old(self).errors@)
                    + one_or_none(lexeme.error)
            }),
    {
        let c: u8 = self.advance();
        if c == LEFT_PAREN {
            self.add_token(TokenType::LeftParen);
        } else if c == RIGHT_PAREN {
            self.add_token(TokenType::RightParen);
        } else if c == LEFT_BRACE {
            self.add_token(TokenType::LeftBrace);
        } else if c == RIGHT_BRACE {
            self.add_token(TokenType::RightBrace);
        } else if c == COMMA {
            self.add_token(TokenType::Comma);
        } else if c == DOT {
            self.add_token(TokenType::Dot);
        } else if c == MINUS {
            self.add_token(TokenType::Minus);
        } else if c == PLUS {
            self.add_token(TokenType::Plus);
        } else if c == SEMICOLON {
            self.add_token(TokenType::Semicolon);
        } else if c == STAR {
            self.add_token(TokenType::Star);
        } else if c == BANG {
            let kind = self.match_check(EQUAL, TokenType::BangEqual, TokenType::Bang);
            self.add_token(kind);
        } else if c == EQUAL {
            let kind = self.match_check(EQUAL, TokenType::EqualEqual, TokenType::Equal);
            self.add_token(kind);
        } else if c == LESS {
            let kind = self.match_check(EQUAL, TokenType::LessEqual, TokenType::Less);
            self.add_token(kind);
        } else if c == GREATER {
            let kind = self.match_check(EQUAL, TokenType::GreaterEqual, TokenType::Greater);
            self.add_token(kind);
        } else if c == SLASH {
            if self.match_byte(SLASH) {
                self.skip_run(Class::CommentBody);
                assert(token_models(self.tokens@) =~= token_models(old(self).tokens@)
                    + Seq::<TokenModel>::empty());
                assert(error_models(self.errors@) =~= error_models(old(self).errors@)
                    + Seq::<ScanErrorModel>::empty());
            } else {
                self.add_token(TokenType::Slash);
            }
        } else if c == SPACE || c == CARRIAGE_RETURN || c == TAB {
            assert(token_models(self.tokens@) =~= token_models(old(self).tokens@)
                + Seq::<TokenModel>::empty());
            assert(error_models(self.errors@) =~= error_models(old(self).errors@)
                + Seq::<ScanErrorModel>::empty());
        } else if c == LINE_FEED {
            self.line += 1;
            assert(token_models(self.tokens@) =~= token_models(old(self).tokens@)
                + Seq::<TokenModel>::empty());
            assert(error_models(self.errors@) =~= error_models(old(self).errors@)
                + Seq::<ScanErrorModel>::empty());
        } else if c == QUOTE {
            self.string();
        } else if Scanner::is_digit(c) {
            self.number();
        } else if Scanner::is_alpha(c) {
            self.identifier();
        } else {
            self.error(LexicalError::UnexpectedCharacter);
        }
    }

    /// Consumes the run of bytes of `class` at the current position.
    fn skip_run(&mut self, class: Class)
        requires
            old(self).wf(),
        ensures
            final(self).wf(),
            final(self).current == run_end(old(self).source@, old(self).current as int, class),
            final(self).current >= old(self).current,
            final(self).source == old(self).source,
            final(self).tokens == old(self).tokens,
            final(self).errors == old(self).errors,
            final(self).start == old(self).start,
            final(self).line == old(self).line,
    {
        while self.current < self.source.len() && Scanner::in_class(
            &class,
            self.source[self.current],
        )
            invariant
                self.wf(),
                self.current >= old(self).current,
                self.source == old(self).source,
                self.tokens == old(self).tokens,
                self.errors == old(self).errors,
                self.start == old(self).start,
                self.line == old(self).line,
                run_end(self.source@, self.current as int, class) == run_end(
                    old(self).source@,
                    old(self).current as int,
                    class,
                ),
            decreases self.source.len() - self.current,
        {
            self.current += 1;
        }
    }

    fn in_class(class: &Class, c: u8) -> (r: bool)
        ensures
            r == class.holds(c),
    {
        match class {
            Class::Digit => Scanner::is_digit(c),
            Class::AlphaNumeric => Scanner::is_alpha_numeric(c),
            Class::CommentBody => c != LINE_FEED,
            Class::StringBody => c != QUOTE,
        }
    }

    fn identifier(&mut self)
        requires
            old(self).wf(),
            old(self).start + 1 == old(self).current,
        ensures
            final(self).wf(),
            final(self).source@ == old(self).source@,
            final(self).current >= old(self).current,
            final(self).line == old(self).line,
            ({
                let lexeme = identifier_at(
                    old(self).source@,
                    old(self).start as int,
                    old(self).line as nat,
                );
                &&& final(self).current == lexeme.end
                &&& token_models(final(self).tokens@) == token_models(old(self).tokens@)
                    + one_or_none(lexeme.token)
                &&& error_models(final(self).errors@) == error_models(old(self).errors@)
                    + one_or_none(lexeme.error)
            }),
    {
        self.skip_run(Class::AlphaNumeric);
        let text: String = decode(
            slice_subrange(self.source.as_slice(), self.start, self.current),
        );
        let kind: TokenType = match Scanner::keyword(&text) {
            Some(kind) => kind,
            None => TokenType::Identifier,
        };
        self.add_token(kind);
    }

    /// Looks a word up among the reserved words.
    fn keyword(word: &String) -> (kind: Option<TokenType>)
        ensures
            kind == keyword(word@),
    {
        if *word == String::from_str("and") {
            Some(TokenType::And)
        } else if *word == String::from_str("class") {
            Some(TokenType::Class)
        } else if *word == String::from_str("else") {
            Some(TokenType::Else)
        } else if *word == String::from_str("false") {
            Some(TokenType::False)
        } else if *word == String::from_str("for") {
            Some(TokenType::For)
        } else if *word == String::from_str("fun") {
            Some(TokenType::Fun)
        } else if *word == String::from_str("if") {
            Some(TokenType::If)
        } else if *word == String::from_str("nil") {
            Some(TokenType::Nil)
        } else if *word == String::from_str("or") {
            Some(TokenType::Or)
        } else if *word == String::from_str("print") {
            Some(TokenType::Print)
        } else if *word == String::from_str("return") {
            Some(TokenType::Return)
        } else if *word == String::from_str("super") {
            Some(TokenType::Super)
        } else if *word == String::from_str("this") {
            Some(TokenType::This)
        } else if *word == String::from_str("true") {
            Some(TokenType::True)
        } else if *word == String::from_str("var") {
            Some(TokenType::Var)
        } else if *word == String::from_str("while") {
            Some(TokenType::While)
        } else {
            None
        }
    }

    fn number(&mut self)
        requires
            old(self).wf(),
            old(self).start + 1 == old(self).current,
        ensures
            final(self).wf(),
            final(self).source@ == old(self).source@,
            final(self).current >= old(self).current,
            final(self).line == old(self).line,
            ({
                let lexeme = number_at(
                    old(self).source@,
                    old(self).start as int,
                    old(self).line as nat,
                );
                &&& final(self).current == lexeme.end
                &&& token_models(final(self).tokens@) == token_models(old(self).tokens@)
                    + one_or_none(lexeme.token)
                &&& error_models(final(self).errors@) == error_models(old(self).errors@)
                    + one_or_none(lexeme.error)
            }),
    {
        self.skip_run(Class::Digit);
        // Look for a fractional part.
        if self.peek() == DOT && Scanner::is_digit(self.peek_next()) {
            // Consume the ".".
            self.advance();
            self.skip_run(Class::Digit);
        }
        let numeral: String = decode(
            slice_subrange(self.source.as_slice(), self.start, self.current),
        );
        self.add_token_with_literal(TokenType::Number, Literal::Number(numeral));
    }

    fn string(&mut self)
        requires
            old(self).wf(),
            old(self).start + 1 == old(self).current,
        ensures
            final(self).wf(),
            final(self).source@ == old(self).source@,
            final(self).current >= old(self).current,
            ({
                let lexeme = string_at(
                    old(self).source@,
                    old(self).start as int,
                    old(self).line as nat,
                );
                &&& final(self).current == lexeme.end
                &&& final(self).line == lexeme.line
                &&& token_models(final(self).tokens@) == token_models(old(self).tokens@)
                    + one_or_none(lexeme.token)
                &&& error_models(final(self).errors@) == error_models(old(self).errors@)
                    + one_or_none(lexeme.error)
            }),
    {
        let ghost opening: int = self.current as int;
        let ghost first_line: nat = self.line as nat;
        while self.peek() != QUOTE && !self.is_at_end()
            invariant
                self.start <= self.current <= self.source.len() < usize::MAX,
                opening <= self.current,
                opening == old(self).current,
                self.source == old(self).source,
                self.tokens == old(self).tokens,
                self.errors == old(self).errors,
                self.start == old(self).start,
                first_line == old(self).line,
                1 <= self.line,
                first_line <= opening + 1,
                self.line == first_line + line_feeds(self.source@, opening, self.current as int),
                self.line <= first_line + (self.current - opening),
                run_end(self.source@, self.current as int, Class::StringBody) == run_end(
                    self.source@,
                    opening,
                    Class::StringBody,
                ),
            decreases self.source.len() - self.current,
        {
            if self.peek() == LINE_FEED {
                self.line += 1;
            }
            self.advance();
        }
        if self.is_at_end() {
            self.error(LexicalError::UnterminatedString);
            return ;
        }
        // The closing quote.
        self.advance();
        // Trim the surrounding quotes.
        let value: String = decode(
            slice_subrange(self.source.as_slice(), self.start + 1, self.current - 1),
        );
        self.add_token_with_literal(TokenType::String, Literal::String(value));
    }

    fn match_byte(&mut self, expected: u8) -> (matched: bool)
        requires
            old(self).wf(),
        ensures
            final(self).wf(),
            matched == (old(self).current < old(self).source.len() && old(self).source[old(
                self,
            ).current as int] == expected),
            final(self).current == if matched {
                old(self).current + 1
            } else {
                old(self).current as int
            },
            final(self).source == old(self).source,
            final(self).tokens == old(self).tokens,
            final(self).errors == old(self).errors,
            final(self).start == old(self).start,
            final(self).line == old(self).line,
    {
        if self.is_at_end() {
            return false;
        }
        if self.source[self.current] != expected {
            return false;
        }
        self.current += 1;
        true
    }

    fn peek(&self) -> (c: u8)
        ensures
            c == if self.current < self.source.len() {
                self.source[self.current as int]
            } else {
                0u8
            },
    {
        if self.is_at_end() {
            0
        } else {
            self.source[self.current]
        }
    }

    fn peek_next(&self) -> (c: u8)
        requires
            self.current < usize::MAX,
        ensures
            c == if self.current + 1 < self.source.len() {
                self.source[self.current + 1]
            } else {
                0u8
            },
    {
        if self.current + 1 >= self.source.len() {
            0
        } else {
            self.source[self.current + 1]
        }
    }

    fn is_digit(c: u8) -> (r: bool)
        ensures
            r == is_digit(c),
    {
        DIGIT_0 <= c && c <= DIGIT_9
    }

    fn is_alpha(c: u8) -> (r: bool)
        ensures
            r == is_alpha(c),
    {
        (LOWER_A <= c && c <= LOWER_Z) || (UPPER_A <= c && c <= UPPER_Z) || c == UNDERSCORE
    }

    fn is_alpha_numeric(c: u8) -> (r: bool)
        ensures
            r == is_alpha_numeric(c),
    {
        Scanner::is_alpha(c) || Scanner::is_digit(c)
    }

    fn match_check(&mut self, expected: u8, match_type: TokenType, no_match_type: TokenType) -> (kind:
        TokenType)
        requires
            old(self).wf(),
        ensures
            final(self).wf(),
            (old(self).current < old(self).source.len() && old(self).source[old(
                self,
            ).current as int] == expected) ==> kind == match_type && final(self).current == old(
                self,
            ).current + 1,
            !(old(self).current < old(self).source.len() && old(self).source[old(
                self,
            ).current as int] == expected) ==> kind == no_match_type && final(self).current
                == old(self).current,
            final(self).source == old(self).source,
            final(self).tokens == old(self).tokens,
            final(self).errors == old(self).errors,
            final(self).start == old(self).start,
            final(self).line == old(self).line,
    {
        if self.match_byte(expected) {
            match_type
        } else {
            no_match_type
        }
    }

    fn is_at_end(&self) -> (r: bool)
        ensures
            r == (self.current >= self.source.len()),
    {
        self.current >= self.source.len()
    }

    fn advance(&mut self) -> (c: u8)
        requires
            old(self).current < old(self).source.len(),
        ensures
            c == old(self).source[old(self).current as int],
            final(self).current == old(self).current + 1,
            final(self).source == old(self).source,
            final(self).tokens == old(self).tokens,
            final(self).errors == old(self).errors,
            final(self).start == old(self).start,
            final(self).line == old(self).line,
    {
        let current: usize = self.current;
        self.current += 1;
        self.source[current]
    }

    fn error(&mut self, kind: LexicalError)
        ensures
            error_models(final(self).errors@) == error_models(old(self).errors@) + seq![
                ScanErrorModel { line: old(self).line as nat, kind },
            ],
            final(self).current == old(self).current,
            final(self).source == old(self).source,
            final(self).tokens == old(self).tokens,
            final(self).start == old(self).start,
            final(self).line == old(self).line,
            token_models(final(self).tokens@) == token_models(old(self).tokens@)
                + Seq::<TokenModel>::empty(),
    {
        let error = ScanError { line: self.line, kind };
        assert(error_models(self.errors@.push(error)) =~= error_models(self.errors@) + seq![
            error@,
        ]);
        assert(token_models(self.tokens@) =~= token_models(self.tokens@)
            + Seq::<TokenModel>::empty());
        self.errors.push(error);
    }

    fn add_token(&mut self, kind: TokenType)
        requires
            old(self).start <= old(self).current <= old(self).source.len(),
        ensures
            token_models(final(self).tokens@) == token_models(old(self).tokens@) + one_or_none(
                token_at(
                    old(self).source@,
                    old(self).start as int,
                    old(self).current as int,
                    old(self).line as nat,
                    kind,
                    LiteralModel::Nil,
                ).token,
            ),
            error_models(final(self).errors@) == error_models(old(self).errors@)
                + Seq::<ScanErrorModel>::empty(),
            final(self).current == old(self).current,
            final(self).source == old(self).source,
            final(self).errors == old(self).errors,
            final(self).start == old(self).start,
            final(self).line == old(self).line,
    {
        self.add_token_with_literal(kind, Literal::Nil);
    }

    fn add_token_with_literal(&mut self, kind: TokenType, literal: Literal)
        requires
            old(self).start <= old(self).current <= old(self).source.len(),
        ensures
            token_models(final(self).tokens@) == token_models(old(self).tokens@) + one_or_none(
                token_at(
                    old(self).source@,
                    old(self).start as int,
                    old(self).current as int,
                    old(self).line as nat,
                    kind,
                    literal@,
                ).token,
            ),
            error_models(final(self).errors@) == error_models(old(self).errors@)
                + Seq::<ScanErrorModel>::empty(),
            final(self).current == old(self).current,
            final(self).source == old(self).source,
            final(self).errors == old(self).errors,
            final(self).start == old(self).start,
            final(self).line == old(self).line,
    {
        let text: String = decode(
            slice_subrange(self.source.as_slice(), self.start, self.current),
        );
        let token = Token { kind, lexeme: text, literal, line: self.line };
        assert(token_models(self.tokens@.push(token)) =~= token_models(self.tokens@) + seq![
            token@,
        ]);
        assert(error_models(self.errors@) =~= error_models(self.errors@)
            + Seq::<ScanErrorModel>::empty());
        self.tokens.push(token);
    }
}

/// A run ends at `end` when every byte from `pos` up to `end` is in the class
/// and the byte at `end`, if there is one, is not.
pub proof fn lemma_run_end(source: Seq<u8>, pos: int, end: int, class: Class)
    requires
        0 <= pos <= end <= source.len(),
        forall|i: int| pos <= i < end ==> class.holds(#[trigger] source[i]),
        end < source.len() ==> !class.holds(source[end]),
    ensures
        run_end(source, pos, class) == end,
    decreases end - pos,
{
    if pos < end {
        assert(class.holds(source[pos]));
        lemma_run_end(source, pos + 1, end, class);
    }
}

/// A stretch without a line feed counts none.
pub proof fn lemma_no_line_feeds(source: Seq<u8>, from: int, to: int)
    requires
        forall|i: int| from <= i < to && 0 <= i < source.len() ==> #[trigger] source[i]
            != LINE_FEED,
    ensures
        line_feeds(source, from, to) == 0,
    decreases to - from,
{
    if !(to <= from || to > source.len() || from < 0) {
        lemma_no_line_feeds(source, from, to - 1);
    }
}

/// A source that is a pair of double quotes around bytes free of double
/// quotes and line feeds scans without error to exactly one string token and
/// the end-of-file token, both on line 1.  The string's lexeme is the text of
/// the whole source, quotes included; its literal is the text between them.
pub proof fn lemma_scan_quoted(body: Seq<u8>)
    requires
        forall|i: int| 0 <= i < body.len() ==> #[trigger] body[i] != QUOTE && body[i] != LINE_FEED,
    ensures
        ({
            let source = seq![QUOTE] + body + seq![QUOTE];
            scan(source) == Scan {
                tokens: seq![
                    TokenModel {
                        kind: TokenType::String,
                        lexeme: text_of(source),
                        literal: LiteralModel::String(text_of(body)),
                        line: 1,
                    },
                    end_of_file(1),
                ],
                errors: Seq::empty(),
            }
        }),
{
    let source = seq![QUOTE] + body + seq![QUOTE];
    let close: int = body.len() as int + 1;
    assert forall|i: int| 1 <= i < close implies Class::StringBody.holds(#[trigger] source[i]) by {
        assert(source[i] == body[i - 1]);
    }
    lemma_run_end(source, 1, close, Class::StringBody);
    assert forall|i: int| 1 <= i < close && 0 <= i < source.len() implies #[trigger] source[i]
        != LINE_FEED by {
        assert(source[i] == body[i - 1]);
    }
    lemma_no_line_feeds(source, 1, close);
    assert(source.subrange(0, close + 1) =~= source);
    assert(source.subrange(1, close) =~= body);
    let lexeme = lexeme_at(source, 0, 1);
    assert(lexeme == string_at(source, 0, 1));
    assert(lexeme.end == source.len());
    let rest = scan_from(source, lexeme.end, lexeme.line);
    assert(rest.tokens =~= seq![end_of_file(1)]);
    assert(scan(source).tokens =~= one_or_none(lexeme.token) + rest.tokens);
    assert(scan(source).errors =~= one_or_none(lexeme.error) + rest.errors);
    assert(scan(source).tokens =~= seq![lexeme.token.unwrap(), end_of_file(1)]);
    assert(scan(source).errors =~= Seq::<ScanErrorModel>::empty());
}

/// A run ends no earlier than it starts, and within the source.
pub proof fn lemma_run_within(source: Seq<u8>, pos: int, class: Class)
    requires
        0 <= pos <= source.len(),
    ensures
        pos <= run_end(source, pos, class) <= source.len(),
    decreases source.len() - pos,
{
    if pos < source.len() && class.holds(source[pos]) {
        lemma_run_within(source, pos + 1, class);
    }
}

/// A lexeme holds at least one byte, and none beyond the source: the scan
/// always moves on, and stops at the end.
pub proof fn lemma_lexeme_advances(source: Seq<u8>, start: int, line: nat)
    requires
        0 <= start < source.len(),
    ensures
        start < lexeme_at(source, start, line).end <= source.len(),
{
    lemma_run_within(source, start + 1, Class::Digit);
    lemma_run_within(source, start + 1, Class::AlphaNumeric);
    lemma_run_within(source, start + 1, Class::StringBody);
    if start + 1 < source.len() {
        lemma_run_within(source, start + 2, Class::CommentBody);
    }
    let whole: int = run_end(source, start + 1, Class::Digit);
    if whole + 1 < source.len() {
        lemma_run_within(source, whole + 1, Class::Digit);
    }
}

/// Every scan ends with the end-of-file token, and holds no other.
pub proof fn lemma_scan_ends_with_eof(source: Seq<u8>, start: int, line: nat)
    ensures
        ({
            let tokens = scan_from(source, start, line).tokens;
            &&& tokens.len() >= 1
            &&& tokens.last().kind == TokenType::Eof
            &&& forall|i: int| 0 <= i < tokens.len() - 1 ==> (#[trigger] tokens[i]).kind
                != TokenType::Eof
        }),
    decreases source.len() - start,
{
    if !(start < 0 || start >= source.len()) {
        let lexeme = lexeme_at(source, start, line);
        if !(lexeme.end <= start || lexeme.end > source.len()) {
            lemma_scan_ends_with_eof(source, lexeme.end, lexeme.line);
            let rest = scan_from(source, lexeme.end, lexeme.line).tokens;
            let first = one_or_none(lexeme.token);
            let tokens = scan_from(source, start, line).tokens;
            assert(tokens =~= first + rest);
            assert(forall|i: int| 0 <= i < first.len() ==> (#[trigger] first[i]).kind
                != TokenType::Eof);
            assert forall|i: int| 0 <= i < tokens.len() - 1 implies (#[trigger] tokens[i]).kind
                != TokenType::Eof by {
                if i >= first.len() {
                    assert(tokens[i] == rest[i - first.len()]);
                }
            }
        }
    }
}

/// A string literal of any text free of double quotes and line feeds, as
/// the whole source, scans without error to exactly one string token and
/// the end-of-file token, both on line 1.  The token's lexeme is the text
/// between its quotes, quotes included; its literal is the text itself.
pub proof fn lemma_scan_string_literal(text: Seq<char>)
    requires
        forall|i: int| 0 <= i < text.len() ==> #[trigger] text[i] != '"' && text[i] != '\n',
    ensures
        scan(encode_utf8(seq!['"'] + text + seq!['"'])) == (Scan {
            tokens: seq![
                TokenModel {
                    kind: TokenType::String,
                    lexeme: seq!['"'] + text + seq!['"'],
                    literal: LiteralModel::String(text),
                    line: 1,
                },
                end_of_file(1),
            ],
            errors: Seq::empty(),
        }),
{
    let quote = seq!['"'];
    let body = encode_utf8(text);
    lemma_encoding_without(text, '"');
    lemma_encoding_without(text, '\n');
    assert(('"' as u32) as u8 == QUOTE);
    assert(('\n' as u32) as u8 == LINE_FEED);
    lemma_encoding_of_char('"');
    assert(encode_utf8(quote) =~= seq![QUOTE]) by {
        assert(quote.drop_first() =~= Seq::<char>::empty());
        assert(encode_utf8(quote.drop_first()) =~= Seq::<u8>::empty());
    }
    lemma_encoding_of_concatenation(quote, text);
    lemma_encoding_of_concatenation(quote + text, quote);
    lemma_scan_quoted(body);
    lemma_text_of_encoding(quote + text + quote);
    lemma_text_of_encoding(text);
}

/// Whether the bytes are one numeral with `whole` digits before any point:
/// digits, or digits, a point and digits.
pub open spec fn is_numeral_of(source: Seq<u8>, whole: int) -> bool {
    &&& 0 < whole <= source.len()
    &&& forall|i: int| 0 <= i < whole ==> is_digit(#[trigger] source[i])
    &&& whole < source.len() ==> {
        &&& source[whole] == DOT
        &&& whole + 1 < source.len()
        &&& forall|i: int| whole < i < source.len() ==> is_digit(#[trigger] source[i])
    }
}

/// Whether the bytes are one numeral.
pub open spec fn is_numeral(source: Seq<u8>) -> bool {
    exists|whole: int| is_numeral_of(source, whole)
}

/// A numeral, as the whole source, scans without error to exactly one
/// number token and the end-of-file token, both on line 1.  The token's
/// lexeme and its literal are the numeral as written.
pub proof fn lemma_scan_numeral(source: Seq<u8>)
    requires
        is_numeral(source),
    ensures
        scan(source) == (Scan {
            tokens: seq![
                TokenModel {
                    kind: TokenType::Number,
                    lexeme: text_of(source),
                    literal: LiteralModel::Number(text_of(source)),
                    line: 1,
                },
                end_of_file(1),
            ],
            errors: Seq::empty(),
        }),
{
    let whole: int = choose|whole: int| is_numeral_of(source, whole);
    let end: int = source.len() as int;
    assert(is_digit(source[0]));
    assert forall|i: int| 1 <= i < whole implies Class::Digit.holds(#[trigger] source[i]) by {
        assert(is_digit(source[i]));
    }
    lemma_run_end(source, 1, whole, Class::Digit);
    if whole < end {
        assert(is_digit(source[whole + 1]));
        assert forall|i: int| whole + 1 <= i < end implies Class::Digit.holds(
            #[trigger] source[i],
        ) by {
            assert(is_digit(source[i]));
        }
        lemma_run_end(source, whole + 1, end, Class::Digit);
    }
    assert(number_end(source, 0) == end);
    assert(source.subrange(0, end) =~= source);
    let lexeme = lexeme_at(source, 0, 1);
    assert(lexeme == number_at(source, 0, 1));
    let rest = scan_from(source, lexeme.end, lexeme.line);
    assert(rest.tokens =~= seq![end_of_file(1)]);
    assert(scan(source).tokens =~= seq![lexeme.token.unwrap(), end_of_file(1)]);
    assert(scan(source).errors =~= Seq::<ScanErrorModel>::empty());
}

/// Where in the source the lexemes of the tokens of a scan lie: for each
/// token, where its lexeme starts and where it ends.  The end-of-file token
/// lies at the end of the source and is empty.
pub open spec fn spans_from(source: Seq<u8>, start: int, line: nat) -> Seq<(int, int)>
    decreases source.len() - start,
{
    if start < 0 || start >= source.len() {
        seq![(source.len() as int, source.len() as int)]
    } else {
        let lexeme: Lexeme = lexeme_at(source, start, line);
        if lexeme.end <= start || lexeme.end > source.len() {
            // Never taken, as `lemma_lexeme_advances` shows.
            seq![(source.len() as int, source.len() as int)]
        } else {
            let rest = spans_from(source, lexeme.end, lexeme.line);
            if lexeme.token is Some {
                seq![(start, lexeme.end)] + rest
            } else {
                rest
            }
        }
    }
}

/// Whether the spans lie in the source from `start` on, one after another
/// without overlap.
pub open spec fn in_order(spans: Seq<(int, int)>, start: int, end: int) -> bool {
    &&& forall|i: int|
        0 <= i < spans.len() ==> start <= (#[trigger] spans[i]).0 <= spans[i].1 <= end
    &&& forall|i: int, j: int|
        0 <= i < j < spans.len() ==> (#[trigger] spans[i]).1 <= (#[trigger] spans[j]).0
}

/// The lexeme of every token is the text of the stretch of source that it
/// was scanned from, and the stretches lie in the source in the order of
/// the tokens, without overlap.
pub proof fn lemma_lexemes_are_source(source: Seq<u8>, start: int, line: nat)
    requires
        0 <= start <= source.len(),
    ensures
        ({
            let tokens = scan_from(source, start, line).tokens;
            let spans = spans_from(source, start, line);
            &&& spans.len() == tokens.len()
            &&& in_order(spans, start, source.len() as int)
            &&& forall|i: int|
                0 <= i < tokens.len() ==> (#[trigger] tokens[i]).lexeme == text_of(
                    source.subrange(spans[i].0, spans[i].1),
                )
        }),
    decreases source.len() - start,
{
    let tokens = scan_from(source, start, line).tokens;
    let spans = spans_from(source, start, line);
    if start >= source.len() {
        assert(source.subrange(source.len() as int, source.len() as int) =~= Seq::<u8>::empty());
        assert(vstd::utf8::valid_utf8(Seq::<u8>::empty()));
        assert(vstd::utf8::decode_utf8(Seq::<u8>::empty()) =~= Seq::<char>::empty());
        assert(tokens[0].lexeme == text_of(source.subrange(spans[0].0, spans[0].1)));
    } else {
        let lexeme = lexeme_at(source, start, line);
        lemma_lexeme_advances(source, start, line);
        lemma_lexemes_are_source(source, lexeme.end, lexeme.line);
        let rest_tokens = scan_from(source, lexeme.end, lexeme.line).tokens;
        let rest_spans = spans_from(source, lexeme.end, lexeme.line);
        let first_tokens = one_or_none(lexeme.token);
        assert(tokens =~= first_tokens + rest_tokens);
        if lexeme.token is Some {
            assert(lexeme.token.unwrap().lexeme == text_of(source.subrange(start, lexeme.end)));
            assert(spans =~= seq![(start, lexeme.end)] + rest_spans);
            assert forall|i: int| 0 <= i < tokens.len() implies (#[trigger] tokens[i]).lexeme
                == text_of(source.subrange(spans[i].0, spans[i].1)) by {
                if i > 0 {
                    assert(tokens[i] == rest_tokens[i - 1]);
                    assert(spans[i] == rest_spans[i - 1]);
                }
            }
            assert forall|i: int| 0 <= i < spans.len() implies start <= (#[trigger] spans[i]).0
                <= spans[i].1 <= source.len() by {
                if i > 0 {
                    assert(spans[i] == rest_spans[i - 1]);
                }
            }
            assert forall|i: int, j: int| 0 <= i < j < spans.len() implies (#[trigger] spans[i]).1
                <= (#[trigger] spans[j]).0 by {
                assert(spans[j] == rest_spans[j - 1]);
                if i > 0 {
                    assert(spans[i] == rest_spans[i - 1]);
                }
            }
        } else {
            assert(tokens =~= rest_tokens);
        }
    }
}

} // verus!
