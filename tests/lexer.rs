use calc::lexer::{LexError, LexErrorKind, Lexer};
use calc::token::TokenType;

#[test]
fn test_string_lexing() {
    let mut l = Lexer::from_string(String::from("\"test\""));

    let tokens = l.lex_tokens().unwrap();

    assert_eq!(tokens[0].lexeme, "test");
    assert_eq!(tokens[1].token_type, TokenType::Eof);
}

#[test]
fn test_underminated_string_lexing() {
    let mut l = Lexer::from_string(String::from("\"underminated"));

    let tokens = l.lex_tokens();

    assert!(tokens.is_none());
}

#[test]
fn test_line_number_lexing() {
    let source_string = "\
        fn main() {
            int a = 2;
        }
    "; // <- Eof token is placed in the 4th line

    let mut l = Lexer::from_string(String::from(source_string));

    let mut tokens = l.lex_tokens().unwrap();

    assert_eq!(tokens.pop().unwrap().line, 4);
}

fn kinds(source: &str) -> Vec<TokenType> {
    let mut l = Lexer::from_string(String::from(source));
    l.lex_tokens().unwrap().iter().map(|t| t.token_type).collect()
}

#[test]
fn string_token_is_single_with_stripped_quotes() {
    let mut l = Lexer::from_string(String::from("\"test\""));
    let tokens = l.lex_tokens().unwrap();
    assert_eq!(tokens.len(), 2);
    assert_eq!(tokens[0].token_type, TokenType::String);
    assert_eq!(tokens[0].lexeme, "test");
    assert_eq!(tokens[1].token_type, TokenType::Eof);
    assert_eq!(tokens[1].lexeme, "");
}

#[test]
fn unterminated_string_reports_error() {
    let mut l = Lexer::from_string(String::from("\"abc"));
    assert!(l.lex_tokens().is_none());
    assert_eq!(
        l.diagnostics(),
        &vec![LexError { kind: LexErrorKind::UnterminatedString, line: 1 }]
    );
}

#[test]
fn unexpected_characters_are_all_reported() {
    let mut l = Lexer::from_string(String::from("1 # 2\n@"));
    assert!(l.lex_tokens().is_none());
    assert_eq!(
        l.diagnostics(),
        &vec![
            LexError { kind: LexErrorKind::UnexpectedCharacter('#'), line: 1 },
            LexError { kind: LexErrorKind::UnexpectedCharacter('@'), line: 2 },
        ]
    );
}

#[test]
fn eof_follows_trailing_newline() {
    let mut l = Lexer::from_string(String::from("1 + 2\n3\n"));
    let tokens = l.lex_tokens().unwrap();
    let last = tokens.last().unwrap();
    assert_eq!(last.token_type, TokenType::Eof);
    assert_eq!(last.line, 3);
    assert_eq!(tokens[3].lexeme, "3");
    assert_eq!(tokens[3].line, 2);
}

#[test]
fn empty_source_gives_only_eof() {
    let mut l = Lexer::from_string(String::new());
    let tokens = l.lex_tokens().unwrap();
    assert_eq!(tokens.len(), 1);
    assert_eq!(tokens[0].token_type, TokenType::Eof);
    assert_eq!(tokens[0].line, 1);
}

#[test]
fn integer_literal_lexeme_reads_back() {
    let mut l = Lexer::from_string(String::from("9223372036854775807"));
    let tokens = l.lex_tokens().unwrap();
    assert_eq!(tokens[0].token_type, TokenType::Int);
    assert_eq!(tokens[0].lexeme, "9223372036854775807");
    assert_eq!(calc::parser::parse_literal(&tokens[0].lexeme), Some(isize::MAX));
    assert_eq!(calc::parser::parse_literal("9223372036854775808"), None);
    assert_eq!(calc::parser::parse_literal("0042"), Some(42));
    assert_eq!(calc::parser::parse_literal(""), None);
    assert_eq!(calc::parser::parse_literal("4a"), None);
}

#[test]
fn operators_and_lookahead() {
    assert_eq!(
        kinds("( ) { } [ ] , . - + ; / * ** ! != = == > >= < <= && ||"),
        vec![
            TokenType::Leftparen,
            TokenType::Rightparen,
            TokenType::Leftcurl,
            TokenType::Rightcurl,
            TokenType::Leftbrack,
            TokenType::Rightbrack,
            TokenType::Comma,
            TokenType::Dot,
            TokenType::Minus,
            TokenType::Plus,
            TokenType::Semicolon,
            TokenType::Slash,
            TokenType::Star,
            TokenType::Power,
            TokenType::Bang,
            TokenType::Bangequal,
            TokenType::Equal,
            TokenType::Equalequal,
            TokenType::Greater,
            TokenType::Greaterequal,
            TokenType::Less,
            TokenType::Lessequal,
            TokenType::And,
            TokenType::Or,
            TokenType::Eof,
        ]
    );
}

#[test]
fn lone_ampersand_and_bar_are_dropped() {
    assert_eq!(kinds("1 & 2 | 3"), vec![TokenType::Int, TokenType::Int, TokenType::Int, TokenType::Eof]);
}

#[test]
fn comments_are_skipped() {
    let mut l = Lexer::from_string(String::from("1 // a comment\n2"));
    let tokens = l.lex_tokens().unwrap();
    assert_eq!(tokens.len(), 3);
    assert_eq!(tokens[1].lexeme, "2");
    assert_eq!(tokens[1].line, 2);
}

#[test]
fn numbers_int_and_double() {
    let mut l = Lexer::from_string(String::from("12.5 7. .3"));
    let tokens = l.lex_tokens().unwrap();
    let got: Vec<(TokenType, String)> =
        tokens.iter().map(|t| (t.token_type, t.lexeme.clone())).collect();
    assert_eq!(
        got,
        vec![
            (TokenType::Double, String::from("12.5")),
            (TokenType::Int, String::from("7")),
            (TokenType::Dot, String::from(".")),
            (TokenType::Dot, String::from(".")),
            (TokenType::Int, String::from("3")),
            (TokenType::Eof, String::new()),
        ]
    );
}

#[test]
fn keywords_and_identifiers() {
    assert_eq!(
        kinds("class else false fn for if null return super this true while in _x1 classy"),
        vec![
            TokenType::Class,
            TokenType::Else,
            TokenType::False,
            TokenType::Fn,
            TokenType::For,
            TokenType::If,
            TokenType::Null,
            TokenType::Return,
            TokenType::Super,
            TokenType::This,
            TokenType::True,
            TokenType::While,
            TokenType::In,
            TokenType::Identifier,
            TokenType::Identifier,
            TokenType::Eof,
        ]
    );
    let mut l = Lexer::from_string(String::from("_x1"));
    assert_eq!(l.lex_tokens().unwrap()[0].lexeme, "_x1");
}

#[test]
fn multiline_string_takes_line_of_closing_quote() {
    let mut l = Lexer::from_string(String::from("\"a\nb\" 1"));
    let tokens = l.lex_tokens().unwrap();
    assert_eq!(tokens[0].lexeme, "a\nb");
    assert_eq!(tokens[0].line, 2);
    assert_eq!(tokens[1].line, 2);
}

#[test]
fn file_path_is_kept() {
    let l = Lexer::from_string(String::from("1")).with_file_path(String::from("input.calc"));
    assert_eq!(l.file_path(), "input.calc");
}
