use vstd::prelude::*;

verus! {

/// The closed set of token kinds produced by the lexer.
#[derive(Debug, PartialEq, Eq, Structural, Clone, Copy)]
pub enum TokenType {
    // single-character tokens
    Leftparen,
    Rightparen,
    Leftcurl,
    Rightcurl,
    Leftbrack,
    Rightbrack,
    Comma,
    Dot,
    Minus,
    Plus,
    Semicolon,
    Slash,
    // one- or two-character tokens
    Star,
    Power,
    Bang,
    Bangequal,
    Equal,
    Equalequal,
    Greater,
    Greaterequal,
    Less,
    Lessequal,
    And,
    Or,
    // literals
    Identifier,
    String,
    Int,
    Double,
    // keywords
    Class,
    Else,
    False,
    Fn,
    For,
    If,
    Null,
    Return,
    Super,
    This,
    True,
    While,
    In,
    Eof,
}

/// A classified fragment of source text, with the line on which it ended.
#[derive(Debug)]
pub struct Token {
    pub token_type: TokenType,
    pub lexeme: std::string::String,
    pub line: usize,
}

/// What a token stands for: its kind, its text and its line.
pub struct TokenModel {
    pub kind: TokenType,
    pub lexeme: Seq<char>,
    pub line: nat,
}

impl View for Token {
    type V = TokenModel;

    open spec fn view(&self) -> TokenModel {
        TokenModel { kind: self.token_type, lexeme: self.lexeme@, line: self.line as nat }
    }
}

impl Token {
    /// A copy of this token.
    pub fn duplicate(&self) -> (r: Token)
        ensures
            r == *self,
    {
        Token { token_type: self.token_type, lexeme: self.lexeme.clone(), line: self.line }
    }
}

} // verus!
