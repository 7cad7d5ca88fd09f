use crate::lexer::{lemma_scan_digit_run, lex_spec, eof_model};
use crate::token::{Token, TokenModel, TokenType};
use vstd::prelude::*;

verus! {

/// An expression tree. Each node owns its children.
#[derive(Debug)]
pub enum Expr {
    Binary { left: Box<Expr>, op: TokenType, right: Box<Expr> },
    Unary { op: TokenType, right: Box<Expr> },
    Grouping(Box<Expr>),
    Int(isize),
}

/// Why a token sequence does not hold an expression.
#[derive(Debug, PartialEq, Eq, Structural, Clone, Copy)]
pub enum ParseErrorKind {
    /// An opened parenthesis is not closed where the expression inside ends.
    ExpectedClosingParen,
    /// A leaf is neither a parenthesis nor an integer.
    ExpectedParenOrInteger,
    /// An integer literal is not a run of decimal digits that fits in `isize`.
    InvalidInteger,
}

/// A syntax error and the token it names.
#[derive(Debug)]
pub struct ParseError {
    pub token: Token,
    pub kind: ParseErrorKind,
}

pub open spec fn digit_value(c: char) -> int {
    (c as int) - ('0' as int)
}

/// The number written by the decimal digits `s`.
pub open spec fn decimal_value(s: Seq<char>) -> int
    decreases s.len(),
{
    if s.len() == 0 {
        0
    } else {
        decimal_value(s.drop_last()) * 10 + digit_value(s.last())
    }
}

pub open spec fn all_digits(s: Seq<char>) -> bool {
    forall|i: int| 0 <= i < s.len() ==> '0' <= #[trigger] s[i] <= '9'
}

/// The value of an integer literal: a non-empty run of decimal digits.
pub open spec fn literal_value(s: Seq<char>) -> Option<int> {
    if s.len() > 0 && all_digits(s) {
        Some(decimal_value(s))
    } else {
        None
    }
}

/// The value of `s` where it is an integer literal that fits in `isize`.
pub open spec fn literal_isize(s: Seq<char>) -> Option<isize> {
    match literal_value(s) {
        Some(v) => if v <= isize::MAX {
            Some(v as isize)
        } else {
            None
        },
        None => None,
    }
}

pub proof fn lemma_decimal_value_nonneg(s: Seq<char>)
    requires
        all_digits(s),
    ensures
        decimal_value(s) >= 0,
    decreases s.len(),
{
    if s.len() > 0 {
        assert(all_digits(s.drop_last()));
        lemma_decimal_value_nonneg(s.drop_last());
    }
}

/// A longer run of digits is worth at least as much as its prefix.
pub proof fn lemma_decimal_value_prefix(s: Seq<char>, i: int)
    requires
        all_digits(s),
        0 <= i <= s.len(),
    ensures
        decimal_value(s.subrange(0, i)) <= decimal_value(s),
    decreases s.len() - i,
{
    if i < s.len() {
        lemma_decimal_value_prefix(s, i + 1);
        let p = s.subrange(0, i + 1);
        assert(p.drop_last() =~= s.subrange(0, i));
        assert(all_digits(s.subrange(0, i)));
        lemma_decimal_value_nonneg(s.subrange(0, i));
    } else {
        assert(s.subrange(0, i) =~= s);
    }
}

/// The decimal digit for `d < 10`.
pub open spec fn digit_char(d: nat) -> char {
    seq!['0', '1', '2', '3', '4', '5', '6', '7', '8', '9'][d as int]
}

/// The decimal numeral of `n`, without leading zeros.
pub open spec fn decimal_digits(n: nat) -> Seq<char>
    decreases n,
{
    if n < 10 {
        seq![digit_char(n)]
    } else {
        decimal_digits(n / 10).push(digit_char(n % 10))
    }
}

pub proof fn lemma_digit_char(d: nat)
    requires
        d < 10,
    ensures
        '0' <= digit_char(d) <= '9',
        digit_value(digit_char(d)) == d,
{
    let t = seq!['0', '1', '2', '3', '4', '5', '6', '7', '8', '9'];
    if d == 0 {
        assert(t[0] == '0');
    } else if d == 1 {
        assert(t[1] == '1');
    } else if d == 2 {
        assert(t[2] == '2');
    } else if d == 3 {
        assert(t[3] == '3');
    } else if d == 4 {
        assert(t[4] == '4');
    } else if d == 5 {
        assert(t[5] == '5');
    } else if d == 6 {
        assert(t[6] == '6');
    } else if d == 7 {
        assert(t[7] == '7');
    } else if d == 8 {
        assert(t[8] == '8');
    } else {
        assert(t[9] == '9');
    }
}

proof fn lemma_decimal_digits(n: nat)
    ensures
        decimal_digits(n).len() > 0,
        all_digits(decimal_digits(n)),
        decimal_value(decimal_digits(n)) == n,
    decreases n,
{
    let s = decimal_digits(n);
    lemma_digit_char(n % 10);
    if n < 10 {
        assert(s.drop_last() =~= Seq::<char>::empty());
        assert(n % 10 == n);
        assert(decimal_value(s) == decimal_value(s.drop_last()) * 10 + digit_value(s.last()));
    } else {
        lemma_decimal_digits(n / 10);
        assert(s.drop_last() =~= decimal_digits(n / 10));
        assert(n == (n / 10) * 10 + n % 10);
        assert(decimal_value(s) == decimal_value(s.drop_last()) * 10 + digit_value(s.last()));
        assert(all_digits(s)) by {
            assert forall|i: int| 0 <= i < s.len() implies '0' <= #[trigger] s[i] <= '9' by {
                if i < s.len() - 1 {
                    assert(s[i] == decimal_digits(n / 10)[i]);
                }
            }
        }
    }
}

/// Writing a natural number in decimal, scanning that text, and reading back
/// the lexeme of the one integer token it gives, yields the number again; it
/// fits in `isize` exactly when the number does.
pub proof fn lemma_literal_round_trip(n: nat)
    ensures
        lex_spec(decimal_digits(n)) == Some(
            seq![
                TokenModel { kind: TokenType::Int, lexeme: decimal_digits(n), line: 1 },
                eof_model(decimal_digits(n)),
            ],
        ),
        eof_model(decimal_digits(n)).line == 1,
        literal_value(decimal_digits(n)) == Some(n as int),
        n <= isize::MAX ==> literal_isize(decimal_digits(n)) == Some(n as isize),
        n > isize::MAX ==> literal_isize(decimal_digits(n)) is None,
{
    let s = decimal_digits(n);
    lemma_decimal_digits(n);
    assert forall|i: int| 0 <= i < s.len() implies crate::lexer::is_digit(#[trigger] s[i]) by {
        assert('0' <= s[i] <= '9');
    }
    lemma_scan_digit_run(s);
    assert(s.subrange(0, s.len() as int) =~= s);
    assert(seq![crate::lexer::token_model(s, TokenType::Int, 0, s.len() as int)].push(eof_model(s))
        =~= seq![TokenModel { kind: TokenType::Int, lexeme: s, line: 1 }, eof_model(s)]);
}

/// Reads an integer literal, as `literal_isize` describes.
pub fn parse_literal(s: &str) -> (r: Option<isize>)
    ensures
        r == literal_isize(s@),
{
    let n = s.unicode_len();
    if n == 0 {
        return None;
    }
    let mut acc: isize = 0;
    let mut i: usize = 0;
    while i < n
        invariant
            n == s@.len() > 0,
            i <= n,
            all_digits(s@.subrange(0, i as int)),
            acc as int == decimal_value(s@.subrange(0, i as int)),
        decreases n - i,
    {
        let c = s.get_char(i);
        let ghost prefix = s@.subrange(0, i as int);
        let ghost next = s@.subrange(0, i as int + 1);
        assert(next.drop_last() =~= prefix);
        if !('0' <= c && c <= '9') {
            assert(!all_digits(s@));
            return None;
        }
        let d = (c as u32 - '0' as u32) as isize;
        assert(all_digits(next));
        match acc.checked_mul(10) {
            Some(m) => match m.checked_add(d) {
                Some(v) => {
                    acc = v;
                },
                None => {
                    proof {
                        assert(s@.subrange(0, n as int) =~= s@);
                        if all_digits(s@) {
                            lemma_decimal_value_prefix(s@, i + 1);
                        }
                    }
                    return None;
                },
            },
            None => {
                proof {
                    lemma_decimal_value_nonneg(prefix);
                    if all_digits(s@) {
                        lemma_decimal_value_prefix(s@, i + 1);
                    }
                    assert(decimal_value(next) >= acc * 10);
                }
                return None;
            },
        }
        i = i + 1;
    }
    assert(s@.subrange(0, n as int) =~= s@);
    Some(acc)
}

/// The outcome of parsing from a position: the tree and the position just
/// after it, or the position of the token named by the error and its kind.
pub type ParseOutcome = Result<(Expr, int), (int, ParseErrorKind)>;

/// The position after consuming the token at `i`; the cursor stays on `Eof`.
pub open spec fn step_over(toks: Seq<Token>, i: int) -> int {
    if toks[i].token_type == TokenType::Eof {
        i
    } else {
        i + 1
    }
}

/// The token that a leaf error names: the one at `i`, or, on `Eof`, the
/// token just before it.
pub open spec fn leaf_error_at(toks: Seq<Token>, i: int) -> int {
    if toks[i].token_type == TokenType::Eof && i > 0 {
        i - 1
    } else {
        i
    }
}

pub open spec fn binary(left: Expr, op: TokenType, right: Expr) -> Expr {
    Expr::Binary { left: Box::new(left), op, right: Box::new(right) }
}

// In the grammar functions below, each parse that succeeds ends after its
// start and before the last token (the parser's own contracts show it), so the
// guards `i < j < toks.len()` always hold; they only let the definitions
// terminate.

/// `expr := term (('+' | '-') term)*`
pub open spec fn parse_expr(toks: Seq<Token>, i: int) -> ParseOutcome
    decreases toks.len() - i, 4int,
{
    match parse_term(toks, i) {
        Ok((left, j)) => if i < j < toks.len() {
            expr_tail(toks, left, j)
        } else {
            Err((i, ParseErrorKind::ExpectedParenOrInteger))
        },
        Err(e) => Err(e),
    }
}

/// The loop of `expr` after its first operand `left`, which ends at `j`.
pub open spec fn expr_tail(toks: Seq<Token>, left: Expr, j: int) -> ParseOutcome
    decreases toks.len() - j, 5int,
{
    if 0 <= j < toks.len() && (toks[j].token_type == TokenType::Plus || toks[j].token_type
        == TokenType::Minus) {
        match parse_term(toks, j + 1) {
            Ok((right, k)) => if j < k < toks.len() {
                expr_tail(toks, binary(left, toks[j].token_type, right), k)
            } else {
                Err((j, ParseErrorKind::ExpectedParenOrInteger))
            },
            Err(e) => Err(e),
        }
    } else {
        Ok((left, j))
    }
}

/// `term := factor (('*' | '/') factor)*`
pub open spec fn parse_term(toks: Seq<Token>, i: int) -> ParseOutcome
    decreases toks.len() - i, 3int,
{
    match parse_factor(toks, i) {
        Ok((left, j)) => if i < j < toks.len() {
            term_tail(toks, left, j)
        } else {
            Err((i, ParseErrorKind::ExpectedParenOrInteger))
        },
        Err(e) => Err(e),
    }
}

/// The loop of `term` after its first operand `left`, which ends at `j`.
pub open spec fn term_tail(toks: Seq<Token>, left: Expr, j: int) -> ParseOutcome
    decreases toks.len() - j, 5int,
{
    if 0 <= j < toks.len() && (toks[j].token_type == TokenType::Star || toks[j].token_type
        == TokenType::Slash) {
        match parse_factor(toks, j + 1) {
            Ok((right, k)) => if j < k < toks.len() {
                term_tail(toks, binary(left, toks[j].token_type, right), k)
            } else {
                Err((j, ParseErrorKind::ExpectedParenOrInteger))
            },
            Err(e) => Err(e),
        }
    } else {
        Ok((left, j))
    }
}

/// `factor := unary ('**' factor)?`, so that power groups to the right.
pub open spec fn parse_factor(toks: Seq<Token>, i: int) -> ParseOutcome
    decreases toks.len() - i, 2int,
{
    match parse_unary(toks, i) {
        Ok((left, j)) => if 0 <= i < j < toks.len() && toks[j].token_type == TokenType::Power {
            match parse_factor(toks, j + 1) {
                Ok((right, k)) => Ok((binary(left, TokenType::Power, right), k)),
                Err(e) => Err(e),
            }
        } else {
            Ok((left, j))
        },
        Err(e) => Err(e),
    }
}

/// `unary := ('+' | '-') factor | '(' expr ')' | INT`
pub open spec fn parse_unary(toks: Seq<Token>, i: int) -> ParseOutcome
    decreases toks.len() - i, 1int,
{
    if !(0 <= i < toks.len()) {
        Err((i, ParseErrorKind::ExpectedParenOrInteger))
    } else {
        let k = toks[i].token_type;
        if k == TokenType::Leftparen {
            match parse_expr(toks, i + 1) {
                Ok((inner, j)) => if 0 <= j < toks.len() && toks[j].token_type
                    == TokenType::Rightparen {
                    Ok((Expr::Grouping(Box::new(inner)), j + 1))
                } else {
                    Err((j, ParseErrorKind::ExpectedClosingParen))
                },
                Err(e) => Err(e),
            }
        } else if k == TokenType::Int {
            match literal_isize(toks[i].lexeme@) {
                Some(v) => Ok((Expr::Int(v), i + 1)),
                None => Err((i, ParseErrorKind::InvalidInteger)),
            }
        } else if k == TokenType::Minus || k == TokenType::Plus {
            match parse_factor(toks, i + 1) {
                Ok((operand, j)) => Ok((Expr::Unary { op: k, right: Box::new(operand) }, j)),
                Err(e) => Err(e),
            }
        } else {
            Err((leaf_error_at(toks, i), ParseErrorKind::ExpectedParenOrInteger))
        }
    }
}

/// Whether the result `r` of parsing from `i` agrees with `outcome`, the cursor
/// ending at `end`.
pub open spec fn agrees(
    r: Result<Expr, ParseError>,
    outcome: ParseOutcome,
    toks: Seq<Token>,
    i: int,
    end: int,
) -> bool {
    match outcome {
        Ok((e, j)) => r == Ok::<Expr, ParseError>(e) && end == j && i < j,
        Err((t, kind)) => r matches Err(pe) && pe.kind == kind && 0 <= t < toks.len() && pe.token
            == toks[t],
    }
}

/// A parser over one token sequence, with a cursor into it.
pub struct Parser {
    tokens: Vec<Token>,
    current: usize,
}

impl Parser {
    /// The tokens being parsed.
    pub closed spec fn toks(&self) -> Seq<Token> {
        self.tokens@
    }

    /// The position of the cursor.
    pub closed spec fn pos(&self) -> int {
        self.current as int
    }

    pub closed spec fn wf(&self) -> bool {
        &&& self.tokens@.len() > 0
        &&& self.tokens@.last().token_type == TokenType::Eof
        &&& self.current < self.tokens@.len()
    }

    /// A parser at the start of `tokens`, which end with `Eof`.
    pub fn new(tokens: Vec<Token>) -> (r: Parser)
        requires
            tokens@.len() > 0,
            tokens@.last().token_type == TokenType::Eof,
        ensures
            r.wf(),
            r.toks() == tokens@,
            r.pos() == 0,
    {
        Parser { tokens, current: 0 }
    }

    /// Parses one expression from the cursor, as `parse_expr` describes.
    /// Tokens after the expression are left unread.
    pub fn parse(&mut self) -> (r: Result<Expr, ParseError>)
        requires
            old(self).wf(),
        ensures
            final(self).wf(),
            final(self).toks() == old(self).toks(),
            agrees(r, parse_expr(old(self).toks(), old(self).pos()), old(self).toks(), old(self).pos(), final(self).pos()),
    {
        self.expr()
    }

    fn expr(&mut self) -> (r: Result<Expr, ParseError>)
        requires
            old(self).wf(),
        ensures
            final(self).wf(),
            final(self).tokens == old(self).tokens,
            agrees(r, parse_expr(old(self).tokens@, old(self).current as int), old(self).tokens@, old(self).current as int, final(self).current as int),
        decreases old(self).tokens@.len() - old(self).current, 4int,
    {
        let ghost toks = self.tokens@;
        let ghost i = self.current as int;
        let mut left = match self.term() {
            Ok(e) => e,
            Err(e) => return Err(e),
        };
        while self.check(TokenType::Plus) || self.check(TokenType::Minus)
            invariant
                self.wf(),
                self.tokens == old(self).tokens,
                self.tokens@ == toks,
                i == old(self).current,
                i < self.current,
                parse_expr(toks, i) == expr_tail(toks, left, self.current as int),
            decreases toks.len() - self.current,
        {
            let op = self.advance();
            let right = match self.term() {
                Ok(e) => e,
                Err(e) => return Err(e),
            };
            left = Expr::Binary { left: Box::new(left), op, right: Box::new(right) };
        }
        Ok(left)
    }

    fn term(&mut self) -> (r: Result<Expr, ParseError>)
        requires
            old(self).wf(),
        ensures
            final(self).wf(),
            final(self).tokens == old(self).tokens,
            agrees(r, parse_term(old(self).tokens@, old(self).current as int), old(self).tokens@, old(self).current as int, final(self).current as int),
        decreases old(self).tokens@.len() - old(self).current, 3int,
    {
        let ghost toks = self.tokens@;
        let ghost i = self.current as int;
        let mut left = match self.factor() {
            Ok(e) => e,
            Err(e) => return Err(e),
        };
        while self.check(TokenType::Star) || self.check(TokenType::Slash)
            invariant
                self.wf(),
                self.tokens == old(self).tokens,
                self.tokens@ == toks,
                i == old(self).current,
                i < self.current,
                parse_term(toks, i) == term_tail(toks, left, self.current as int),
            decreases toks.len() - self.current,
        {
            let op = self.advance();
            let right = match self.factor() {
                Ok(e) => e,
                Err(e) => return Err(e),
            };
            left = Expr::Binary { left: Box::new(left), op, right: Box::new(right) };
        }
        Ok(left)
    }

    fn factor(&mut self) -> (r: Result<Expr, ParseError>)
        requires
            old(self).wf(),
        ensures
            final(self).wf(),
            final(self).tokens == old(self).tokens,
            agrees(r, parse_factor(old(self).tokens@, old(self).current as int), old(self).tokens@, old(self).current as int, final(self).current as int),
        decreases old(self).tokens@.len() - old(self).current, 2int,
    {
        let left = match self.number() {
            Ok(e) => e,
            Err(e) => return Err(e),
        };
        if self.check(TokenType::Power) {
            let op = self.advance();
            let right = match self.factor() {
                Ok(e) => e,
                Err(e) => return Err(e),
            };
            return Ok(Expr::Binary { left: Box::new(left), op, right: Box::new(right) });
        }
        Ok(left)
    }

    /// Parses a leaf: a parenthesised expression, an integer, or a sign
    /// applied to a factor.
    fn number(&mut self) -> (r: Result<Expr, ParseError>)
        requires
            old(self).wf(),
        ensures
            final(self).wf(),
            final(self).tokens == old(self).tokens,
            agrees(r, parse_unary(old(self).tokens@, old(self).current as int), old(self).tokens@, old(self).current as int, final(self).current as int),
        decreases old(self).tokens@.len() - old(self).current, 1int,
    {
        if self.check(TokenType::Leftparen) {
            self.advance();
            let inner = match self.expr() {
                Ok(e) => e,
                Err(e) => return Err(e),
            };
            match self.consume_token(TokenType::Rightparen, ParseErrorKind::ExpectedClosingParen) {
                Ok(_) => {},
                Err(e) => return Err(e),
            }
            return Ok(Expr::Grouping(Box::new(inner)));
        } else if self.check(TokenType::Int) {
            let at = self.current;
            let value = parse_literal(self.peek().lexeme.as_str());
            match value {
                Some(v) => {
                    self.advance();
                    return Ok(Expr::Int(v));
                },
                None => return Err(self.error(at, ParseErrorKind::InvalidInteger)),
            }
        } else if self.check(TokenType::Minus) || self.check(TokenType::Plus) {
            let op = self.advance();
            let operand = match self.factor() {
                Ok(e) => e,
                Err(e) => return Err(e),
            };
            return Ok(Expr::Unary { op, right: Box::new(operand) });
        }
        let at = if self.is_at_end() && self.current > 0 {
            self.current - 1
        } else {
            self.current
        };
        Err(self.error(at, ParseErrorKind::ExpectedParenOrInteger))
    }

    /// Consumes a token of kind `token_type`, or names the token found instead.
    fn consume_token(&mut self, token_type: TokenType, kind: ParseErrorKind) -> (r: Result<TokenType, ParseError>)
        requires
            old(self).wf(),
            token_type != TokenType::Eof,
        ensures
            final(self).wf(),
            final(self).tokens == old(self).tokens,
            old(self).tokens@[old(self).current as int].token_type == token_type ==> r == Ok::<TokenType, ParseError>(token_type) && final(self).current == old(self).current + 1,
            old(self).tokens@[old(self).current as int].token_type != token_type ==> (r matches Err(pe) && pe.kind == kind && pe.token == old(self).tokens@[old(self).current as int]),
    {
        if self.check(token_type) {
            return Ok(self.advance());
        }
        Err(self.error(self.current, kind))
    }

    /// The error of kind `kind` that names the token at `at`.
    fn error(&self, at: usize, kind: ParseErrorKind) -> (r: ParseError)
        requires
            at < self.tokens@.len(),
        ensures
            r.token == self.tokens@[at as int],
            r.kind == kind,
    {
        ParseError { token: self.tokens[at].duplicate(), kind }
    }

    /// Whether the current token, which is not `Eof`, has kind `token_type`.
    fn check(&self, token_type: TokenType) -> (r: bool)
        requires
            self.wf(),
        ensures
            r == (self.tokens@[self.current as int].token_type != TokenType::Eof && self.tokens@[self.current as int].token_type == token_type),
    {
        if self.is_at_end() {
            return false;
        }
        self.peek().token_type == token_type
    }

    fn previous(&self) -> (r: &Token)
        requires
            0 < self.current <= self.tokens@.len(),
        ensures
            *r == self.tokens@[self.current - 1],
    {
        &self.tokens[self.current - 1]
    }

    fn peek(&self) -> (r: &Token)
        requires
            self.wf(),
        ensures
            *r == self.tokens@[self.current as int],
    {
        &self.tokens[self.current]
    }

    /// Moves past the current token unless it is `Eof`, and gives the kind of
    /// the token moved past.
    fn advance(&mut self) -> (r: TokenType)
        requires
            old(self).wf(),
            old(self).tokens@[old(self).current as int].token_type != TokenType::Eof,
        ensures
            final(self).wf(),
            final(self).tokens == old(self).tokens,
            final(self).current == old(self).current + 1,
            r == old(self).tokens@[old(self).current as int].token_type,
    {
        let n = self.tokens.len();
        if !self.is_at_end() {
            assert(self.current < n);
            self.current += 1;
        }
        self.previous().token_type
    }

    fn is_at_end(&self) -> (r: bool)
        requires
            self.wf(),
        ensures
            r == (self.tokens@[self.current as int].token_type == TokenType::Eof),
    {
        self.peek().token_type == TokenType::Eof
    }
}

} // verus!
