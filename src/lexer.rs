use crate::token::{Token, TokenModel, TokenType};
use vstd::prelude::*;

verus! {

/// What went wrong while scanning one lexeme.
#[derive(Debug, PartialEq, Eq, Structural, Clone, Copy)]
pub enum LexErrorKind {
    UnexpectedCharacter(char),
    UnterminatedString,
}

/// A lexical error and the line on which it was found.
#[derive(Debug, PartialEq, Eq, Structural, Clone, Copy)]
pub struct LexError {
    pub kind: LexErrorKind,
    pub line: usize,
}

/// What a lexical error stands for.
pub struct LexErrorModel {
    pub kind: LexErrorKind,
    pub line: nat,
}

impl View for LexError {
    type V = LexErrorModel;

    open spec fn view(&self) -> LexErrorModel {
        LexErrorModel { kind: self.kind, line: self.line as nat }
    }
}

pub open spec fn is_digit(c: char) -> bool {
    '0' <= c <= '9'
}

pub open spec fn is_alpha_char(c: char) -> bool {
    ('a' <= c <= 'z') || ('A' <= c <= 'Z') || c == '_'
}

/// The number of newline characters in `s`.
pub open spec fn count_newlines(s: Seq<char>) -> nat
    decreases s.len(),
{
    if s.len() == 0 {
        0
    } else {
        count_newlines(s.drop_last()) + if s.last() == '\n' {
            1nat
        } else {
            0nat
        }
    }
}

/// The line (counted from 1) on which position `p` of `src` lies.
pub open spec fn line_at(src: Seq<char>, p: int) -> nat {
    1 + count_newlines(src.subrange(0, p))
}

/// The end of the run of digits that starts at `i`.
pub open spec fn digits_end(src: Seq<char>, i: int) -> int
    decreases src.len() - i,
{
    if 0 <= i < src.len() && is_digit(src[i]) {
        digits_end(src, i + 1)
    } else {
        i
    }
}

/// The end of the run of letters, digits and underscores that starts at `i`.
pub open spec fn word_end(src: Seq<char>, i: int) -> int
    decreases src.len() - i,
{
    if 0 <= i < src.len() && (is_digit(src[i]) || is_alpha_char(src[i])) {
        word_end(src, i + 1)
    } else {
        i
    }
}

/// The first position at or after `i` that holds `stop`, or the length of `src`.
pub open spec fn find_char(src: Seq<char>, i: int, stop: char) -> int
    decreases src.len() - i,
{
    if 0 <= i < src.len() && src[i] != stop {
        find_char(src, i + 1, stop)
    } else {
        i
    }
}

/// The kind of a word: a reserved word's own kind, else `Identifier`.
pub open spec fn keyword_kind(w: Seq<char>) -> TokenType {
    if w == "class"@ {
        TokenType::Class
    } else if w == "else"@ {
        TokenType::Else
    } else if w == "false"@ {
        TokenType::False
    } else if w == "fn"@ {
        TokenType::Fn
    } else if w == "for"@ {
        TokenType::For
    } else if w == "if"@ {
        TokenType::If
    } else if w == "null"@ {
        TokenType::Null
    } else if w == "return"@ {
        TokenType::Return
    } else if w == "super"@ {
        TokenType::Super
    } else if w == "this"@ {
        TokenType::This
    } else if w == "true"@ {
        TokenType::True
    } else if w == "while"@ {
        TokenType::While
    } else if w == "in"@ {
        TokenType::In
    } else {
        TokenType::Identifier
    }
}

/// One scanning step: the kind of token (if any) of the lexeme starting at `i`,
/// the position just after it, and the error (if any) that it raises.
pub open spec fn scan_step(src: Seq<char>, i: int) -> (Option<TokenType>, int, Option<LexErrorKind>) {
    let c = src[i];
    let next_is = |d: char| i + 1 < src.len() && src[i + 1] == d;
    if c == '(' {
        (Some(TokenType::Leftparen), i + 1, None)
    } else if c == ')' {
        (Some(TokenType::Rightparen), i + 1, None)
    } else if c == '{' {
        (Some(TokenType::Leftcurl), i + 1, None)
    } else if c == '}' {
        (Some(TokenType::Rightcurl), i + 1, None)
    } else if c == '[' {
        (Some(TokenType::Leftbrack), i + 1, None)
    } else if c == ']' {
        (Some(TokenType::Rightbrack), i + 1, None)
    } else if c == ',' {
        (Some(TokenType::Comma), i + 1, None)
    } else if c == '.' {
        (Some(TokenType::Dot), i + 1, None)
    } else if c == '+' {
        (Some(TokenType::Plus), i + 1, None)
    } else if c == '-' {
        (Some(TokenType::Minus), i + 1, None)
    } else if c == ';' {
        (Some(TokenType::Semicolon), i + 1, None)
    } else if c == '\r' || c == '\t' || c == ' ' || c == '\n' {
        (None, i + 1, None)
    } else if c == '"' {
        let close = find_char(src, i + 1, '"');
        if close < src.len() {
            (Some(TokenType::String), close + 1, None)
        } else {
            (None, src.len() as int, Some(LexErrorKind::UnterminatedString))
        }
    } else if c == '&' {
        if next_is('&') { (Some(TokenType::And), i + 2, None) } else { (None, i + 1, None) }
    } else if c == '|' {
        if next_is('|') { (Some(TokenType::Or), i + 2, None) } else { (None, i + 1, None) }
    } else if c == '*' {
        if next_is('*') {
            (Some(TokenType::Power), i + 2, None)
        } else {
            (Some(TokenType::Star), i + 1, None)
        }
    } else if c == '!' {
        if next_is('=') {
            (Some(TokenType::Bangequal), i + 2, None)
        } else {
            (Some(TokenType::Bang), i + 1, None)
        }
    } else if c == '=' {
        if next_is('=') {
            (Some(TokenType::Equalequal), i + 2, None)
        } else {
            (Some(TokenType::Equal), i + 1, None)
        }
    } else if c == '>' {
        if next_is('=') {
            (Some(TokenType::Greaterequal), i + 2, None)
        } else {
            (Some(TokenType::Greater), i + 1, None)
        }
    } else if c == '<' {
        if next_is('=') {
            (Some(TokenType::Lessequal), i + 2, None)
        } else {
            (Some(TokenType::Less), i + 1, None)
        }
    } else if c == '/' {
        if next_is('/') {
            (None, find_char(src, i + 2, '\n'), None)
        } else {
            (Some(TokenType::Slash), i + 1, None)
        }
    } else if is_digit(c) {
        let e = digits_end(src, i + 1);
        if e + 1 < src.len() && src[e] == '.' && is_digit(src[e + 1]) {
            (Some(TokenType::Double), digits_end(src, e + 1), None)
        } else {
            (Some(TokenType::Int), e, None)
        }
    } else if is_alpha_char(c) {
        let e = word_end(src, i + 1);
        (Some(keyword_kind(src.subrange(i, e))), e, None)
    } else {
        (None, i + 1, Some(LexErrorKind::UnexpectedCharacter(c)))
    }
}

/// The token made of `src[i..end]` with kind `k`; a string literal loses its
/// two quotes.
pub open spec fn token_model(src: Seq<char>, k: TokenType, i: int, end: int) -> TokenModel {
    TokenModel {
        kind: k,
        lexeme: if k == TokenType::String {
            src.subrange(i + 1, end - 1)
        } else {
            src.subrange(i, end)
        },
        line: line_at(src, end),
    }
}

/// The tokens scanned from position `i` to the end of `src` (no `Eof`).
pub open spec fn tokens_from(src: Seq<char>, i: int) -> Seq<TokenModel>
    decreases src.len() - i,
{
    if i < 0 || i >= src.len() {
        Seq::empty()
    } else {
        let (k, end, _e) = scan_step(src, i);
        let rest = if i < end <= src.len() {
            tokens_from(src, end)
        } else {
            Seq::empty()
        };
        match k {
            Some(k) => seq![token_model(src, k, i, end)] + rest,
            None => rest,
        }
    }
}

/// The lexical errors found from position `i` to the end of `src`.
pub open spec fn errors_from(src: Seq<char>, i: int) -> Seq<LexErrorModel>
    decreases src.len() - i,
{
    if i < 0 || i >= src.len() {
        Seq::empty()
    } else {
        let (_k, end, e) = scan_step(src, i);
        let rest = if i < end <= src.len() {
            errors_from(src, end)
        } else {
            Seq::empty()
        };
        match e {
            Some(kind) => seq![LexErrorModel { kind, line: line_at(src, end) }] + rest,
            None => rest,
        }
    }
}

/// The `Eof` token that closes the scan of `src`.
pub open spec fn eof_model(src: Seq<char>) -> TokenModel {
    TokenModel { kind: TokenType::Eof, lexeme: Seq::empty(), line: line_at(src, src.len() as int) }
}

/// The full result of scanning `src`: the tokens followed by `Eof`, or `None`
/// where any lexical error was found.
pub open spec fn lex_spec(src: Seq<char>) -> Option<Seq<TokenModel>> {
    if errors_from(src, 0).len() > 0 {
        None
    } else {
        Some(tokens_from(src, 0).push(eof_model(src)))
    }
}

pub proof fn lemma_count_newlines_step(src: Seq<char>, p: int)
    requires
        0 <= p < src.len(),
    ensures
        count_newlines(src.subrange(0, p + 1)) == count_newlines(src.subrange(0, p)) + if src[p]
            == '\n' {
            1nat
        } else {
            0nat
        },
{
    assert(src.subrange(0, p + 1).drop_last() =~= src.subrange(0, p));
}

pub proof fn lemma_count_newlines_bound(s: Seq<char>)
    ensures
        count_newlines(s) <= s.len(),
    decreases s.len(),
{
    if s.len() > 0 {
        lemma_count_newlines_bound(s.drop_last());
    }
}

pub proof fn lemma_runs_bounded(src: Seq<char>, i: int)
    requires
        0 <= i <= src.len(),
    ensures
        i <= digits_end(src, i) <= src.len(),
        i <= word_end(src, i) <= src.len(),
        forall|stop: char| i <= #[trigger] find_char(src, i, stop) <= src.len(),
    decreases src.len() - i,
{
    if i < src.len() {
        lemma_runs_bounded(src, i + 1);
        assert forall|stop: char| i <= #[trigger] find_char(src, i, stop) <= src.len() by {
            assert(i + 1 <= find_char(src, i + 1, stop));
        }
    }
}

/// Every scanning step moves forward and stays within the source.
pub proof fn lemma_scan_step_advances(src: Seq<char>, i: int)
    requires
        0 <= i < src.len(),
    ensures
        i < scan_step(src, i).1 <= src.len(),
        scan_step(src, i).0 == Some(TokenType::String) ==> i + 2 <= scan_step(src, i).1,
{
    lemma_runs_bounded(src, i + 1);
    if i + 2 <= src.len() {
        lemma_runs_bounded(src, i + 2);
    }
    let e = digits_end(src, i + 1);
    if 0 <= e + 1 <= src.len() {
        lemma_runs_bounded(src, e + 1);
    }
}

/// Scanning a run of digits yields one `Int` token holding the whole run,
/// on line 1, and no error.
pub proof fn lemma_scan_digit_run(s: Seq<char>)
    requires
        s.len() > 0,
        forall|i: int| 0 <= i < s.len() ==> is_digit(#[trigger] s[i]),
    ensures
        tokens_from(s, 0) == seq![token_model(s, TokenType::Int, 0, s.len() as int)],
        errors_from(s, 0) == Seq::<LexErrorModel>::empty(),
        line_at(s, s.len() as int) == 1,
{
    lemma_digits_run_to_end(s, 1);
    assert(tokens_from(s, s.len() as int) == Seq::<TokenModel>::empty());
    assert(errors_from(s, s.len() as int) == Seq::<LexErrorModel>::empty());
    assert(seq![token_model(s, TokenType::Int, 0, s.len() as int)] + Seq::<TokenModel>::empty()
        =~= seq![token_model(s, TokenType::Int, 0, s.len() as int)]);
    lemma_no_newlines(s.subrange(0, s.len() as int));
}

proof fn lemma_digits_run_to_end(s: Seq<char>, i: int)
    requires
        0 <= i <= s.len(),
        forall|j: int| 0 <= j < s.len() ==> is_digit(#[trigger] s[j]),
    ensures
        digits_end(s, i) == s.len(),
    decreases s.len() - i,
{
    if i < s.len() {
        lemma_digits_run_to_end(s, i + 1);
    }
}

proof fn lemma_no_newlines(s: Seq<char>)
    requires
        forall|j: int| 0 <= j < s.len() ==> is_digit(#[trigger] s[j]),
    ensures
        count_newlines(s) == 0,
    decreases s.len(),
{
    if s.len() > 0 {
        let t = s.drop_last();
        assert forall|j: int| 0 <= j < t.len() implies is_digit(#[trigger] t[j]) by {
            assert(t[j] == s[j]);
        }
        lemma_no_newlines(t);
    }
}

/// Where a source ends with a newline, the `Eof` that closes its scan lies on
/// the line after the line on which the text before that newline ends.
pub proof fn lemma_eof_after_trailing_newline(content: Seq<char>)
    ensures
        lex_spec(content.push('\n')) matches Some(ts) ==> ts.last() == eof_model(
            content.push('\n'),
        ),
        eof_model(content.push('\n')).line == line_at(content, content.len() as int) + 1,
{
    let src = content.push('\n');
    lemma_count_newlines_step(src, content.len() as int);
    assert(src.subrange(0, content.len() as int) =~= content.subrange(0, content.len() as int));
    assert(src.subrange(0, src.len() as int) =~= src);
}

/// A scanner over one source text.
pub struct Lexer {
    file_path: std::string::String,
    source: Vec<char>,
    line: usize,
    start: usize,
    current: usize,
    errors: Vec<LexError>,
}

/// Relies on String::push: it appends one character to the string.
#[verifier::external_body]
pub(crate) fn push_char(s: &mut std::string::String, c: char)
    ensures
        final(s)@ == old(s)@.push(c),
{
    s.push(c);
}

impl Lexer {
    /// The source text being scanned.
    pub closed spec fn src(&self) -> Seq<char> {
        self.source@
    }

    /// The position of the cursor.
    pub closed spec fn pos(&self) -> int {
        self.current as int
    }

    /// The lexical errors found so far.
    pub closed spec fn errs(&self) -> Seq<LexErrorModel> {
        self.errors@.map_values(|e: LexError| e@)
    }

    /// The name under which errors are reported.
    pub closed spec fn name(&self) -> Seq<char> {
        self.file_path@
    }

    pub closed spec fn wf(&self) -> bool {
        &&& self.source@.len() < usize::MAX
        &&& self.start <= self.current <= self.source@.len()
        &&& self.line == line_at(self.source@, self.current as int)
    }

    /// A lexer at the start of `source`, reporting under an empty name.
    pub fn from_string(source: std::string::String) -> (r: Lexer)
        requires
            source@.len() < usize::MAX,
        ensures
            r.wf(),
            r.src() == source@,
            r.pos() == 0,
            r.errs() == Seq::<LexErrorModel>::empty(),
            r.name() == Seq::<char>::empty(),
    {
        let mut chars: Vec<char> = Vec::new();
        let text = source.as_str();
        let n = text.unicode_len();
        let mut i: usize = 0;
        while i < n
            invariant
                n == text@.len(),
                text@ == source@,
                i <= n,
                chars@ == text@.subrange(0, i as int),
            decreases n - i,
        {
            chars.push(text.get_char(i));
            i = i + 1;
            assert(chars@ =~= text@.subrange(0, i as int));
        }
        assert(chars@ =~= source@);
        let r = Lexer {
            file_path: std::string::String::new(),
            source: chars,
            line: 1,
            start: 0,
            current: 0,
            errors: Vec::new(),
        };
        assert(r.errs() =~= Seq::<LexErrorModel>::empty());
        r
    }

    /// The same lexer, reporting its errors under `path`.
    pub fn with_file_path(self, path: std::string::String) -> (r: Lexer)
        ensures
            r.src() == self.src(),
            r.pos() == self.pos(),
            r.errs() == self.errs(),
            r.wf() == self.wf(),
            r.name() == path@,
    {
        Lexer { file_path: path, ..self }
    }

    /// The name under which errors are reported.
    pub fn file_path(&self) -> (r: &str)
        ensures
            r@ == self.name(),
    {
        self.file_path.as_str()
    }

    /// The lexical errors found so far, in the order of the source.
    pub fn diagnostics(&self) -> (r: &Vec<LexError>)
        ensures
            r@.map_values(|e: LexError| e@) == self.errs(),
    {
        &self.errors
    }

    fn is_at_end(&self) -> (r: bool)
        ensures
            r == (self.current >= self.source@.len()),
    {
        self.current >= self.source.len()
    }

    fn peek(&self) -> (r: char)
        ensures
            r == if self.current < self.source@.len() {
                self.source@[self.current as int]
            } else {
                '\0'
            },
    {
        if self.is_at_end() {
            '\0'
        } else {
            self.source[self.current]
        }
    }

    fn peek_next(&self) -> (r: char)
        requires
            self.current <= self.source@.len() < usize::MAX,
        ensures
            r == if self.current + 1 < self.source@.len() {
                self.source@[self.current + 1]
            } else {
                '\0'
            },
    {
        if self.current + 1 >= self.source.len() {
            '\0'
        } else {
            self.source[self.current + 1]
        }
    }

    /// Consumes one character, counting it if it ends a line.
    fn advance(&mut self) -> (r: char)
        requires
            old(self).wf(),
            old(self).current < old(self).source@.len(),
        ensures
            final(self).wf(),
            r == old(self).source@[old(self).current as int],
            final(self).current == old(self).current + 1,
            final(self).source == old(self).source,
            final(self).start == old(self).start,
            final(self).errors == old(self).errors,
            final(self).file_path == old(self).file_path,
    {
        let c = self.source[self.current];
        proof {
            lemma_count_newlines_step(self.source@, self.current as int);
            lemma_count_newlines_bound(self.source@.subrange(0, self.current + 1));
        }
        self.current += 1;
        if c == '\n' {
            self.line += 1;
        }
        c
    }

    /// Consumes the next character where it is `expected`.
    fn match_next(&mut self, expected: char) -> (r: bool)
        requires
            old(self).wf(),
        ensures
            final(self).wf(),
            r == (old(self).current < old(self).source@.len() && old(self).source@[old(
                self,
            ).current as int] == expected),
            final(self).current == old(self).current + if r {
                1int
            } else {
                0int
            },
            final(self).source == old(self).source,
            final(self).start == old(self).start,
            final(self).errors == old(self).errors,
            final(self).file_path == old(self).file_path,
    {
        if self.is_at_end() {
            return false;
        }
        if self.source[self.current] != expected {
            return false;
        }
        self.advance();
        true
    }

    fn is_alpha(c: char) -> (r: bool)
        ensures
            r == is_alpha_char(c),
    {
        ('a' <= c && c <= 'z') || ('A' <= c && c <= 'Z') || c == '_'
    }

    /// The text from `from` to `to`.
    fn lexeme_between(&self, from: usize, to: usize) -> (r: std::string::String)
        requires
            from <= to <= self.source@.len(),
        ensures
            r@ == self.source@.subrange(from as int, to as int),
    {
        let mut s = std::string::String::new();
        let mut i: usize = from;
        while i < to
            invariant
                from <= i <= to <= self.source@.len(),
                s@ == self.source@.subrange(from as int, i as int),
            decreases to - i,
        {
            push_char(&mut s, self.source[i]);
            i = i + 1;
            assert(s@ =~= self.source@.subrange(from as int, i as int));
        }
        s
    }

    /// The text of the current lexeme.
    fn get_lexem_string(&self) -> (r: std::string::String)
        requires
            self.start <= self.current <= self.source@.len(),
        ensures
            r@ == self.source@.subrange(self.start as int, self.current as int),
    {
        self.lexeme_between(self.start, self.current)
    }

    /// Whether the current lexeme is exactly `word`.
    fn lexeme_is(&self, word: &str) -> (r: bool)
        requires
            self.start <= self.current <= self.source@.len(),
        ensures
            r == (self.source@.subrange(self.start as int, self.current as int) == word@),
    {
        let n = word.unicode_len();
        if n != self.current - self.start {
            return false;
        }
        let mut i: usize = 0;
        while i < n
            invariant
                n == word@.len() == self.current - self.start,
                self.start <= self.current <= self.source@.len(),
                i <= n,
                forall|j: int| 0 <= j < i ==> self.source@[self.start + j] == word@[j],
            decreases n - i,
        {
            if self.source[self.start + i] != word.get_char(i) {
                return false;
            }
            i = i + 1;
        }
        assert(self.source@.subrange(self.start as int, self.current as int) =~= word@);
        true
    }

    /// Reads the rest of a word and classifies it.
    fn identifier_token(&mut self) -> (r: Option<TokenType>)
        requires
            old(self).wf(),
        ensures
            final(self).wf(),
            final(self).source == old(self).source,
            final(self).start == old(self).start,
            final(self).errors == old(self).errors,
            final(self).file_path == old(self).file_path,
            final(self).current == word_end(old(self).source@, old(self).current as int),
            r == Some(
                keyword_kind(
                    old(self).source@.subrange(old(self).start as int, final(self).current as int),
                ),
            ),
    {
        while self.peek_is_word_char()
            invariant
                self.wf(),
                self.source == old(self).source,
                self.start == old(self).start,
                self.errors == old(self).errors,
                self.file_path == old(self).file_path,
                word_end(self.source@, self.current as int) == word_end(
                    old(self).source@,
                    old(self).current as int,
                ),
            decreases self.source@.len() - self.current,
        {
            self.advance();
        }
        let k = if self.lexeme_is("class") {
            TokenType::Class
        } else if self.lexeme_is("else") {
            TokenType::Else
        } else if self.lexeme_is("false") {
            TokenType::False
        } else if self.lexeme_is("fn") {
            TokenType::Fn
        } else if self.lexeme_is("for") {
            TokenType::For
        } else if self.lexeme_is("if") {
            TokenType::If
        } else if self.lexeme_is("null") {
            TokenType::Null
        } else if self.lexeme_is("return") {
            TokenType::Return
        } else if self.lexeme_is("super") {
            TokenType::Super
        } else if self.lexeme_is("this") {
            TokenType::This
        } else if self.lexeme_is("true") {
            TokenType::True
        } else if self.lexeme_is("while") {
            TokenType::While
        } else if self.lexeme_is("in") {
            TokenType::In
        } else {
            TokenType::Identifier
        };
        Some(k)
    }

    fn peek_is_word_char(&self) -> (r: bool)
        requires
            self.current <= self.source@.len(),
        ensures
            r == (self.current < self.source@.len() && (is_digit(self.source@[self.current as int])
                || is_alpha_char(self.source@[self.current as int]))),
    {
        let c = self.peek();
        if self.is_at_end() {
            false
        } else {
            ('0' <= c && c <= '9') || Lexer::is_alpha(c)
        }
    }

    fn peek_is_digit(&self) -> (r: bool)
        requires
            self.current <= self.source@.len(),
        ensures
            r == (self.current < self.source@.len() && is_digit(self.source@[self.current as int])),
    {
        let c = self.peek();
        !self.is_at_end() && '0' <= c && c <= '9'
    }

    /// Consumes digits while there are any.
    fn skip_digits(&mut self)
        requires
            old(self).wf(),
        ensures
            final(self).wf(),
            final(self).source == old(self).source,
            final(self).start == old(self).start,
            final(self).errors == old(self).errors,
            final(self).file_path == old(self).file_path,
            final(self).current == digits_end(old(self).source@, old(self).current as int),
    {
        while self.peek_is_digit()
            invariant
                self.wf(),
                self.source == old(self).source,
                self.start == old(self).start,
                self.errors == old(self).errors,
                self.file_path == old(self).file_path,
                digits_end(self.source@, self.current as int) == digits_end(
                    old(self).source@,
                    old(self).current as int,
                ),
            decreases self.source@.len() - self.current,
        {
            self.advance();
        }
    }

    /// Reads the rest of a numeric literal: an integer, or a decimal where a
    /// dot and a digit follow the first run of digits.
    fn number_token(&mut self) -> (r: Option<TokenType>)
        requires
            old(self).wf(),
        ensures
            final(self).wf(),
            final(self).source == old(self).source,
            final(self).start == old(self).start,
            final(self).errors == old(self).errors,
            final(self).file_path == old(self).file_path,
            ({
                let src = old(self).source@;
                let e = digits_end(src, old(self).current as int);
                if e + 1 < src.len() && src[e] == '.' && is_digit(src[e + 1]) {
                    r == Some(TokenType::Double) && final(self).current == digits_end(src, e + 1)
                } else {
                    r == Some(TokenType::Int) && final(self).current == e
                }
            }),
    {
        let mut is_float = false;
        self.skip_digits();
        proof {
            lemma_runs_bounded(self.source@, old(self).current as int);
        }
        if self.peek() == '.' && {
            let d = self.peek_next();
            '0' <= d && d <= '9'
        } {
            is_float = true;
            self.advance();
            self.skip_digits();
        }
        if is_float {
            Some(TokenType::Double)
        } else {
            Some(TokenType::Int)
        }
    }

    /// Reads the rest of a string literal, through its closing quote.
    fn string_token(&mut self) -> (r: Option<TokenType>)
        requires
            old(self).wf(),
        ensures
            final(self).wf(),
            final(self).source == old(self).source,
            final(self).start == old(self).start,
            final(self).file_path == old(self).file_path,
            ({
                let src = old(self).source@;
                let close = find_char(src, old(self).current as int, '"');
                if close < src.len() {
                    &&& r == Some(TokenType::String)
                    &&& final(self).current == close + 1
                    &&& final(self).errors == old(self).errors
                } else {
                    &&& r is None
                    &&& final(self).current == src.len()
                    &&& final(self).errs() == old(self).errs().push(
                        LexErrorModel {
                            kind: LexErrorKind::UnterminatedString,
                            line: line_at(src, src.len() as int),
                        },
                    )
                }
            }),
    {
        while self.peek() != '"' && !self.is_at_end()
            invariant
                self.wf(),
                self.source == old(self).source,
                self.start == old(self).start,
                self.errors == old(self).errors,
                self.file_path == old(self).file_path,
                find_char(self.source@, self.current as int, '"') == find_char(
                    old(self).source@,
                    old(self).current as int,
                    '"',
                ),
            decreases self.source@.len() - self.current,
        {
            self.advance();
        }
        if self.is_at_end() {
            let ghost before = self.errs();
            self.errors.push(LexError { kind: LexErrorKind::UnterminatedString, line: self.line });
            assert(self.errs() =~= before.push(
                LexErrorModel { kind: LexErrorKind::UnterminatedString, line: self.line as nat },
            ));
            return None;
        }
        self.advance();
        Some(TokenType::String)
    }

    /// Consumes a line comment up to, not including, the next newline.
    fn skip_comment(&mut self)
        requires
            old(self).wf(),
        ensures
            final(self).wf(),
            final(self).source == old(self).source,
            final(self).start == old(self).start,
            final(self).errors == old(self).errors,
            final(self).file_path == old(self).file_path,
            final(self).current == find_char(old(self).source@, old(self).current as int, '\n'),
    {
        while self.peek() != '\n' && !self.is_at_end()
            invariant
                self.wf(),
                self.source == old(self).source,
                self.start == old(self).start,
                self.errors == old(self).errors,
                self.file_path == old(self).file_path,
                find_char(self.source@, self.current as int, '\n') == find_char(
                    old(self).source@,
                    old(self).current as int,
                    '\n',
                ),
            decreases self.source@.len() - self.current,
        {
            self.advance();
        }
    }

    /// Scans the lexeme that starts at the cursor, as `scan_step` describes,
    /// and makes its token, if it has one, with its full text.
    fn get_next_token(&mut self) -> (r: Option<Token>)
        requires
            old(self).wf(),
            old(self).start == old(self).current < old(self).source@.len(),
        ensures
            final(self).wf(),
            final(self).source == old(self).source,
            final(self).start == old(self).start,
            final(self).file_path == old(self).file_path,
            ({
                let src = old(self).source@;
                let i = old(self).current as int;
                let (k, end, e) = scan_step(src, i);
                &&& final(self).current == end
                &&& final(self).errs() == match e {
                    Some(kind) => old(self).errs().push(
                        LexErrorModel { kind, line: line_at(src, end) },
                    ),
                    None => old(self).errs(),
                }
                &&& r is Some <==> k is Some
                &&& r matches Some(t) ==> t@ == TokenModel {
                    kind: k->0,
                    lexeme: src.subrange(i, end),
                    line: line_at(src, end),
                }
            }),
    {
        let ghost src = self.source@;
        let ghost i = self.current as int;
        let c = self.advance();
        let token = if c == '(' {
            Some(TokenType::Leftparen)
        } else if c == ')' {
            Some(TokenType::Rightparen)
        } else if c == '{' {
            Some(TokenType::Leftcurl)
        } else if c == '}' {
            Some(TokenType::Rightcurl)
        } else if c == '[' {
            Some(TokenType::Leftbrack)
        } else if c == ']' {
            Some(TokenType::Rightbrack)
        } else if c == ',' {
            Some(TokenType::Comma)
        } else if c == '.' {
            Some(TokenType::Dot)
        } else if c == '+' {
            Some(TokenType::Plus)
        } else if c == '-' {
            Some(TokenType::Minus)
        } else if c == ';' {
            Some(TokenType::Semicolon)
        } else if c == '\r' || c == '\t' || c == ' ' || c == '\n' {
            None
        } else if c == '"' {
            self.string_token()
        } else if c == '&' {
            if self.match_next('&') {
                Some(TokenType::And)
            } else {
                None
            }
        } else if c == '|' {
            if self.match_next('|') {
                Some(TokenType::Or)
            } else {
                None
            }
        } else if c == '*' {
            if self.match_next('*') {
                Some(TokenType::Power)
            } else {
                Some(TokenType::Star)
            }
        } else if c == '!' {
            if self.match_next('=') {
                Some(TokenType::Bangequal)
            } else {
                Some(TokenType::Bang)
            }
        } else if c == '=' {
            if self.match_next('=') {
                Some(TokenType::Equalequal)
            } else {
                Some(TokenType::Equal)
            }
        } else if c == '>' {
            if self.match_next('=') {
                Some(TokenType::Greaterequal)
            } else {
                Some(TokenType::Greater)
            }
        } else if c == '<' {
            if self.match_next('=') {
                Some(TokenType::Lessequal)
            } else {
                Some(TokenType::Less)
            }
        } else if c == '/' {
            if self.match_next('/') {
                self.skip_comment();
                None
            } else {
                Some(TokenType::Slash)
            }
        } else if '0' <= c && c <= '9' {
            self.number_token()
        } else if Lexer::is_alpha(c) {
            self.identifier_token()
        } else {
            let ghost before = self.errs();
            self.errors.push(
                LexError { kind: LexErrorKind::UnexpectedCharacter(c), line: self.line },
            );
            assert(self.errs() =~= before.push(
                LexErrorModel { kind: LexErrorKind::UnexpectedCharacter(c), line: self.line as nat },
            ));
            None
        };
        match token {
            Some(t) => Some(Token { token_type: t, line: self.line, lexeme: self.get_lexem_string() }),
            None => None,
        }
    }

    /// Scans from the cursor to the end of the source. Gives the tokens,
    /// closed by `Eof` on the line after the last, where no lexical error was
    /// ever found by this lexer, and `None` otherwise. Every error found is
    /// added to the diagnostics.
    pub fn lex_tokens(&mut self) -> (r: Option<Vec<Token>>)
        requires
            old(self).wf(),
        ensures
            final(self).wf(),
            final(self).src() == old(self).src(),
            final(self).name() == old(self).name(),
            final(self).pos() == old(self).src().len(),
            final(self).errs() == old(self).errs() + errors_from(old(self).src(), old(self).pos()),
            r is None <==> final(self).errs().len() > 0,
            r matches Some(ts) ==> ts@.map_values(|t: Token| t@) == tokens_from(
                old(self).src(),
                old(self).pos(),
            ).push(eof_model(old(self).src())),
    {
        let ghost src = self.source@;
        let ghost first = self.current as int;
        let mut tokens: Vec<Token> = Vec::new();
        while !self.is_at_end()
            invariant
                self.wf(),
                self.source@ == src,
                self.file_path == old(self).file_path,
                first <= self.current,
                tokens@.map_values(|t: Token| t@) + tokens_from(src, self.current as int)
                    == tokens_from(src, first),
                self.errs() + errors_from(src, self.current as int) == old(self).errs()
                    + errors_from(src, first),
            decreases src.len() - self.current,
        {
            self.start = self.current;
            let ghost i = self.current as int;
            let ghost before_toks = tokens@.map_values(|t: Token| t@);
            let ghost before_errs = self.errs();
            proof {
                lemma_scan_step_advances(src, i);
            }
            let token = self.get_next_token();
            match token {
                Some(t) => {
                    let mut t = t;
                    if t.token_type == TokenType::String {
                        // the scan only makes a string token that has both quotes
                        t.lexeme = self.lexeme_between(self.start + 1, self.current - 1);
                    }
                    tokens.push(t);
                    assert(tokens@.map_values(|t: Token| t@) =~= before_toks.push(
                        token_model(src, scan_step(src, i).0->0, i, scan_step(src, i).1),
                    ));
                },
                None => {
                    assert(tokens@.map_values(|t: Token| t@) =~= before_toks);
                },
            }
            assert(tokens@.map_values(|t: Token| t@) + tokens_from(src, self.current as int)
                =~= tokens_from(src, first));
            assert(self.errs() + errors_from(src, self.current as int) =~= old(self).errs()
                + errors_from(src, first));
        }
        assert(self.errs() =~= old(self).errs() + errors_from(src, first));
        if self.errors.len() > 0 {
            return None;
        }
        let ghost before_toks = tokens@.map_values(|t: Token| t@);
        tokens.push(Token { token_type: TokenType::Eof, lexeme: std::string::String::new(), line: self.line });
        assert(tokens@.map_values(|t: Token| t@) =~= before_toks.push(eof_model(src)));
        assert(before_toks =~= tokens_from(src, first));
        Some(tokens)
    }
}

} // verus!
