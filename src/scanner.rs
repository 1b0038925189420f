use vstd::prelude::*;
use crate::chars::{is_digit, is_word_char, is_word_start, push_char, starts_word};
use crate::model::{
    char_at, digit_run, lemma_newlines_push, lemma_step_bounds, line_run, newlines, opt_seq, scan,
    scan_from, step, string_run, word_run, TokenModel,
};
use crate::token::{keyword_kind, Literal, ScanError, Token, TokenType};

verus! {

/// The outcome of a scan: the tokens, ending in the end-of-input token, and
/// the lexical diagnostics in the order in which they were met.
pub struct ScanResult {
    pub tokens: Vec<Token>,
    pub errors: Vec<ScanError>,
}

/// The decoded value that a token of the model's kind carries.
pub open spec fn literal_matches(lit: Literal, m: TokenModel, s: Seq<char>) -> bool {
    match m.kind {
        TokenType::String => lit is Str && lit->Str_0@ == s.subrange(
            (m.start + 1) as int,
            m.end - 1,
        ),
        TokenType::Number => lit is Number && lit->Number_0@ == s.subrange(
            m.start as int,
            m.end as int,
        ),
        _ => lit is Empty,
    }
}

/// `t` is the token that the model token `m` describes in source `s`.
pub open spec fn token_matches(t: Token, m: TokenModel, s: Seq<char>) -> bool {
    &&& t.kind == m.kind
    &&& t.lexeme@ == s.subrange(m.start as int, m.end as int)
    &&& t.line as nat == m.line
    &&& literal_matches(t.literal, m, s)
}

/// The tokens `ts` are, one for one, those that `ms` describes in `s`.
pub open spec fn tokens_match(ts: Seq<Token>, ms: Seq<TokenModel>, s: Seq<char>) -> bool {
    &&& ts.len() == ms.len()
    &&& forall|k: int| 0 <= k < ts.len() ==> token_matches(#[trigger] ts[k], ms[k], s)
}

/// `after` is `before` with the token that `m` describes appended, or
/// `before` itself where there is no token.
pub open spec fn pushed(before: Seq<Token>, after: Seq<Token>, m: Option<TokenModel>, s: Seq<char>) -> bool {
    match m {
        None => after == before,
        Some(m) => {
            &&& after.len() == before.len() + 1
            &&& after.drop_last() == before
            &&& token_matches(after.last(), m, s)
        },
    }
}

/// A single left-to-right pass over a source text.
pub struct Scanner {
    source: Vec<char>,
    tokens: Vec<Token>,
    errors: Vec<ScanError>,
    start: usize,
    current: usize,
    line: usize,
}

impl Scanner {
    /// The source text.
    pub closed spec fn text(&self) -> Seq<char> {
        self.source@
    }

    /// The position of the next unread character.
    pub closed spec fn position(&self) -> nat {
        self.current as nat
    }

    /// The current line.
    pub closed spec fn line_no(&self) -> nat {
        self.line as nat
    }

    /// The tokens emitted so far.
    pub closed spec fn emitted(&self) -> Seq<Token> {
        self.tokens@
    }

    /// The diagnostics reported so far.
    pub closed spec fn reported(&self) -> Seq<ScanError> {
        self.errors@
    }

    /// The cursor lies within the text, and what was emitted so far followed
    /// by what the rest of the text yields is what the whole text yields.
    pub closed spec fn wf(&self) -> bool {
        let s = self.source@;
        let full = scan(s);
        let rest = scan_from(s, self.current as nat, self.line as nat);
        let n = self.tokens@.len();
        &&& self.current <= s.len() < usize::MAX
        &&& 1 <= self.line <= self.current + 1
        &&& n + rest.tokens.len() == full.tokens.len()
        &&& full.tokens.skip(n as int) == rest.tokens
        &&& forall|k: int| 0 <= k < n ==> token_matches(#[trigger] self.tokens@[k], full.tokens[k], s)
        &&& full.errors == self.errors@ + rest.errors
    }

    spec fn same_but_cursor(&self, other: &Scanner) -> bool {
        &&& self.source == other.source
        &&& self.tokens == other.tokens
        &&& self.errors == other.errors
        &&& self.start == other.start
        &&& self.line == other.line
    }

    /// Starts a scan of `source` at its first character, on line 1.
    pub fn new(source: &str) -> (r: Scanner)
        requires
            source@.len() < usize::MAX,
        ensures
            r.wf(),
            r.text() == source@,
            r.position() == 0,
            r.line_no() == 1,
            r.emitted() == Seq::<Token>::empty(),
            r.reported() == Seq::<ScanError>::empty(),
    {
        let n = source.unicode_len();
        let mut chars: Vec<char> = Vec::with_capacity(n);
        let mut k: usize = 0;
        while k < n
            invariant
                n == source@.len(),
                k <= n,
                chars@ == source@.subrange(0, k as int),
            decreases n - k,
        {
            chars.push(source.get_char(k));
            k = k + 1;
            assert(chars@ =~= source@.subrange(0, k as int));
        }
        assert(chars@ =~= source@);
        let r = Scanner {
            source: chars,
            tokens: Vec::new(),
            errors: Vec::new(),
            start: 0,
            current: 0,
            line: 1,
        };
        assert(scan(r.source@).tokens.skip(0) =~= scan(r.source@).tokens);
        assert(scan(r.source@).errors =~= r.errors@ + scan(r.source@).errors);
        r
    }

    /// Scans the whole remaining text and returns every token, ending in the
    /// end-of-input token, with the diagnostics met on the way.
    pub fn scan_tokens(self) -> (r: ScanResult)
        requires
            self.wf(),
        ensures
            tokens_match(r.tokens@, scan(self.text()).tokens, self.text()),
            r.errors@ == scan(self.text()).errors,
    {
        let mut sc = self;
        while !sc.is_at_end()
            invariant
                sc.wf(),
                sc.source@ == self.source@,
            decreases sc.source@.len() - sc.current,
        {
            sc.scan_token();
        }
        let ghost s = sc.source@;
        let ghost full = scan(s);
        let ghost n = sc.tokens@.len();
        let eof = Token {
            kind: TokenType::Eof,
            lexeme: String::new(),
            literal: Literal::Empty,
            line: sc.line,
        };
        sc.tokens.push(eof);
        proof {
            assert(full.tokens.skip(n as int)[0] == full.tokens[n as int]);
            assert(s.subrange(s.len() as int, s.len() as int) =~= Seq::<char>::empty());
            assert forall|k: int| 0 <= k < sc.tokens@.len() implies token_matches(
                #[trigger] sc.tokens@[k],
                full.tokens[k],
                s,
            ) by {
            }
            assert(full.errors =~= sc.errors@);
        }
        ScanResult { tokens: sc.tokens, errors: sc.errors }
    }

    /// Reads the token, or the discarded text or diagnostic, at the cursor:
    /// one step of the lexer. The emitted tokens grow by exactly the step's
    /// token and the reported diagnostics by exactly the step's diagnostic.
    pub fn scan_token(&mut self)
        requires
            old(self).wf(),
            old(self).position() < old(self).text().len(),
        ensures
            final(self).wf(),
            final(self).text() == old(self).text(),
            final(self).position() == step(
                old(self).text(),
                old(self).position(),
                old(self).line_no(),
            ).next,
            final(self).line_no() == step(
                old(self).text(),
                old(self).position(),
                old(self).line_no(),
            ).next_line,
            final(self).reported() == old(self).reported() + opt_seq(
                step(old(self).text(), old(self).position(), old(self).line_no()).error,
            ),
            pushed(
                old(self).emitted(),
                final(self).emitted(),
                step(old(self).text(), old(self).position(), old(self).line_no()).token,
                old(self).text(),
            ),
    {
        proof {
            lemma_step_bounds(self.source@, self.current as nat, self.line as nat);
        }
        self.start = self.current;
        let c = self.advance();
        if c == '(' {
            self.add_token(TokenType::LeftParen, Literal::Empty);
        } else if c == ')' {
            self.add_token(TokenType::RightParen, Literal::Empty);
        } else if c == '{' {
            self.add_token(TokenType::LeftBrace, Literal::Empty);
        } else if c == '}' {
            self.add_token(TokenType::RightBrace, Literal::Empty);
        } else if c == ',' {
            self.add_token(TokenType::Comma, Literal::Empty);
        } else if c == '.' {
            self.add_token(TokenType::Dot, Literal::Empty);
        } else if c == '-' {
            self.add_token(TokenType::Minus, Literal::Empty);
        } else if c == '+' {
            self.add_token(TokenType::Plus, Literal::Empty);
        } else if c == ';' {
            self.add_token(TokenType::Semicolon, Literal::Empty);
        } else if c == '*' {
            self.add_token(TokenType::Star, Literal::Empty);
        } else if c == '!' {
            let kind = if self.match_char('=') {
                TokenType::BangEqual
            } else {
                TokenType::Bang
            };
            self.add_token(kind, Literal::Empty);
        } else if c == '=' {
            let kind = if self.match_char('=') {
                TokenType::EqualEqual
            } else {
                TokenType::Equal
            };
            self.add_token(kind, Literal::Empty);
        } else if c == '<' {
            let kind = if self.match_char('=') {
                TokenType::LessEqual
            } else {
                TokenType::Less
            };
            self.add_token(kind, Literal::Empty);
        } else if c == '>' {
            let kind = if self.match_char('=') {
                TokenType::GreaterEqual
            } else {
                TokenType::Greater
            };
            self.add_token(kind, Literal::Empty);
        } else if c == '/' {
            if self.match_char('/') {
                self.skip_comment();
            } else {
                self.add_token(TokenType::Slash, Literal::Empty);
            }
        } else if c == ' ' || c == '\r' || c == '\t' {
        } else if c == '\n' {
            self.line = self.line + 1;
        } else if c == '"' {
            self.handle_string();
        } else if '0' <= c && c <= '9' {
            self.handle_number();
        } else if is_word_start(c) {
            self.handle_identifier();
        } else {
            self.errors.push(ScanError::UnexpectedCharacter { character: c, line: self.line });
        }
        proof {
            let st = step(old(self).source@, old(self).current as nat, old(self).line as nat);
            assert(self.errors@ =~= old(self).errors@ + opt_seq(st.error));
            assert(self.steps_from(old(self), old(self).current as nat));
            lemma_commit(*old(self), *self);
        }
    }

    /// Consumes the rest of a comment, up to the next newline.
    fn skip_comment(&mut self)
        requires
            old(self).current <= old(self).source@.len(),
        ensures
            final(self).same_but_cursor(old(self)),
            final(self).current == old(self).current + line_run(
                old(self).source@,
                old(self).current as nat,
            ),
    {
        let ghost s = self.source@;
        let ghost from = self.current as nat;
        loop
            invariant
                from <= self.current <= s.len(),
                self.same_but_cursor(old(self)),
                s == self.source@,
                from == old(self).current,
                line_run(s, from) == (self.current - from) + line_run(s, self.current as nat),
            ensures
                line_run(s, self.current as nat) == 0,
            decreases s.len() - self.current,
        {
            match self.peek() {
                Some(c) => {
                    if c == '\n' {
                        break;
                    }
                    self.advance();
                },
                None => {
                    break;
                },
            }
        }
    }

    /// Reads a string literal whose opening `"` was just consumed.
    fn handle_string(&mut self)
        requires
            old(self).start + 1 == old(self).current <= old(self).source@.len(),
            old(self).source@[old(self).start as int] == '"',
            1 <= old(self).line <= old(self).current,
            old(self).source@.len() < usize::MAX,
        ensures
            final(self).steps_from(old(self), old(self).start as nat),
            1 <= final(self).line <= final(self).current + 1,
    {
        let ghost s = self.source@;
        let ghost i = self.start as nat;
        let ghost ln = self.line as nat;
        let start_line = self.line;
        loop
            invariant
                i + 1 <= self.current <= s.len() < usize::MAX,
                self.source@ == s,
                self.source == old(self).source,
                self.start == i,
                self.tokens == old(self).tokens,
                self.errors == old(self).errors,
                string_run(s, i + 1) == (self.current - i - 1) + string_run(s, self.current as nat),
                self.line == ln + newlines(s.subrange((i + 1) as int, self.current as int)),
                1 <= self.line <= self.current,
                start_line == ln,
            ensures
                string_run(s, self.current as nat) == 0,
            decreases s.len() - self.current,
        {
            match self.peek() {
                Some(c) => {
                    if c == '"' {
                        break;
                    }
                    proof {
                        lemma_newlines_push(s, i + 1, self.current as nat);
                    }
                    if c == '\n' {
                        self.line = self.line + 1;
                    }
                    self.advance();
                },
                None => {
                    break;
                },
            }
        }
        if self.is_done() {
            self.errors.push(ScanError::UnterminatedString { line: start_line });
            proof {
                assert(self.errors@ =~= old(self).errors@ + opt_seq(step(s, i, ln).error));
            }
        } else {
            self.advance();
            let value = self.text_between(self.start + 1, self.current - 1);
            self.push_token(TokenType::String, Literal::Str(value), start_line);
            proof {
                assert(self.errors@ =~= old(self).errors@ + opt_seq(step(s, i, ln).error));
            }
        }
    }

    /// Reads a number whose first digit was just consumed.
    fn handle_number(&mut self)
        requires
            old(self).start + 1 == old(self).current <= old(self).source@.len(),
            is_digit(old(self).source@[old(self).start as int]),
        ensures
            final(self).steps_from(old(self), old(self).start as nat),
            final(self).line == old(self).line,
    {
        let ghost s = self.source@;
        let ghost i = self.start as nat;
        loop
            invariant
                i + 1 <= self.current <= s.len(),
                self.same_but_cursor(old(self)),
                self.source@ == s,
                self.start == i,
                digit_run(s, i + 1) == (self.current - i - 1) + digit_run(s, self.current as nat),
            ensures
                digit_run(s, self.current as nat) == 0,
            decreases s.len() - self.current,
        {
            match self.peek() {
                Some(c) => {
                    if !('0' <= c && c <= '9') {
                        break;
                    }
                    self.advance();
                },
                None => {
                    break;
                },
            }
        }
        if self.peek() == Some('.') {
            self.errors.push(ScanError::FractionalNumber { line: self.line });
        }
        proof {
            assert(self.errors@ =~= old(self).errors@ + opt_seq(step(s, i, self.line as nat).error));
        }
        let digits = self.text_between(self.start, self.current);
        self.add_token(TokenType::Number, Literal::Number(digits));
    }

    /// Reads an identifier or reserved word whose first letter was just
    /// consumed.
    fn handle_identifier(&mut self)
        requires
            old(self).start + 1 == old(self).current <= old(self).source@.len(),
            starts_word(old(self).source@[old(self).start as int]),
            !is_digit(old(self).source@[old(self).start as int]),
        ensures
            final(self).steps_from(old(self), old(self).start as nat),
            final(self).line == old(self).line,
    {
        let ghost s = self.source@;
        let ghost i = self.start as nat;
        loop
            invariant
                i + 1 <= self.current <= s.len(),
                self.same_but_cursor(old(self)),
                self.source@ == s,
                self.start == i,
                word_run(s, i + 1) == (self.current - i - 1) + word_run(s, self.current as nat),
            ensures
                word_run(s, self.current as nat) == 0,
            decreases s.len() - self.current,
        {
            match self.peek() {
                Some(c) => {
                    if !(c == '_' || is_word_char(c)) {
                        break;
                    }
                    self.advance();
                },
                None => {
                    break;
                },
            }
        }
        let kind = match keyword_kind(&self.source, self.start, self.current) {
            Some(k) => k,
            None => TokenType::Identifier,
        };
        self.add_token(kind, Literal::Empty);
        proof {
            assert(self.errors@ =~= old(self).errors@ + opt_seq(step(s, i, self.line as nat).error));
        }
    }

    /// Consumes the next character if it is `expected`.
    fn match_char(&mut self, expected: char) -> (r: bool)
        requires
            old(self).current <= old(self).source@.len(),
        ensures
            r == char_at(old(self).source@, old(self).current as nat, expected),
            final(self).same_but_cursor(old(self)),
            final(self).current == old(self).current + if r { 1usize } else { 0usize },
    {
        if self.current < self.source.len() && self.source[self.current] == expected {
            self.current = self.current + 1;
            true
        } else {
            false
        }
    }

    /// Whether the whole text has been read.
    pub fn is_at_end(&self) -> (r: bool)
        requires
            self.wf(),
        ensures
            self.position() <= self.text().len(),
            r == (self.position() == self.text().len()),
    {
        self.current >= self.source.len()
    }

    /// The next unread character, if any, without consuming it.
    fn peek(&self) -> (r: Option<char>)
        ensures
            r == if self.current < self.source@.len() {
                Some(self.source@[self.current as int])
            } else {
                None
            },
    {
        if self.current < self.source.len() {
            Some(self.source[self.current])
        } else {
            None
        }
    }

    /// Consumes the next character and returns it.
    fn advance(&mut self) -> (r: char)
        requires
            old(self).current < old(self).source.len(),
        ensures
            r == old(self).source@[old(self).current as int],
            final(self).same_but_cursor(old(self)),
            final(self).current == old(self).current + 1,
    {
        let c = self.source[self.current];
        self.current = self.current + 1;
        c
    }

    /// The source text in `[from, to)`.
    fn text_between(&self, from: usize, to: usize) -> (r: String)
        requires
            from <= to <= self.source@.len(),
        ensures
            r@ == self.source@.subrange(from as int, to as int),
    {
        let mut out = String::new();
        let mut k: usize = from;
        while k < to
            invariant
                from <= k <= to <= self.source@.len(),
                out@ == self.source@.subrange(from as int, k as int),
            decreases to - k,
        {
            push_char(&mut out, self.source[k]);
            k = k + 1;
            assert(out@ =~= self.source@.subrange(from as int, k as int));
        }
        out
    }

    /// The token of `kind` that spans from `start` to the cursor.
    spec fn here(&self, kind: TokenType) -> TokenModel {
        TokenModel {
            kind,
            start: self.start as nat,
            end: self.current as nat,
            line: self.line as nat,
        }
    }

    /// Emits a token of `kind` for the text from `start` to the cursor.
    fn add_token(&mut self, kind: TokenType, literal: Literal)
        requires
            old(self).start <= old(self).current <= old(self).source@.len(),
            literal_matches(literal, old(self).here(kind), old(self).source@),
        ensures
            final(self).source == old(self).source,
            final(self).errors == old(self).errors,
            final(self).start == old(self).start,
            final(self).current == old(self).current,
            final(self).line == old(self).line,
            pushed(old(self).tokens@, final(self).tokens@, Some(old(self).here(kind)), old(self).source@),
    {
        self.push_token(kind, literal, self.line);
    }

    /// Emits a token of `kind` on `line` for the text from `start` to the
    /// cursor.
    fn push_token(&mut self, kind: TokenType, literal: Literal, line: usize)
        requires
            old(self).start <= old(self).current <= old(self).source@.len(),
            literal_matches(
                literal,
                TokenModel { line: line as nat, ..old(self).here(kind) },
                old(self).source@,
            ),
        ensures
            final(self).source == old(self).source,
            final(self).errors == old(self).errors,
            final(self).start == old(self).start,
            final(self).current == old(self).current,
            final(self).line == old(self).line,
            pushed(
                old(self).tokens@,
                final(self).tokens@,
                Some(TokenModel { line: line as nat, ..old(self).here(kind) }),
                old(self).source@,
            ),
    {
        let lexeme = self.text_between(self.start, self.current);
        self.tokens.push(Token { kind, lexeme, literal, line });
        assert(self.tokens@.drop_last() =~= old(self).tokens@);
    }

    /// Whether the cursor has passed the last character.
    fn is_done(&self) -> (r: bool)
        ensures
            r == (self.current >= self.source@.len()),
    {
        self.current >= self.source.len()
    }

    /// `self` is what `before` becomes by the lexer step at `i`.
    spec fn steps_from(&self, before: &Scanner, i: nat) -> bool {
        let s = before.source@;
        let st = step(s, i, before.line as nat);
        &&& self.source == before.source
        &&& self.current == st.next
        &&& self.line == st.next_line
        &&& self.errors@ == before.errors@ + opt_seq(st.error)
        &&& pushed(before.tokens@, self.tokens@, st.token, s)
    }
}

/// One lexer step, taken from a well-formed state, leads to a well-formed state.
proof fn lemma_commit(before: Scanner, after: Scanner)
    requires
        before.wf(),
        before.current < before.source@.len(),
        after.steps_from(&before, before.current as nat),
        1 <= after.line <= after.current + 1,
    ensures
        after.wf(),
{
    let s = before.source@;
    let full = scan(s);
    let i = before.current as nat;
    let st = step(s, i, before.line as nat);
    let rest0 = scan_from(s, i, before.line as nat);
    let rest1 = scan_from(s, st.next, st.next_line);
    let n = before.tokens@.len();
    lemma_step_bounds(s, i, before.line as nat);
    assert(rest0.tokens == opt_seq(st.token) + rest1.tokens);
    assert(full.errors =~= after.errors@ + rest1.errors);
    match st.token {
        None => {
            assert(after.tokens@ == before.tokens@);
        },
        Some(m) => {
            assert(full.tokens[n as int] == full.tokens.skip(n as int)[0]);
            assert(full.tokens.skip((n + 1) as int) =~= full.tokens.skip(n as int).skip(1));
            assert(rest0.tokens.skip(1) =~= rest1.tokens);
            assert forall|k: int| 0 <= k < n + 1 implies token_matches(
                #[trigger] after.tokens@[k],
                full.tokens[k],
                s,
            ) by {
                if k < n {
                    assert(after.tokens@[k] == after.tokens@.drop_last()[k]);
                }
            }
        },
    }
}

} // verus!
