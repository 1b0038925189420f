use vstd::prelude::*;
use crate::chars::{continues_word, is_digit, starts_word};
use crate::token::{keyword, ScanError, TokenType};

verus! {

/// A token as the lexer sees it: its kind, the source span `[start, end)`
/// that it was read from, and the line of its first character.
pub struct TokenModel {
    pub kind: TokenType,
    pub start: nat,
    pub end: nat,
    pub line: nat,
}

/// What one lexer step reads at a position: where the next step begins, the
/// line there, and the token and diagnostic that it yields, if any.
pub struct Step {
    pub next: nat,
    pub next_line: nat,
    pub token: Option<TokenModel>,
    pub error: Option<ScanError>,
}

/// The whole outcome of a scan: tokens in source order, then diagnostics.
pub struct ScanModel {
    pub tokens: Seq<TokenModel>,
    pub errors: Seq<ScanError>,
}

/// Whether `s[j]` exists and is `c`.
pub open spec fn char_at(s: Seq<char>, j: nat, c: char) -> bool {
    j < s.len() && s[j as int] == c
}

/// The length of the longest run of characters satisfying `p` from `j` on.
pub open spec fn run_len(s: Seq<char>, j: nat, p: spec_fn(char) -> bool) -> nat
    decreases s.len() - j,
{
    if j < s.len() && p(s[j as int]) {
        1 + run_len(s, j + 1, p)
    } else {
        0
    }
}

pub open spec fn digit_run(s: Seq<char>, j: nat) -> nat {
    run_len(s, j, |c: char| is_digit(c))
}

/// A character that may continue an identifier: an alphanumeric one or `_`.
pub open spec fn ident_char(c: char) -> bool {
    c == '_' || continues_word(c)
}

pub open spec fn word_run(s: Seq<char>, j: nat) -> nat {
    run_len(s, j, |c: char| ident_char(c))
}

/// Characters up to the next newline (the rest of a comment).
pub open spec fn line_run(s: Seq<char>, j: nat) -> nat {
    run_len(s, j, |c: char| c != '\n')
}

/// Characters up to the next `"` (the body of a string literal).
pub open spec fn string_run(s: Seq<char>, j: nat) -> nat {
    run_len(s, j, |c: char| c != '"')
}

/// The number of newlines in `s`.
pub open spec fn newlines(s: Seq<char>) -> nat
    decreases s.len(),
{
    if s.len() == 0 {
        0
    } else {
        newlines(s.drop_last()) + if s.last() == '\n' { 1nat } else { 0nat }
    }
}

pub open spec fn single_kind(c: char) -> Option<TokenType> {
    if c == '(' {
        Some(TokenType::LeftParen)
    } else if c == ')' {
        Some(TokenType::RightParen)
    } else if c == '{' {
        Some(TokenType::LeftBrace)
    } else if c == '}' {
        Some(TokenType::RightBrace)
    } else if c == ',' {
        Some(TokenType::Comma)
    } else if c == '.' {
        Some(TokenType::Dot)
    } else if c == '-' {
        Some(TokenType::Minus)
    } else if c == '+' {
        Some(TokenType::Plus)
    } else if c == ';' {
        Some(TokenType::Semicolon)
    } else if c == '*' {
        Some(TokenType::Star)
    } else {
        None
    }
}

/// For an operator character, its kind alone.
pub open spec fn operator_kind(c: char) -> Option<TokenType> {
    if c == '!' {
        Some(TokenType::Bang)
    } else if c == '=' {
        Some(TokenType::Equal)
    } else if c == '<' {
        Some(TokenType::Less)
    } else if c == '>' {
        Some(TokenType::Greater)
    } else {
        None
    }
}

/// For an operator character, its kind when followed by `=`.
pub open spec fn operator_eq_kind(c: char) -> TokenType {
    if c == '!' {
        TokenType::BangEqual
    } else if c == '=' {
        TokenType::EqualEqual
    } else if c == '<' {
        TokenType::LessEqual
    } else {
        TokenType::GreaterEqual
    }
}

pub open spec fn is_blank(c: char) -> bool {
    c == ' ' || c == '\r' || c == '\t'
}

pub open spec fn emit(kind: TokenType, start: nat, end: nat, line: nat) -> Step {
    Step {
        next: end,
        next_line: line,
        token: Some(TokenModel { kind, start, end, line }),
        error: None,
    }
}

pub open spec fn skip(next: nat, line: nat) -> Step {
    Step { next, next_line: line, token: None, error: None }
}

/// The kind of an identifier-shaped lexeme: a reserved word or an identifier.
pub open spec fn word_kind(w: Seq<char>) -> TokenType {
    match keyword(w) {
        Some(k) => k,
        None => TokenType::Identifier,
    }
}

/// The lexer step at position `i < s.len()` on line `line`: the longest
/// token that starts at `i`, or what is discarded or rejected there.
pub open spec fn step(s: Seq<char>, i: nat, line: nat) -> Step {
    let c = s[i as int];
    if single_kind(c) is Some {
        emit(single_kind(c)->0, i, i + 1, line)
    } else if operator_kind(c) is Some {
        if char_at(s, i + 1, '=') {
            emit(operator_eq_kind(c), i, i + 2, line)
        } else {
            emit(operator_kind(c)->0, i, i + 1, line)
        }
    } else if c == '/' {
        if char_at(s, i + 1, '/') {
            skip(i + 2 + line_run(s, i + 2), line)
        } else {
            emit(TokenType::Slash, i, i + 1, line)
        }
    } else if is_blank(c) {
        skip(i + 1, line)
    } else if c == '\n' {
        skip(i + 1, line + 1)
    } else if c == '"' {
        let n = string_run(s, i + 1);
        let body_line = line + newlines(s.subrange((i + 1) as int, (i + 1 + n) as int));
        if i + 1 + n < s.len() {
            Step {
                next: i + 2 + n,
                next_line: body_line,
                token: Some(TokenModel { kind: TokenType::String, start: i, end: i + 2 + n, line }),
                error: None,
            }
        } else {
            Step {
                next: i + 1 + n,
                next_line: body_line,
                token: None,
                error: Some(ScanError::UnterminatedString { line: line as usize }),
            }
        }
    } else if is_digit(c) {
        let end = i + 1 + digit_run(s, i + 1);
        Step {
            next: end,
            next_line: line,
            token: Some(TokenModel { kind: TokenType::Number, start: i, end, line }),
            error: if char_at(s, end, '.') {
                Some(ScanError::FractionalNumber { line: line as usize })
            } else {
                None
            },
        }
    } else if starts_word(c) {
        let end = i + 1 + word_run(s, i + 1);
        emit(word_kind(s.subrange(i as int, end as int)), i, end, line)
    } else {
        Step {
            next: i + 1,
            next_line: line,
            token: None,
            error: Some(ScanError::UnexpectedCharacter { character: c, line: line as usize }),
        }
    }
}

pub proof fn lemma_run_len_bound(s: Seq<char>, j: nat, p: spec_fn(char) -> bool)
    ensures
        j + run_len(s, j, p) <= s.len() || run_len(s, j, p) == 0,
        forall|k: int| j <= k < j + run_len(s, j, p) ==> p(#[trigger] s[k]),
        j + run_len(s, j, p) < s.len() ==> !p(s[(j + run_len(s, j, p)) as int]),
    decreases s.len() - j,
{
    if j < s.len() && p(s[j as int]) {
        lemma_run_len_bound(s, j + 1, p);
    }
}

pub proof fn lemma_newlines_push(s: Seq<char>, a: nat, k: nat)
    requires
        a <= k < s.len(),
    ensures
        newlines(s.subrange(a as int, (k + 1) as int)) == newlines(s.subrange(a as int, k as int)) + if s[k as int] == '\n' { 1nat } else { 0nat },
{
    assert(s.subrange(a as int, (k + 1) as int).drop_last() =~= s.subrange(a as int, k as int));
}

/// Each step moves forward and stays within the source.
pub proof fn lemma_step_bounds(s: Seq<char>, i: nat, line: nat)
    requires
        i < s.len(),
    ensures
        i < step(s, i, line).next <= s.len(),
{
    lemma_run_len_bound(s, i + 1, |c: char| is_digit(c));
    lemma_run_len_bound(s, i + 1, |c: char| ident_char(c));
    lemma_run_len_bound(s, i + 2, |c: char| c != '\n');
    lemma_run_len_bound(s, i + 1, |c: char| c != '"');
}

/// The tokens and diagnostics of the rest of `s`, from position `i` on
/// line `line`; the last token is always the end-of-input token.
pub open spec fn scan_from(s: Seq<char>, i: nat, line: nat) -> ScanModel
    decreases s.len() - i,
    via scan_from_decreases
{
    if i >= s.len() {
        ScanModel {
            tokens: seq![TokenModel { kind: TokenType::Eof, start: s.len(), end: s.len(), line }],
            errors: seq![],
        }
    } else {
        let st = step(s, i, line);
        let rest = scan_from(s, st.next, st.next_line);
        ScanModel {
            tokens: opt_seq(st.token) + rest.tokens,
            errors: opt_seq(st.error) + rest.errors,
        }
    }
}

#[via_fn]
proof fn scan_from_decreases(s: Seq<char>, i: nat, line: nat) {
    if i < s.len() {
        lemma_step_bounds(s, i, line);
    }
}

pub open spec fn opt_seq<T>(o: Option<T>) -> Seq<T> {
    match o {
        Some(x) => seq![x],
        None => seq![],
    }
}

/// The tokens and diagnostics of a whole source text.
pub open spec fn scan(s: Seq<char>) -> ScanModel {
    scan_from(s, 0, 1)
}

} // verus!
