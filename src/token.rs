use vstd::prelude::*;

verus! {

/// The closed set of token kinds handed to a parser.
#[derive(Debug, Clone, Copy, PartialEq, Eq, Structural)]
pub enum TokenType {
    // Single-character tokens.
    LeftParen,
    RightParen,
    LeftBrace,
    RightBrace,
    Comma,
    Dot,
    Minus,
    Plus,
    Semicolon,
    Slash,
    Star,
    // One or two character tokens.
    Bang,
    BangEqual,
    Equal,
    EqualEqual,
    Greater,
    GreaterEqual,
    Less,
    LessEqual,
    // Literals.
    Identifier,
    String,
    Number,
    // Keywords.
    And,
    Class,
    Else,
    False,
    Fun,
    For,
    If,
    Nil,
    Or,
    Print,
    Return,
    Super,
    This,
    True,
    Var,
    While,
    Eof,
}

/// The decoded value that a literal token carries.
///
/// A number is kept as its run of decimal digits, so no precision is lost;
/// `Literal::number_value` decodes it to an integer where it fits.
#[derive(Debug, Clone, PartialEq)]
pub enum Literal {
    Empty,
    Str(String),
    Number(String),
}

pub open spec fn all_digits(d: Seq<char>) -> bool {
    forall|k: int| 0 <= k < d.len() ==> '0' <= #[trigger] d[k] && d[k] <= '9'
}

/// The value of a run of decimal digits.
pub open spec fn decimal(d: Seq<char>) -> nat
    decreases d.len(),
{
    if d.len() == 0 {
        0
    } else {
        decimal(d.drop_last()) * 10 + ((d.last() as u32) - ('0' as u32)) as nat
    }
}

proof fn lemma_decimal_grows(d: Seq<char>, j: nat)
    requires
        j <= d.len(),
        all_digits(d),
    ensures
        decimal(d.take(j as int)) <= decimal(d),
    decreases d.len() - j,
{
    if j < d.len() {
        lemma_decimal_grows(d, j + 1);
        assert(d.take((j + 1) as int).drop_last() =~= d.take(j as int));
        assert(d.take((j + 1) as int).last() == d[j as int]);
    } else {
        assert(d.take(j as int) =~= d);
    }
}

impl Literal {
    /// The integer that a number literal's digits spell, where it fits in a
    /// `u64`; `None` for any other literal.
    pub fn number_value(&self) -> (r: Option<u64>)
        ensures
            r == (if self is Number && all_digits(self->Number_0@) && decimal(self->Number_0@)
                <= u64::MAX {
                Some(decimal(self->Number_0@) as u64)
            } else {
                None
            }),
    {
        match self {
            Literal::Number(d) => {
                let s = d.as_str();
                let n = s.unicode_len();
                let mut acc: u64 = 0;
                let mut k: usize = 0;
                while k < n
                    invariant
                        self is Number,
                        self->Number_0@ == d@,
                        s@ == d@,
                        n == d@.len(),
                        k <= n,
                        all_digits(d@.take(k as int)),
                        acc == decimal(d@.take(k as int)),
                    decreases n - k,
                {
                    let c = s.get_char(k);
                    assert(d@.take(k + 1).drop_last() =~= d@.take(k as int));
                    assert(d@.take(k + 1).last() == c);
                    if !('0' <= c && c <= '9') {
                        assert(!('0' <= d@[k as int] && d@[k as int] <= '9'));
                        assert(!all_digits(d@));
                        return None;
                    }
                    let digit = (c as u32 - '0' as u32) as u64;
                    let next = match acc.checked_mul(10) {
                        Some(x) => x.checked_add(digit),
                        None => None,
                    };
                    match next {
                        Some(v) => {
                            acc = v;
                        },
                        None => {
                            proof {
                                assert(decimal(d@.take(k + 1)) == acc * 10 + digit);
                                assert(acc * 10 + digit > u64::MAX) by (nonlinear_arith)
                                    requires
                                        next is None,
                                        next == (if acc * 10 > u64::MAX { None::<u64> } else if acc * 10 + digit > u64::MAX { None } else { Some((acc * 10 + digit) as u64) }),
                                ;
                                if all_digits(d@) {
                                    lemma_decimal_grows(d@, (k + 1) as nat);
                                }
                                assert(!(all_digits(d@) && decimal(d@) <= u64::MAX));
                            }
                            return None;
                        },
                    }
                    k = k + 1;
                }
                assert(d@.take(k as int) =~= d@);
                Some(acc)
            },
            _ => None,
        }
    }
}

/// One classified unit of the source text.
#[derive(Debug, Clone, PartialEq)]
pub struct Token {
    pub kind: TokenType,
    /// The exact source text of the token (empty for the end-of-input token).
    pub lexeme: String,
    pub literal: Literal,
    /// The 1-based line on which the token's first character stands.
    pub line: usize,
}

/// A lexical diagnostic.
#[derive(Debug, Clone, Copy, PartialEq, Eq, Structural)]
pub enum ScanError {
    /// A `"` was opened and the input ended before it was closed; `line` is
    /// where the string began. Nothing after it is scanned.
    UnterminatedString { line: usize },
    /// A character that starts no token; it is skipped.
    UnexpectedCharacter { character: char, line: usize },
    /// A run of digits followed by `.`: fractional numbers are not supported.
    FractionalNumber { line: usize },
}

/// The reserved word spelled by `w`, if any.
pub open spec fn keyword(w: Seq<char>) -> Option<TokenType> {
    if w == "and"@ {
        Some(TokenType::And)
    } else if w == "class"@ {
        Some(TokenType::Class)
    } else if w == "else"@ {
        Some(TokenType::Else)
    } else if w == "false"@ {
        Some(TokenType::False)
    } else if w == "for"@ {
        Some(TokenType::For)
    } else if w == "fun"@ {
        Some(TokenType::Fun)
    } else if w == "if"@ {
        Some(TokenType::If)
    } else if w == "nil"@ {
        Some(TokenType::Nil)
    } else if w == "or"@ {
        Some(TokenType::Or)
    } else if w == "print"@ {
        Some(TokenType::Print)
    } else if w == "return"@ {
        Some(TokenType::Return)
    } else if w == "super"@ {
        Some(TokenType::Super)
    } else if w == "this"@ {
        Some(TokenType::This)
    } else if w == "true"@ {
        Some(TokenType::True)
    } else if w == "var"@ {
        Some(TokenType::Var)
    } else if w == "while"@ {
        Some(TokenType::While)
    } else {
        None
    }
}

/// Whether `text[start..end]` spells `word`.
fn spells(text: &Vec<char>, start: usize, end: usize, word: &str) -> (r: bool)
    requires
        start <= end <= text@.len(),
    ensures
        r == (text@.subrange(start as int, end as int) == word@),
{
    let n = word.unicode_len();
    if end - start != n {
        return false;
    }
    let mut k: usize = 0;
    while k < n
        invariant
            start <= end <= text@.len(),
            end - start == n,
            n == word@.len(),
            k <= n,
            forall|j: int| 0 <= j < k ==> text@[start + j] == word@[j],
        decreases n - k,
    {
        if text[start + k] != word.get_char(k) {
            assert(text@.subrange(start as int, end as int)[k as int] != word@[k as int]);
            return false;
        }
        k = k + 1;
    }
    assert(text@.subrange(start as int, end as int) =~= word@);
    true
}

/// Looks `text[start..end]` up in the table of reserved words.
pub fn keyword_kind(text: &Vec<char>, start: usize, end: usize) -> (r: Option<TokenType>)
    requires
        start <= end <= text@.len(),
    ensures
        r == keyword(text@.subrange(start as int, end as int)),
{
    if spells(text, start, end, "and") {
        Some(TokenType::And)
    } else if spells(text, start, end, "class") {
        Some(TokenType::Class)
    } else if spells(text, start, end, "else") {
        Some(TokenType::Else)
    } else if spells(text, start, end, "false") {
        Some(TokenType::False)
    } else if spells(text, start, end, "for") {
        Some(TokenType::For)
    } else if spells(text, start, end, "fun") {
        Some(TokenType::Fun)
    } else if spells(text, start, end, "if") {
        Some(TokenType::If)
    } else if spells(text, start, end, "nil") {
        Some(TokenType::Nil)
    } else if spells(text, start, end, "or") {
        Some(TokenType::Or)
    } else if spells(text, start, end, "print") {
        Some(TokenType::Print)
    } else if spells(text, start, end, "return") {
        Some(TokenType::Return)
    } else if spells(text, start, end, "super") {
        Some(TokenType::Super)
    } else if spells(text, start, end, "this") {
        Some(TokenType::This)
    } else if spells(text, start, end, "true") {
        Some(TokenType::True)
    } else if spells(text, start, end, "var") {
        Some(TokenType::Var)
    } else if spells(text, start, end, "while") {
        Some(TokenType::While)
    } else {
        None
    }
}

} // verus!
