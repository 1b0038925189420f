use lox::{Literal, ScanError, ScanResult, Scanner, Token, TokenType};

fn scan(source: &str) -> ScanResult {
    Scanner::new(source).scan_tokens()
}

fn kinds(tokens: &[Token]) -> Vec<TokenType> {
    tokens.iter().map(|t| t.kind).collect()
}

fn single_token(source: &str) -> Token {
    let r = scan(source);
    assert!(r.errors.is_empty(), "{:?}", r.errors);
    assert_eq!(r.tokens.len(), 2, "{:?}", r.tokens);
    assert_eq!(r.tokens[1].kind, TokenType::Eof);
    r.tokens[0].clone()
}

#[test]
fn empty_source_yields_only_end_of_input() {
    let r = scan("");
    assert_eq!(r.tokens.len(), 1);
    assert_eq!(r.tokens[0].kind, TokenType::Eof);
    assert_eq!(r.tokens[0].lexeme, "");
    assert_eq!(r.tokens[0].literal, Literal::Empty);
    assert_eq!(r.tokens[0].line, 1);
    assert!(r.errors.is_empty());
}

#[test]
fn every_scan_ends_in_one_end_of_input() {
    for source in ["", "x", "a + b\n", "\"open", "@#$", "1.5", "// only\n\n"] {
        let r = scan(source);
        let last = r.tokens.last().unwrap();
        assert_eq!(last.kind, TokenType::Eof);
        assert_eq!(last.lexeme, "");
        assert_eq!(last.literal, Literal::Empty);
        let eofs = r.tokens.iter().filter(|t| t.kind == TokenType::Eof).count();
        assert_eq!(eofs, 1, "{source:?}");
    }
}

#[test]
fn lexemes_rebuild_significant_text() {
    let r = scan("var x = 10; // set x\n\tprint \"a b\" != x;\r\n");
    assert!(r.errors.is_empty());
    let joined: String = r.tokens.iter().map(|t| t.lexeme.as_str()).collect();
    assert_eq!(joined, "varx=10;print\"a b\"!=x;");
}

#[test]
fn lines_count_preceding_newlines() {
    let r = scan("a\nb\n\nc // d\n\"s\nt\" e");
    assert!(r.errors.is_empty());
    let lines: Vec<usize> = r.tokens.iter().map(|t| t.line).collect();
    // a, b, c, the string (begins on line 5), e, end of input
    assert_eq!(lines, vec![1, 2, 4, 5, 6, 6]);
    assert!(lines.windows(2).all(|w| w[0] <= w[1]));
}

#[test]
fn comment_yields_no_tokens() {
    let r = scan("//comment\n");
    assert!(r.errors.is_empty());
    assert_eq!(kinds(&r.tokens), vec![TokenType::Eof]);
    assert_eq!(r.tokens[0].line, 2);

    let r = scan("//comment");
    assert_eq!(kinds(&r.tokens), vec![TokenType::Eof]);
    assert_eq!(r.tokens[0].line, 1);

    let r = scan("// a ( \"b\n)");
    assert_eq!(kinds(&r.tokens), vec![TokenType::RightParen, TokenType::Eof]);
    assert_eq!(r.tokens[0].line, 2);
}

#[test]
fn single_character_punctuation() {
    let source = String::from("(") + "){};,.-+*";
    let r = scan(&source);
    assert!(r.errors.is_empty());
    assert_eq!(r.tokens.len(), 11);
    let expected = [
        TokenType::LeftParen,
        TokenType::RightParen,
        TokenType::LeftBrace,
        TokenType::RightBrace,
        TokenType::Semicolon,
        TokenType::Comma,
        TokenType::Dot,
        TokenType::Minus,
        TokenType::Plus,
        TokenType::Star,
    ];
    for (k, (t, c)) in r.tokens.iter().zip(source.chars()).enumerate() {
        assert_eq!(t.kind, expected[k]);
        assert_eq!(t.lexeme, c.to_string());
        assert_eq!(t.literal, Literal::Empty);
        assert_eq!(t.line, 1);
    }
    assert_eq!(r.tokens[10].kind, TokenType::Eof);
}

#[test]
fn one_or_two_character_operators() {
    let cases = [
        ("!=", TokenType::BangEqual),
        ("!", TokenType::Bang),
        ("==", TokenType::EqualEqual),
        ("=", TokenType::Equal),
        ("<=", TokenType::LessEqual),
        ("<", TokenType::Less),
        (">=", TokenType::GreaterEqual),
        (">", TokenType::Greater),
    ];
    for (source, kind) in cases {
        let t = single_token(source);
        assert_eq!(t.kind, kind, "{source:?}");
        assert_eq!(t.lexeme, source);
        assert_eq!(t.literal, Literal::Empty);
    }
}

#[test]
fn operators_take_the_longest_match() {
    let r = scan("!==<>=/");
    assert_eq!(
        kinds(&r.tokens),
        vec![
            TokenType::BangEqual,
            TokenType::Equal,
            TokenType::Less,
            TokenType::GreaterEqual,
            TokenType::Slash,
            TokenType::Eof
        ]
    );
}

#[test]
fn number_literal() {
    let t = single_token("123");
    assert_eq!(t.kind, TokenType::Number);
    assert_eq!(t.lexeme, "123");
    assert_eq!(t.literal, Literal::Number(String::from("123")));
    assert_eq!(t.literal.number_value(), Some(123));
    assert_eq!(t.literal.number_value().unwrap() as f64, 123.0);
}

#[test]
fn number_value_decodes_digits() {
    assert_eq!(Literal::Number(String::from("0")).number_value(), Some(0));
    assert_eq!(Literal::Number(String::from("0042")).number_value(), Some(42));
    assert_eq!(
        Literal::Number(String::from("18446744073709551615")).number_value(),
        Some(u64::MAX)
    );
    assert_eq!(Literal::Number(String::from("18446744073709551616")).number_value(), None);
    assert_eq!(Literal::Number(String::from("12a")).number_value(), None);
    assert_eq!(Literal::Str(String::from("12")).number_value(), None);
    assert_eq!(Literal::Empty.number_value(), None);
}

#[test]
fn string_literal() {
    let t = single_token("\"hello\"");
    assert_eq!(t.kind, TokenType::String);
    assert_eq!(t.lexeme, "\"hello\"");
    assert_eq!(t.literal, Literal::Str(String::from("hello")));
}

#[test]
fn string_literal_spans_lines_and_keeps_its_text() {
    let r = scan("\"a // b\nc\" x");
    assert!(r.errors.is_empty());
    assert_eq!(r.tokens[0].literal, Literal::Str(String::from("a // b\nc")));
    assert_eq!(r.tokens[0].line, 1);
    assert_eq!(r.tokens[1].lexeme, "x");
    assert_eq!(r.tokens[1].line, 2);

    let t = single_token("\"\"");
    assert_eq!(t.literal, Literal::Str(String::new()));
}

#[test]
fn unterminated_string() {
    let r = scan("\"unterminated");
    assert_eq!(r.errors, vec![ScanError::UnterminatedString { line: 1 }]);
    assert_eq!(kinds(&r.tokens), vec![TokenType::Eof]);

    let r = scan("x\n\"open\nmore");
    assert_eq!(r.errors, vec![ScanError::UnterminatedString { line: 2 }]);
    assert_eq!(kinds(&r.tokens), vec![TokenType::Identifier, TokenType::Eof]);
    assert_eq!(r.tokens[1].line, 3);
}

#[test]
fn identifier_and_keyword() {
    let t = single_token("foo");
    assert_eq!(t.kind, TokenType::Identifier);
    assert_eq!(t.lexeme, "foo");
    assert_eq!(t.literal, Literal::Empty);

    let t = single_token("and");
    assert_eq!(t.kind, TokenType::And);
    assert_eq!(t.lexeme, "and");
}

#[test]
fn all_reserved_words() {
    let cases = [
        ("and", TokenType::And),
        ("class", TokenType::Class),
        ("else", TokenType::Else),
        ("false", TokenType::False),
        ("for", TokenType::For),
        ("fun", TokenType::Fun),
        ("if", TokenType::If),
        ("nil", TokenType::Nil),
        ("or", TokenType::Or),
        ("print", TokenType::Print),
        ("return", TokenType::Return),
        ("super", TokenType::Super),
        ("this", TokenType::This),
        ("true", TokenType::True),
        ("var", TokenType::Var),
        ("while", TokenType::While),
    ];
    for (word, kind) in cases {
        assert_eq!(single_token(word).kind, kind, "{word:?}");
    }
    for word in ["And", "andy", "fo", "classes", "whilE"] {
        assert_eq!(single_token(word).kind, TokenType::Identifier, "{word:?}");
    }
}

#[test]
fn identifiers_are_maximal_alphanumeric_runs() {
    let r = scan("x1 and_2");
    assert!(r.errors.is_empty(), "{:?}", r.errors);
    assert_eq!(
        kinds(&r.tokens),
        vec![TokenType::Identifier, TokenType::Identifier, TokenType::Eof]
    );
    assert_eq!(r.tokens[0].lexeme, "x1");
    assert_eq!(r.tokens[1].lexeme, "and_2");
    assert_eq!(r.tokens[2].lexeme, "");

    let t = single_token("x1y2");
    assert_eq!(t.kind, TokenType::Identifier);
    assert_eq!(t.lexeme, "x1y2");

    let t = single_token("for_");
    assert_eq!(t.kind, TokenType::Identifier);
    assert_eq!(t.lexeme, "for_");
}

#[test]
fn underscore_does_not_start_an_identifier() {
    let r = scan("_x");
    assert_eq!(r.errors, vec![ScanError::UnexpectedCharacter { character: '_', line: 1 }]);
    assert_eq!(kinds(&r.tokens), vec![TokenType::Identifier, TokenType::Eof]);
    assert_eq!(r.tokens[0].lexeme, "x");
}

#[test]
fn non_ascii_letters_form_identifiers() {
    let t = single_token("héllo");
    assert_eq!(t.kind, TokenType::Identifier);
    assert_eq!(t.lexeme, "héllo");

    let r = scan("€");
    assert_eq!(r.errors, vec![ScanError::UnexpectedCharacter { character: '€', line: 1 }]);
}

#[test]
fn unexpected_characters_are_reported_and_skipped() {
    let r = scan("@ x\n# $");
    assert_eq!(kinds(&r.tokens), vec![TokenType::Identifier, TokenType::Eof]);
    assert_eq!(
        r.errors,
        vec![
            ScanError::UnexpectedCharacter { character: '@', line: 1 },
            ScanError::UnexpectedCharacter { character: '#', line: 2 },
            ScanError::UnexpectedCharacter { character: '$', line: 2 },
        ]
    );
}

#[test]
fn fractional_number_is_rejected() {
    let r = scan("1.5");
    assert_eq!(r.errors, vec![ScanError::FractionalNumber { line: 1 }]);
    assert_eq!(
        kinds(&r.tokens),
        vec![TokenType::Number, TokenType::Dot, TokenType::Number, TokenType::Eof]
    );
    let r = scan("1 .5");
    assert!(r.errors.is_empty());
}

#[test]
fn whitespace_is_discarded() {
    let r = scan(" \t\r\n ");
    assert!(r.errors.is_empty());
    assert_eq!(kinds(&r.tokens), vec![TokenType::Eof]);
    assert_eq!(r.tokens[0].line, 2);
}

#[test]
fn scanning_one_token_at_a_time() {
    let mut s = Scanner::new("( /");
    assert!(!s.is_at_end());
    s.scan_token();
    assert!(!s.is_at_end());
    s.scan_token();
    s.scan_token();
    assert!(s.is_at_end());
    let r = s.scan_tokens();
    assert_eq!(
        kinds(&r.tokens),
        vec![TokenType::LeftParen, TokenType::Slash, TokenType::Eof]
    );
}
