use minic::lexer::{lex as lex_spanned, LexError, Span, Token};

fn lex(source: &str) -> Vec<Token<'_>> {
    lex_spanned(source)
        .unwrap_or_else(|err| panic!("lexer error: {:?}", err))
        .into_iter()
        .map(|(token, _)| token)
        .collect()
}

#[test]
fn lex_keywords_ident_number() {
    let tokens = lex("int x = 42;");
    assert_eq!(
        tokens,
        vec![
            Token::Int,
            Token::Ident("x"),
            Token::Assign,
            Token::Number(42),
            Token::Semicolon
        ]
    );
}

#[test]
fn lex_operators_and_delimiters() {
    let tokens = lex("a==b!=c<=d>=e<f>g&(h+i);");
    assert_eq!(
        tokens,
        vec![
            Token::Ident("a"),
            Token::Eq,
            Token::Ident("b"),
            Token::NotEq,
            Token::Ident("c"),
            Token::Lte,
            Token::Ident("d"),
            Token::Gte,
            Token::Ident("e"),
            Token::Lt,
            Token::Ident("f"),
            Token::Gt,
            Token::Ident("g"),
            Token::And,
            Token::LParen,
            Token::Ident("h"),
            Token::Plus,
            Token::Ident("i"),
            Token::RParen,
            Token::Semicolon
        ]
    );
}

#[test]
fn lex_sizeof_keyword() {
    let tokens = lex("sizeof x;");
    assert_eq!(
        tokens,
        vec![Token::Sizeof, Token::Ident("x"), Token::Semicolon]
    );
}

#[test]
fn lex_spans_count_characters() {
    let tokens = lex_spanned("int  ab=1;").unwrap();
    let spans: Vec<Span> = tokens.iter().map(|(_, span)| *span).collect();
    assert_eq!(
        spans,
        vec![
            Span { start: 0, end: 3 },
            Span { start: 5, end: 7 },
            Span { start: 7, end: 8 },
            Span { start: 8, end: 9 },
            Span { start: 9, end: 10 },
        ]
    );
}

#[test]
fn lex_keyword_prefix_is_identifier() {
    assert_eq!(lex("integer iff"), vec![Token::Ident("integer"), Token::Ident("iff")]);
    assert_eq!(lex("char"), vec![Token::Char]);
}

#[test]
fn lex_brackets_strings_and_all_keywords() {
    assert_eq!(
        lex("a[1] \"hi there\" if else while for return /"),
        vec![
            Token::Ident("a"),
            Token::LBracket,
            Token::Number(1),
            Token::RBracket,
            Token::String("hi there"),
            Token::If,
            Token::Else,
            Token::While,
            Token::For,
            Token::Return,
            Token::Slash,
        ]
    );
}

#[test]
fn lex_skips_whitespace_kinds() {
    assert_eq!(lex(" \t\n\x0c1"), vec![Token::Number(1)]);
    assert_eq!(lex(""), vec![]);
}

#[test]
fn lex_rejects_unknown_character() {
    assert_eq!(lex_spanned("a $ b"), Err(LexError::InvalidToken(2)));
    assert_eq!(lex_spanned("!"), Err(LexError::InvalidToken(0)));
}

#[test]
fn lex_rejects_unterminated_string() {
    assert_eq!(lex_spanned("x \"abc"), Err(LexError::InvalidToken(2)));
}

#[test]
fn lex_rejects_number_too_large() {
    assert_eq!(
        lex_spanned("1 99999999999999999999999"),
        Err(LexError::NumberTooLarge(2))
    );
    assert_eq!(lex("18446744073709551615"), vec![Token::Number(18446744073709551615)]);
}

#[test]
fn token_describe_matches_display() {
    assert_eq!(Token::Int.describe(), "`int`");
    assert_eq!(Token::Number(7).describe(), "number `7`");
    assert_eq!(Token::Ident("abc").describe(), "identifier `abc`");
    assert_eq!(Token::LBrace.describe(), "`{`");
    assert_eq!(Token::RBrace.describe(), "`}`");
    assert_eq!(Token::NotEq.describe(), "`!=`");
}
