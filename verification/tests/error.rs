use minic::error::{format_error_message, format_expected, format_found, ParseError, Rich, RichPattern, RichReason};
use minic::lexer::{Span, Token};

#[test]
fn message_lists_expected_sorted_once() {
    let error = Rich {
        reason: RichReason::ExpectedFound,
        span: Span { start: 3, end: 4 },
        expected: vec![
            RichPattern::Token(Token::Semicolon),
            RichPattern::Identifier,
            RichPattern::Token(Token::Semicolon),
            RichPattern::EndOfInput,
        ],
        found: Some(Token::RBrace),
    };
    assert_eq!(
        format_expected(&error),
        Some("`;`, end of input, identifier".to_string())
    );
    assert_eq!(format_found(&error), "`}`");
    assert_eq!(
        format_error_message(&error),
        "expected `;`, end of input, identifier, found `}`"
    );
    let parse_error = ParseError::from_rich(error);
    assert_eq!(parse_error.span, Span { start: 3, end: 4 });
    assert_eq!(
        parse_error.message,
        "expected `;`, end of input, identifier, found `}`"
    );
}

#[test]
fn message_without_expected() {
    let error = Rich {
        reason: RichReason::ExpectedFound,
        span: Span { start: 0, end: 0 },
        expected: vec![],
        found: None,
    };
    assert_eq!(format_expected(&error), None);
    assert_eq!(format_found(&error), "end of input");
    assert_eq!(format_error_message(&error), "found end of input");
}

#[test]
fn pattern_descriptions() {
    assert_eq!(RichPattern::Number.describe(), "number");
    assert_eq!(RichPattern::StringLiteral.describe(), "string");
    assert_eq!(RichPattern::Token(Token::LParen).describe(), "`(`");
}

#[test]
fn custom_reason_gives_its_own_message() {
    let error = Rich {
        reason: RichReason::Custom("unterminated block".to_string()),
        span: Span { start: 5, end: 7 },
        expected: vec![RichPattern::Token(Token::RBrace)],
        found: None,
    };
    assert_eq!(format_error_message(&error), "unterminated block");
    let parse_error = ParseError::from_rich(error);
    assert_eq!(parse_error.span, Span { start: 5, end: 7 });
    assert_eq!(parse_error.message, "unterminated block");
}
