use rs_tip::errors::Span;
use rs_tip::syntax::lexer::located;
use rs_tip::syntax::lexer::LexicalError;
use rs_tip::syntax::lexer::Token;

#[test]
fn a_token_is_handed_on_with_its_offsets() {
    let item = located(Token::Identifier("x".to_string()), "x".to_string(), 4, 5);
    assert_eq!(item.unwrap(), (4, Token::Identifier("x".to_string()), 5));
    let item = located(Token::Int(42), "42".to_string(), 0, 2);
    assert_eq!(item.unwrap(), (0, Token::Int(42), 2));
    let item = located(Token::EqualEqual, "==".to_string(), 7, 9);
    assert_eq!(item.unwrap(), (7, Token::EqualEqual, 9));
}

#[test]
fn text_that_is_no_token_becomes_a_diagnostic_at_its_span() {
    let diagnostic = located(Token::Error, "^".to_string(), 3, 4).unwrap_err();
    assert_eq!(diagnostic.span, Span::new(3, 4));
    match diagnostic.message {
        LexicalError::InvalidInput(text) => assert_eq!(text, "^"),
    }
}
