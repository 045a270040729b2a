use markup_lexer::token::Token;

#[test]
fn is_end_holds_for_terminators_only() {
    assert!(Token::EOF.is_end());
    assert!(Token::EOL.is_end());
    assert!(!Token::WhiteSpace.is_end());
    assert!(!Token::Heading(1).is_end());
    assert!(!Token::Indent("x".into()).is_end());
    assert!(!Token::Dash.is_end());
}

#[test]
fn default_token_is_eof() {
    assert_eq!(Token::default(), Token::EOF);
}

#[test]
fn heading_renders_with_count() {
    assert_eq!(Token::Heading(1).text(), "Token -> Heading: #1");
    assert_eq!(Token::Heading(12).text(), "Token -> Heading: #12");
    assert_eq!(Token::Heading(105).text(), "Token -> Heading: #105");
    assert_eq!(Token::Heading(0).text(), "Token -> Heading: #0");
}

#[test]
fn indent_renders_with_text() {
    assert_eq!(
        Token::Indent("Test".into()).text(),
        "Token -> Indent: Test "
    );
    assert_eq!(Token::Indent("".into()).text(), "Token -> Indent:  ");
}

#[test]
fn illegal_renders_with_byte_value() {
    assert_eq!(Token::Illegal(123).text(), "Token -> Illegal: 123 ");
    assert_eq!(Token::Illegal(0).text(), "Token -> Illegal: 0 ");
    assert_eq!(Token::Illegal(255).text(), "Token -> Illegal: 255 ");
}

#[test]
fn simple_tokens_render_as_their_fixed_names() {
    assert_eq!(Token::WhiteSpace.text(), "Token -> WhiteSpace");
    assert_eq!(Token::Tab.text(), "Token -> Tab");
    assert_eq!(Token::EOL.text(), "Token -> EOL");
    assert_eq!(Token::EOF.text(), "Token -> EOF");
    assert_eq!(Token::LeftSquare.text(), "Token -> LeftSquare");
    assert_eq!(Token::RightSquare.text(), "Token -> RightSquare");
    assert_eq!(Token::LeftParen.text(), "Token -> LeftParen");
    assert_eq!(Token::RightParen.text(), "Token -> RightParen");
    assert_eq!(Token::LeftAngle.text(), "Token -> LeftAngle");
    assert_eq!(Token::RightAngle.text(), "Token -> RightAngle");
    assert_eq!(Token::Dot.text(), "Token -> Dot");
    assert_eq!(Token::Dash.text(), "Token -> Dash");
    assert_eq!(Token::Equal.text(), "Token -> Equal");
    assert_eq!(Token::Plus.text(), "Token -> Plus");
    assert_eq!(Token::Asterisk.text(), "Token -> Asterisk");
    assert_eq!(Token::Undersocre.text(), "Token -> Undersocre");
    assert_eq!(Token::BackTick.text(), "Token -> BackTick");
    assert_eq!(Token::BackSlash.text(), "Token -> BackSlash");
    assert_eq!(Token::Slash.text(), "Token -> Slash");
    assert_eq!(Token::Colon.text(), "Token -> Colon");
    assert_eq!(Token::SemiColon.text(), "Token -> SemiColon");
}
