use markup_lexer::error::Error;
use markup_lexer::lexer::Lexer;
use markup_lexer::token::Token;

#[test]
fn get_next_token() {
    let input = "# Test + --243a,.p ## test lol\n2\n";

    let tokens = vec![
        Token::EOL,
        Token::Heading(1),
        Token::WhiteSpace,
        Token::Indent("Test".into()),
        Token::WhiteSpace,
        Token::Plus,
        Token::WhiteSpace,
        Token::Dash,
        Token::Dash,
        Token::Indent("243a,".into()),
        Token::Dot,
        Token::Indent("p".into()),
        Token::WhiteSpace,
        Token::Heading(2),
        Token::WhiteSpace,
        Token::Indent("test".into()),
        Token::WhiteSpace,
        Token::Indent("lol".into()),
        Token::EOL,
        Token::Indent("2".into()),
        Token::EOL,
        Token::EOF,
    ];

    let mut lexer = Lexer::new();

    let res = lexer.parse(input).unwrap();

    let mut diff: Vec<(Token, Token)> = vec![];
    for (i, t) in tokens.iter().enumerate() {
        if *t != res[i] {
            diff.push((t.clone(), res[i].clone()))
        }
    }

    println!("DIFF {:?}", diff);
    println!("TOKENS: {:?}\nres {:?}\n", tokens, res);
    assert_eq!(tokens, res);
}

#[test]
fn dummy() {
    let text = "\n    ### TODO\n\n    use to do that in the \nlol\n\n- lol \n";

    let mut lexer = Lexer::new();

    let res = lexer.parse(text);

    println!("{:?}", res);

    assert_eq!(true, true);
}

#[test]
fn empty_input_leading_newline_quirk() {
    let mut lexer = Lexer::new();
    let res = lexer.parse("").unwrap();
    assert_eq!(res, vec![Token::EOL, Token::EOF]);
}

#[test]
fn scenario_heading_line() {
    let mut lexer = Lexer::new();
    let res = lexer.parse("# Test + --243a,.p").unwrap();
    let expected = vec![
        Token::EOL,
        Token::Heading(1),
        Token::WhiteSpace,
        Token::Indent("Test".into()),
        Token::WhiteSpace,
        Token::Plus,
        Token::WhiteSpace,
        Token::Dash,
        Token::Dash,
        Token::Indent("243a,".into()),
        Token::Dot,
        Token::Indent("p".into()),
        Token::EOF,
    ];
    assert_eq!(res, expected);
}

#[test]
fn scenario_digit_and_newline() {
    let mut lexer = Lexer::new();
    let res = lexer.parse("2\n").unwrap();
    assert_eq!(
        res,
        vec![Token::EOL, Token::Indent("2".into()), Token::EOL, Token::EOF]
    );
}

#[test]
fn illegal_byte_fails_fast() {
    let mut lexer = Lexer::new();
    let res = lexer.parse("abc{def");
    match res {
        Ok(tokens) => panic!("expected a lexer error, got {:?}", tokens),
        Err(Error::LexerErr(msg)) => {
            // '{' is byte 123
            assert_eq!(msg, "Token -> Illegal: 123 ");
        }
    }
}

#[test]
fn illegal_multibyte_char_fails_on_first_byte() {
    // scanning is byte-oriented: the first byte of a two-byte character is
    // what the error reports
    let mut lexer = Lexer::new();
    let res = lexer.parse("é");
    match res {
        Ok(tokens) => panic!("expected a lexer error, got {:?}", tokens),
        Err(Error::LexerErr(msg)) => {
            assert_eq!(msg, "Token -> Illegal: 195 ");
        }
    }
}

#[test]
fn tokenizing_twice_is_deterministic() {
    let input = "## notes, \"quoted\"\n\tdone";
    let mut first = Lexer::new();
    let mut second = Lexer::new();
    let a = first.parse(input).unwrap();
    let b = second.parse(input).unwrap();
    assert_eq!(a, b);

    // the same instance can be reused: each call overwrites prior state
    let c = first.parse(input).unwrap();
    assert_eq!(a, c);
}

#[test]
fn reused_lexer_scans_new_input() {
    let mut lexer = Lexer::new();
    let long = lexer.parse("some longer line of words").unwrap();
    assert!(long.len() > 4);
    let short = lexer.parse("x").unwrap();
    assert_eq!(
        short,
        vec![Token::EOL, Token::Indent("x".into()), Token::EOF]
    );
}

#[test]
fn single_byte_tokens_cover_the_whole_table() {
    let mut lexer = Lexer::new();
    let res = lexer.parse("[]()<>.-=+*_`\\/:; \t").unwrap();
    let expected = vec![
        Token::EOL,
        Token::LeftSquare,
        Token::RightSquare,
        Token::LeftParen,
        Token::RightParen,
        Token::LeftAngle,
        Token::RightAngle,
        Token::Dot,
        Token::Dash,
        Token::Equal,
        Token::Plus,
        Token::Asterisk,
        Token::Undersocre,
        Token::BackTick,
        Token::BackSlash,
        Token::Slash,
        Token::Colon,
        Token::SemiColon,
        Token::WhiteSpace,
        Token::Tab,
        Token::EOF,
    ];
    assert_eq!(res, expected);
}

#[test]
fn nul_byte_yields_eof_token_mid_stream() {
    let mut lexer = Lexer::new();
    let res = lexer.parse("a\0b").unwrap();
    assert_eq!(
        res,
        vec![
            Token::EOL,
            Token::Indent("a".into()),
            Token::EOF,
            Token::Indent("b".into()),
            Token::EOF,
        ]
    );
}

#[test]
fn word_runs_are_maximal() {
    let mut lexer = Lexer::new();
    let res = lexer.parse("aa##bb,'\"cc").unwrap();
    assert_eq!(
        res,
        vec![
            Token::EOL,
            Token::Indent("aa".into()),
            Token::Heading(2),
            Token::Indent("bb,'\"cc".into()),
            Token::EOF,
        ]
    );
    for (i, t) in res.iter().enumerate() {
        if let Token::Indent(s) = t {
            assert!(!s.is_empty());
            if let Some(Token::Indent(_)) = res.get(i + 1) {
                panic!("two adjacent word runs at {}", i);
            }
        }
        if let Token::Heading(n) = t {
            assert!(*n >= 1);
            if let Some(Token::Heading(_)) = res.get(i + 1) {
                panic!("two adjacent heading runs at {}", i);
            }
        }
    }
}

/// The bytes a token stands for, for checking coverage of the input.
fn span_of(t: &Token) -> String {
    match t {
        Token::Heading(n) => "#".repeat(*n),
        Token::Indent(s) => s.clone(),
        Token::WhiteSpace => " ".into(),
        Token::Tab => "\t".into(),
        Token::EOL => "\n".into(),
        Token::EOF => "".into(),
        Token::LeftSquare => "[".into(),
        Token::RightSquare => "]".into(),
        Token::LeftParen => "(".into(),
        Token::RightParen => ")".into(),
        Token::LeftAngle => "<".into(),
        Token::RightAngle => ">".into(),
        Token::Dot => ".".into(),
        Token::Dash => "-".into(),
        Token::Equal => "=".into(),
        Token::Plus => "+".into(),
        Token::Asterisk => "*".into(),
        Token::Undersocre => "_".into(),
        Token::BackTick => "`".into(),
        Token::BackSlash => "\\".into(),
        Token::Slash => "/".into(),
        Token::Colon => ":".into(),
        Token::SemiColon => ";".into(),
        Token::Illegal(_) => panic!("Illegal never appears in a result"),
    }
}

#[test]
fn token_spans_reconstruct_the_effective_buffer() {
    let input = "## a heading\nwords, \"quotes\" [x]=1;\n\ttail";
    let mut lexer = Lexer::new();
    let res = lexer.parse(input).unwrap();
    let mut rebuilt = String::new();
    for t in &res {
        rebuilt.push_str(&span_of(t));
    }
    let mut effective = String::from("\n");
    effective.push_str(input);
    assert_eq!(rebuilt, effective);
}
