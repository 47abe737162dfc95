use dy4::lexer::Lexer;
use dy4::token::Token;
use dy4::ErrorKind;

fn scan_ok(src: &str) -> Vec<Token> {
    let mut lexer = Lexer::new(src.chars().collect()).expect("non-empty input");
    lexer.scan().expect("scan succeeds");
    lexer.output
}

fn scan_err(src: &str) -> ErrorKind {
    let mut lexer = Lexer::new(src.chars().collect()).expect("non-empty input");
    lexer.scan().expect_err("scan aborts")
}

fn offset_of(t: &Token) -> usize {
    match t {
        Token::LParen { offset } => *offset,
        Token::RParen { offset } => *offset,
        Token::LBrac { offset } => *offset,
        Token::RBrac { offset } => *offset,
        Token::LCurl { offset } => *offset,
        Token::RCurl { offset } => *offset,
        Token::Plus { offset } => *offset,
        Token::PlusPlus { offset } => *offset,
        Token::PlusEqual { offset } => *offset,
        Token::Minus { offset } => *offset,
        Token::MinusMinus { offset } => *offset,
        Token::MinusEqual { offset } => *offset,
        Token::Slash { offset } => *offset,
        Token::SlashSlash { offset } => *offset,
        Token::Modulo { offset } => *offset,
        Token::Star { offset } => *offset,
        Token::Hash { offset } => *offset,
        Token::SemiColon { offset } => *offset,
        Token::Arrow { offset } => *offset,
        Token::DoubleArrow { offset } => *offset,
        Token::Colon { offset } => *offset,
        Token::Equal { offset } => *offset,
        Token::EqualEqual { offset } => *offset,
        Token::Less { offset } => *offset,
        Token::LessEqual { offset } => *offset,
        Token::More { offset } => *offset,
        Token::MoreEqual { offset } => *offset,
        Token::Bang { offset } => *offset,
        Token::BangEqual { offset } => *offset,
        Token::String { offset, .. } => *offset,
        Token::Ident { offset, .. } => *offset,
        Token::Numeric { offset, .. } => *offset,
        Token::Return { offset } => *offset,
        Token::Func { offset } => *offset,
        Token::If { offset } => *offset,
        Token::Else { offset } => *offset,
        Token::Elif { offset } => *offset,
        Token::Eof { offset } => *offset,
    }
}

#[test]
fn empty_input_yields_no_scanner() {
    assert!(Lexer::new(Vec::new()).is_none());
    assert!(Lexer::new("x".chars().collect()).is_some());
}

#[test]
fn offsets_nondecreasing_and_eof_last() {
    let tokens = scan_ok("func f(x) { return 1_0; } >> \"s\" !ok");
    assert!(!tokens.is_empty());
    assert!(matches!(tokens.last().unwrap(), Token::Eof { .. }));
    for t in &tokens[..tokens.len() - 1] {
        assert!(!matches!(t, Token::Eof { .. }));
    }
    for pair in tokens.windows(2) {
        assert!(offset_of(&pair[0]) <= offset_of(&pair[1]));
    }
}

#[test]
fn number_run_strips_separators() {
    let tokens = scan_ok("1_000_0");
    assert_eq!(
        tokens,
        vec![
            Token::Numeric { offset: 0, value: String::from("10000") },
            Token::Eof { offset: 6 },
        ]
    );
}

#[test]
fn number_run_single_digit() {
    let tokens = scan_ok("7");
    assert_eq!(
        tokens,
        vec![Token::Numeric { offset: 0, value: String::from("7") }, Token::Eof { offset: 0 }]
    );
}

#[test]
fn number_run_trailing_separator() {
    let tokens = scan_ok("1_");
    assert_eq!(
        tokens,
        vec![Token::Numeric { offset: 0, value: String::from("1") }, Token::Eof { offset: 1 }]
    );
}

#[test]
fn quoted_span_single_string_token() {
    let tokens = scan_ok("\"abc\"");
    assert_eq!(
        tokens,
        vec![Token::String { offset: 0, value: String::from("abc") }, Token::Eof { offset: 4 }]
    );
}

#[test]
fn quoted_span_empty_payload() {
    let tokens = scan_ok("\"\"");
    assert_eq!(
        tokens,
        vec![Token::String { offset: 0, value: String::new() }, Token::Eof { offset: 1 }]
    );
}

#[test]
fn unterminated_literal_aborts() {
    assert_eq!(scan_err("\"abc"), ErrorKind::UnterminatedLiteral);
    assert_eq!(scan_err("\""), ErrorKind::UnterminatedLiteral);
}

#[test]
fn pair_operators_combine() {
    let cases: Vec<(&str, Token)> = vec![
        ("+=", Token::PlusEqual { offset: 0 }),
        ("++", Token::PlusPlus { offset: 0 }),
        ("-=", Token::MinusEqual { offset: 0 }),
        ("--", Token::MinusMinus { offset: 0 }),
        ("->", Token::Arrow { offset: 0 }),
        ("//", Token::SlashSlash { offset: 0 }),
        ("==", Token::EqualEqual { offset: 0 }),
        ("<=", Token::LessEqual { offset: 0 }),
        (">=", Token::MoreEqual { offset: 0 }),
        (">>", Token::DoubleArrow { offset: 0 }),
        ("!=", Token::BangEqual { offset: 0 }),
    ];
    for (src, expected) in cases {
        let tokens = scan_ok(src);
        assert_eq!(tokens, vec![expected, Token::Eof { offset: 1 }], "case {:?}", src);
    }
}

#[test]
fn lone_operator_at_end() {
    let tokens = scan_ok("+");
    assert_eq!(tokens, vec![Token::Plus { offset: 0 }, Token::Eof { offset: 0 }]);
}

#[test]
fn lookahead_is_redispatched() {
    let tokens = scan_ok("+a");
    assert_eq!(
        tokens,
        vec![
            Token::Plus { offset: 0 },
            Token::Ident { offset: 1, value: String::from("a") },
            Token::Eof { offset: 1 },
        ]
    );
}

#[test]
fn word_then_delimiter_loses_nothing() {
    let tokens = scan_ok("func(");
    assert_eq!(
        tokens,
        vec![Token::Func { offset: 0 }, Token::LParen { offset: 4 }, Token::Eof { offset: 4 }]
    );
}

#[test]
fn number_terminator_is_redispatched() {
    let tokens = scan_ok("1+2");
    assert_eq!(
        tokens,
        vec![
            Token::Numeric { offset: 0, value: String::from("1") },
            Token::Plus { offset: 1 },
            Token::Numeric { offset: 2, value: String::from("2") },
            Token::Eof { offset: 2 },
        ]
    );
}

#[test]
fn reserved_words_become_keywords() {
    assert_eq!(scan_ok("return")[0], Token::Return { offset: 0 });
    assert_eq!(scan_ok("func")[0], Token::Func { offset: 0 });
    assert_eq!(scan_ok("if")[0], Token::If { offset: 0 });
    assert_eq!(scan_ok("else")[0], Token::Else { offset: 0 });
    assert_eq!(scan_ok("elif")[0], Token::Elif { offset: 0 });
}

#[test]
fn other_words_become_identifiers() {
    let tokens = scan_ok("elsewhere");
    assert_eq!(
        tokens,
        vec![
            Token::Ident { offset: 0, value: String::from("elsewhere") },
            Token::Eof { offset: 8 },
        ]
    );
    let tokens = scan_ok("x_1");
    assert_eq!(
        tokens,
        vec![Token::Ident { offset: 0, value: String::from("x_1") }, Token::Eof { offset: 2 }]
    );
}

#[test]
fn single_character_tokens() {
    let tokens = scan_ok("(){}[];#%*:");
    assert_eq!(
        tokens,
        vec![
            Token::LParen { offset: 0 },
            Token::RParen { offset: 1 },
            Token::LCurl { offset: 2 },
            Token::RCurl { offset: 3 },
            Token::LBrac { offset: 4 },
            Token::RBrac { offset: 5 },
            Token::SemiColon { offset: 6 },
            Token::Hash { offset: 7 },
            Token::Modulo { offset: 8 },
            Token::Star { offset: 9 },
            Token::Colon { offset: 10 },
            Token::Eof { offset: 10 },
        ]
    );
}

#[test]
fn unrecognized_characters_are_skipped() {
    let tokens = scan_ok("a ?  b");
    assert_eq!(
        tokens,
        vec![
            Token::Ident { offset: 0, value: String::from("a") },
            Token::Ident { offset: 5, value: String::from("b") },
            Token::Eof { offset: 5 },
        ]
    );
}

#[test]
fn whitespace_only_input() {
    let tokens = scan_ok("   ");
    assert_eq!(tokens, vec![Token::Eof { offset: 2 }]);
}
