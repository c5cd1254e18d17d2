use arith_front::lex::{Kind, Lexer, LexError, Token};

fn toks(src: &str) -> Vec<Token> {
    let mut lexer = Lexer::new(src);
    lexer.tokenize().expect("source should tokenize")
}

#[test]
fn test_basic_lexing() {
    let cases = vec![
        (
            "++--**//",
            vec![
                Token::new(Kind::Add, 0, 1),
                Token::new(Kind::Add, 1, 1),
                Token::new(Kind::Sub, 2, 1),
                Token::new(Kind::Sub, 3, 1),
                Token::new(Kind::Mul, 4, 1),
                Token::new(Kind::Mul, 5, 1),
                Token::new(Kind::Div, 6, 1),
                Token::new(Kind::Div, 7, 1),
            ],
        ),
        (
            "abcabc*123123",
            vec![
                Token::new(Kind::Ident, 0, 6),
                Token::new(Kind::Mul, 6, 1),
                Token::new(Kind::Num, 7, 6),
            ],
        ),
        (
            "10*20-30+40/50",
            vec![
                Token::new(Kind::Num, 0, 2),
                Token::new(Kind::Mul, 2, 1),
                Token::new(Kind::Num, 3, 2),
                Token::new(Kind::Sub, 5, 1),
                Token::new(Kind::Num, 6, 2),
                Token::new(Kind::Add, 8, 1),
                Token::new(Kind::Num, 9, 2),
                Token::new(Kind::Div, 11, 1),
                Token::new(Kind::Num, 12, 2),
            ],
        ),
    ];

    for (input, output) in cases {
        let found = toks(input);
        assert_eq!(found, output);
    }
}

#[test]
fn test_whitespace() {
    let results = toks("          10          +          10          ");
    assert_eq!(
        results,
        vec![
            Token::new(Kind::Num, 10, 2),
            Token::new(Kind::Add, 22, 1),
            Token::new(Kind::Num, 33, 2),
        ]
    )
}

#[test]
fn test_parens() {
    let result = toks("(((((())))))");

    assert_eq!(
        result,
        vec![
            Token::new(Kind::LParen, 0, 1),
            Token::new(Kind::LParen, 1, 1),
            Token::new(Kind::LParen, 2, 1),
            Token::new(Kind::LParen, 3, 1),
            Token::new(Kind::LParen, 4, 1),
            Token::new(Kind::LParen, 5, 1),
            Token::new(Kind::RParen, 6, 1),
            Token::new(Kind::RParen, 7, 1),
            Token::new(Kind::RParen, 8, 1),
            Token::new(Kind::RParen, 9, 1),
            Token::new(Kind::RParen, 10, 1),
            Token::new(Kind::RParen, 11, 1),
        ]
    )
}

#[test]
fn test_whitespace_offsets_exact() {
    // Tokens sit at the true offsets of their first characters, exactly as if
    // the surrounding spaces were removed and offsets recomputed.
    let results = toks("   10   +   10   ");
    assert_eq!(
        results,
        vec![
            Token::new(Kind::Num, 3, 2),
            Token::new(Kind::Add, 8, 1),
            Token::new(Kind::Num, 12, 2),
        ]
    )
}

#[test]
fn test_symbols_all_length_one() {
    let results = toks(" + - * / ( ) ");
    assert_eq!(results.len(), 6);
    for t in &results {
        assert_eq!(t.length, 1);
    }
}

#[test]
fn test_retokenize_identical() {
    let src = "10 * (20 + 30) * ab";
    let first = toks(src);
    let second = toks(src);
    assert_eq!(first, second);
}

#[test]
fn test_unknown_character_reported() {
    let mut lexer = Lexer::new("10 + ?");
    let err = lexer.tokenize().expect_err("the question mark is unclassifiable");
    assert_eq!(err, LexError { ch: '?', offset: 5 });
}

#[test]
fn test_empty_source() {
    assert_eq!(toks(""), Vec::<Token>::new());
    assert_eq!(toks("     "), Vec::<Token>::new());
}

#[test]
fn test_next_steps_one_token_at_a_time() {
    let mut lexer = Lexer::new("ab 12");
    assert_eq!(lexer.next(), Ok(Some(Token::new(Kind::Ident, 0, 2))));
    assert_eq!(lexer.next(), Ok(Some(Token::new(Kind::Num, 3, 2))));
    assert_eq!(lexer.next(), Ok(None));
    assert_eq!(lexer.next(), Ok(None));
}

#[test]
fn test_kind_labels() {
    assert_eq!(Kind::Add.label(), "[ADD]");
    assert_eq!(Kind::Sub.label(), "[SUB]");
    assert_eq!(Kind::Mul.label(), "[MUL]");
    assert_eq!(Kind::Div.label(), "[DIV]");
    assert_eq!(Kind::LParen.label(), "[LPAREN]");
    assert_eq!(Kind::RParen.label(), "[RPAREN]");
    assert_eq!(Kind::Num.label(), "[TOKEN]");
    assert_eq!(Kind::Ident.label(), "[TOKEN]");
}
