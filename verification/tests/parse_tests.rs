use arith_front::lex::{DisplayToken, Kind, Lexer, Token};
use arith_front::parse::{
    get_precedence, is_operator, parse_ast, AstExpr, AstPool, ParseError, Precedence,
};

fn parse_and_render(src: &str) -> String {
    let mut lexer = Lexer::new(src);
    let tokens = lexer.tokenize().expect("source should tokenize");
    let pool = parse_ast(tokens).expect("source should parse");
    assert!(pool.len() > 0, "tree was empty");
    pool.display_ast(src)
}

#[test]
fn test_precedence_shapes_tree() {
    // ADDSUB binds looser than MULDIV, so `+` becomes the outer node.
    assert_eq!(parse_and_render("10 * 20 + 30"), "( + ( * 10 20 ) 30 )");
}

#[test]
fn test_grouping_overrides_precedence() {
    // Both multiplications sit at the top of a left-associated chain, with
    // the parenthesized addition as the nested subtree.
    assert_eq!(
        parse_and_render("10 * (20 + 30) * 20"),
        "( * ( * 10 ( + 20 30 ) ) 20 )"
    );
}

#[test]
fn test_left_associativity_at_equal_precedence() {
    assert_eq!(parse_and_render("10 - 20 - 30"), "( - ( - 10 20 ) 30 )");
}

#[test]
fn test_nested_groups() {
    assert_eq!(
        parse_and_render("10 * ((20 + 30) * 20 + ((20 + 80) * 10))"),
        "( * 10 ( + ( * ( + 20 30 ) 20 ) ( * ( + 20 80 ) 10 ) ) )"
    );
}

#[test]
fn test_single_literal() {
    assert_eq!(parse_and_render("42"), "42");
    assert_eq!(parse_and_render("abc"), "abc");
}

#[test]
fn test_identifiers_mix_with_numbers() {
    assert_eq!(parse_and_render("price * 2 + tax"), "( + ( * price 2 ) tax )");
}

#[test]
fn test_get_precedence() {
    let add = Token::new(Kind::Add, 0, 1);
    let sub = Token::new(Kind::Sub, 0, 1);
    let mul = Token::new(Kind::Mul, 0, 1);
    let div = Token::new(Kind::Div, 0, 1);
    let num = Token::new(Kind::Num, 0, 2);
    let lparen = Token::new(Kind::LParen, 0, 1);
    assert_eq!(get_precedence(&add), Some(Precedence::ADDSUB));
    assert_eq!(get_precedence(&sub), Some(Precedence::ADDSUB));
    assert_eq!(get_precedence(&mul), Some(Precedence::MULDIV));
    assert_eq!(get_precedence(&div), Some(Precedence::MULDIV));
    assert_eq!(get_precedence(&num), None);
    assert_eq!(get_precedence(&lparen), None);
    assert!(Precedence::LOWEST < Precedence::ADDSUB);
    assert!(Precedence::ADDSUB < Precedence::MULDIV);
}

#[test]
fn test_is_operator() {
    assert!(is_operator(&Token::new(Kind::Add, 0, 1)));
    assert!(is_operator(&Token::new(Kind::Sub, 1, 1)));
    assert!(is_operator(&Token::new(Kind::Mul, 2, 1)));
    assert!(is_operator(&Token::new(Kind::Div, 3, 1)));
    assert!(!is_operator(&Token::new(Kind::Num, 0, 2)));
    assert!(!is_operator(&Token::new(Kind::Ident, 0, 2)));
    assert!(!is_operator(&Token::new(Kind::LParen, 0, 1)));
    assert!(!is_operator(&Token::new(Kind::RParen, 0, 1)));
}

#[test]
fn test_pool_grows_by_push() {
    let mut pool = AstPool::new();
    assert_eq!(pool.len(), 0);
    pool.push(AstExpr::Literal(Token::new(Kind::Num, 0, 2)));
    assert_eq!(pool.len(), 1);
    pool.push(AstExpr::Literal(Token::new(Kind::Num, 3, 2)));
    assert_eq!(pool.len(), 2);
}

#[test]
fn test_pool_last_entry_is_root() {
    // The root of a rendered literal pool is its last pushed entry.
    let src = "77 88";
    let mut pool = AstPool::new();
    pool.push(AstExpr::Literal(Token::new(Kind::Num, 0, 2)));
    pool.push(AstExpr::Literal(Token::new(Kind::Num, 3, 2)));
    assert_eq!(pool.display_ast(src), "88");
}

#[test]
fn test_empty_input_gives_empty_pool() {
    let pool = parse_ast(Vec::new()).expect("nothing to parse");
    assert_eq!(pool.len(), 0);
}

#[test]
fn test_multiple_top_level_expressions() {
    // Earlier top-level expressions stay in the pool; the last one is the root.
    let src = "1 + 2 3 * 4";
    let mut lexer = Lexer::new(src);
    let pool = parse_ast(lexer.tokenize().unwrap()).expect("source should parse");
    assert_eq!(pool.display_ast(src), "( * 3 4 )");
}

#[test]
fn test_unclosed_group_reported() {
    let src = "10 * (20 + 30";
    let mut lexer = Lexer::new(src);
    let err = parse_ast(lexer.tokenize().unwrap()).expect_err("the group is never closed");
    assert_eq!(err, ParseError::UnclosedGroup(Token::new(Kind::LParen, 5, 1)));
}

#[test]
fn test_display_token_recovers_text() {
    let src = "10 * banana";
    let token = Token::new(Kind::Ident, 5, 6);
    let display = DisplayToken::new(src, &token);
    assert_eq!(display.render(), "banana");
}
