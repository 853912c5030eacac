use lsysgen::lexer::Lexer;
use lsysgen::lexer::LexerMode;
use lsysgen::lexer::LexicalError;
use lsysgen::lexer::Token;
use lsysgen::lexer::TokenType;

fn tokens(input: &str, mode: LexerMode) -> Vec<(TokenType, Vec<u8>)> {
    let mut lx = Lexer::new(input.as_bytes(), mode);
    let mut out = Vec::new();
    loop {
        match lx.next() {
            None => break,
            Some(Ok((_, t, _))) => out.push((t.ttype, t.as_bytes().to_vec())),
            Some(Err(_)) => panic!("unexpected lexical error"),
        }
    }
    out
}

#[test]
fn normal_mode_basics() {
    let ts = tokens("let x1 = 42", LexerMode::Normal);
    let kinds: Vec<TokenType> = ts.iter().map(|t| t.0).collect();
    assert_eq!(
        kinds,
        vec![TokenType::Id, TokenType::Id, TokenType::Assign, TokenType::Int]
    );
    assert_eq!(ts[0].1, b"let".to_vec());
    assert_eq!(ts[1].1, b"x1".to_vec());
    assert_eq!(ts[3].1, b"42".to_vec());
}

#[test]
fn comments_and_newlines() {
    let ts = tokens("a // rest is gone\nb /* blocked */ c", LexerMode::Normal);
    let kinds: Vec<TokenType> = ts.iter().map(|t| t.0).collect();
    assert_eq!(
        kinds,
        vec![TokenType::Id, TokenType::NewLine, TokenType::Id, TokenType::Id]
    );
    assert_eq!(ts[2].1, b"b".to_vec());
    assert_eq!(ts[3].1, b"c".to_vec());
}

#[test]
fn operators_and_literals() {
    let ts = tokens("1.5 >= x != \"hi\" -> ==", LexerMode::Normal);
    let kinds: Vec<TokenType> = ts.iter().map(|t| t.0).collect();
    assert_eq!(
        kinds,
        vec![
            TokenType::Float,
            TokenType::GE,
            TokenType::Id,
            TokenType::NE,
            TokenType::StringLit,
            TokenType::Arrow,
            TokenType::EQ
        ]
    );
    assert_eq!(ts[0].1, b"1.5".to_vec());
    assert_eq!(ts[4].1, b"\"hi\"".to_vec());
}

#[test]
fn unterminated_string_is_an_error() {
    let mut lx = Lexer::new(b"\"oops", LexerMode::Normal);
    match lx.next() {
        Some(Err(LexicalError::TruncatedInput(_))) => {}
        _ => panic!("expected a truncated-input error"),
    }
}

#[test]
fn grammar_mode_symbols() {
    let ts = tokens("A[B]<C>->x", LexerMode::Grammar);
    let kinds: Vec<TokenType> = ts.iter().map(|t| t.0).collect();
    assert_eq!(
        kinds,
        vec![
            TokenType::Symbol,
            TokenType::LBracket,
            TokenType::Symbol,
            TokenType::RBracket,
            TokenType::LT,
            TokenType::Symbol,
            TokenType::GT,
            TokenType::Arrow,
            TokenType::Symbol
        ]
    );
    assert_eq!(ts[0].1, b"A".to_vec());
    assert_eq!(ts[8].1, b"x".to_vec());
}

#[test]
fn token_new_and_as_bytes() {
    let t = Token::new(TokenType::Id, b"abc");
    assert_eq!(t.ttype, TokenType::Id);
    assert_eq!(t.as_bytes(), b"abc");
}
