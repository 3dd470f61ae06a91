use pratt_calc::parse::lexer::{LexError, Lexer};
use pratt_calc::parse::{Position, Token, TokenKind};
use pratt_calc::repl::lex;

fn token(kind: TokenKind, ind: usize, len: usize, content: &str) -> Token {
    Token { pos: Position { ind, len }, kind, content: content.to_string() }
}

#[test]
fn every_symbol_is_one_token() {
    assert_eq!(
        lex("+-/*^()!".to_string()),
        Ok(vec![
            token(TokenKind::Plus, 0, 1, "+"),
            token(TokenKind::Minus, 1, 1, "-"),
            token(TokenKind::Slash, 2, 1, "/"),
            token(TokenKind::Asterisk, 3, 1, "*"),
            token(TokenKind::Caret, 4, 1, "^"),
            token(TokenKind::LParen, 5, 1, "("),
            token(TokenKind::RParen, 6, 1, ")"),
            token(TokenKind::Bang, 7, 1, "!"),
            token(TokenKind::Eof, 8, 0, ""),
        ])
    );
}

#[test]
fn a_run_of_digits_is_one_token() {
    assert_eq!(
        lex("12 + 345".to_string()),
        Ok(vec![
            token(TokenKind::Integer, 0, 2, "12"),
            token(TokenKind::Plus, 3, 1, "+"),
            token(TokenKind::Integer, 5, 3, "345"),
            token(TokenKind::Eof, 8, 0, ""),
        ])
    );
}

#[test]
fn a_separator_stands_inside_a_literal_only() {
    assert_eq!(
        lex("1_000_".to_string()),
        Ok(vec![token(TokenKind::Integer, 0, 6, "1_000_"), token(TokenKind::Eof, 6, 0, "")])
    );
    assert_eq!(
        lex("_1".to_string()),
        Err(LexError::UnexpectedCharacter { character: '_', offset: 0 })
    );
    assert_eq!(
        lex("1 _".to_string()),
        Err(LexError::UnexpectedCharacter { character: '_', offset: 2 })
    );
}

#[test]
fn the_empty_text_is_the_end_of_input() {
    assert_eq!(lex(String::new()), Ok(vec![token(TokenKind::Eof, 0, 0, "")]));
}

#[test]
fn whitespace_leaves_no_token() {
    assert_eq!(lex(" \t\n\r ".to_string()), Ok(vec![token(TokenKind::Eof, 5, 0, "")]));
    assert_eq!(
        lex("\t7\n".to_string()),
        Ok(vec![token(TokenKind::Integer, 1, 1, "7"), token(TokenKind::Eof, 3, 0, "")])
    );
}

#[test]
fn offsets_count_characters() {
    assert_eq!(
        lex("1 \u{e9}".to_string()),
        Err(LexError::UnexpectedCharacter { character: '\u{e9}', offset: 2 })
    );
    assert_eq!(
        lex("\u{3000}1".to_string()),
        Err(LexError::UnexpectedCharacter { character: '\u{3000}', offset: 0 })
    );
}

#[test]
fn the_scan_stops_at_the_first_unexpected_character() {
    assert_eq!(
        lex("1 a b".to_string()),
        Err(LexError::UnexpectedCharacter { character: 'a', offset: 2 })
    );
    assert_eq!(
        lex("1.5".to_string()),
        Err(LexError::UnexpectedCharacter { character: '.', offset: 1 })
    );
    assert_eq!(
        lex("2 % 4".to_string()),
        Err(LexError::UnexpectedCharacter { character: '%', offset: 2 })
    );
}

#[test]
fn a_nul_character_is_unexpected() {
    assert_eq!(
        lex("1\0 2".to_string()),
        Err(LexError::UnexpectedCharacter { character: '\0', offset: 1 })
    );
}

#[test]
fn a_scanner_hands_its_tokens_out_once() {
    let mut lexer = Lexer::new("1!");
    assert_eq!(
        lexer.lex(),
        Ok(vec![
            token(TokenKind::Integer, 0, 1, "1"),
            token(TokenKind::Bang, 1, 1, "!"),
            token(TokenKind::Eof, 2, 0, ""),
        ])
    );
    assert_eq!(lexer.lex(), Ok(vec![token(TokenKind::Eof, 2, 0, "")]));
}

#[test]
fn a_failed_scan_stays_at_the_character() {
    let mut lexer = Lexer::new("1 ? 2");
    let failure = Err(LexError::UnexpectedCharacter { character: '?', offset: 2 });
    assert_eq!(lexer.lex(), failure);
    assert_eq!(lexer.lex(), failure);
}

#[test]
fn a_token_shows_its_span_kind_and_text() {
    let tokens = lex("12 +".to_string()).unwrap();
    assert_eq!(tokens[0].to_text(), "(0:2) { Integer '12' }");
    assert_eq!(tokens[1].to_text(), "(3:4) { Plus '+' }");
    assert_eq!(tokens[2].to_text(), "(4:4) { Eof '' }");
    assert_eq!(tokens[0].pos.to_text(), "(0:2)");
}

#[test]
fn a_span_at_the_far_end_shows_without_overflow() {
    let pos = Position { ind: usize::MAX, len: usize::MAX };
    let start = usize::MAX as u128;
    assert_eq!(pos.to_text(), format!("({}:{})", start, start + start));
}

#[test]
fn every_kind_has_its_name() {
    let names = [
        (TokenKind::Plus, "Plus"),
        (TokenKind::Minus, "Minus"),
        (TokenKind::Slash, "Slash"),
        (TokenKind::Asterisk, "Asterisk"),
        (TokenKind::Bang, "Bang"),
        (TokenKind::Caret, "Caret"),
        (TokenKind::LParen, "LParen"),
        (TokenKind::RParen, "RParen"),
        (TokenKind::Integer, "Integer"),
        (TokenKind::Eof, "Eof"),
    ];
    for (kind, name) in names {
        assert_eq!(kind.name(), name);
        assert_eq!(format!("{:?}", kind), name);
    }
}

#[test]
fn a_cloned_token_is_the_same() {
    let first = token(TokenKind::Integer, 4, 3, "123");
    assert_eq!(first.clone(), first);
}
