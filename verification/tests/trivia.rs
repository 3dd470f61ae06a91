use pratt_calc::eval::interp;
use pratt_calc::parse::{Position, Token, TokenKind};
use pratt_calc::repl::{evaluate, lex, parse};

fn kinds_and_texts(tokens: &[Token]) -> Vec<(TokenKind, String)> {
    tokens.iter().map(|t| (t.kind, t.content.clone())).collect()
}

fn respelled(tokens: &[Token]) -> String {
    let mut text = String::new();
    for t in tokens {
        text.push_str(&t.content);
        text.push(' ');
    }
    text
}

#[test]
fn a_respelled_text_keeps_its_tokens_and_its_value() {
    for text in [
        "1",
        "  12+3 ",
        "-(8 + 8) * 2 ^ 2!",
        "\t2!!!\r\n",
        "1_000/7",
        "2 ^ 3 ^ 2",
        "(1",
        "1 +",
        "1 / 0",
        "",
    ] {
        let tokens = lex(text.to_string()).unwrap();
        let again = respelled(&tokens);
        let tokens_again = lex(again.clone()).unwrap();
        assert_eq!(kinds_and_texts(&tokens_again), kinds_and_texts(&tokens));
        assert_eq!(evaluate(&again).ok(), evaluate(text).ok());
        assert_eq!(evaluate(&again).is_ok(), evaluate(text).is_ok());
    }
}

#[test]
fn a_respelled_text_is_another_text() {
    let tokens = lex("1+2".to_string()).unwrap();
    assert_eq!(respelled(&tokens), "1 + 2  ");
    let tokens_again = lex("1 + 2  ".to_string()).unwrap();
    assert_ne!(tokens_again, tokens);
    assert_eq!(tokens_again[1].pos, Position { ind: 2, len: 1 });
    assert_eq!(tokens[1].pos, Position { ind: 1, len: 1 });
}

#[test]
fn the_place_of_a_token_does_not_change_the_value() {
    for text in ["1", "12 + 3", "-(8 + 8) * 2 ^ 2!", "2!!!", "7 / (1 - 1)", "2 ^ 3 ^ 2"] {
        let tokens = lex(text.to_string()).unwrap();
        let moved: Vec<Token> = tokens
            .iter()
            .map(|t| Token {
                pos: Position { ind: 1000 - t.pos.ind, len: 0 },
                kind: t.kind,
                content: t.content.clone(),
            })
            .collect();
        let tree = parse(tokens).unwrap();
        let moved_tree = parse(moved).unwrap();
        assert_ne!(moved_tree, tree);
        assert_eq!(interp(&moved_tree), interp(&tree));
    }
}

#[test]
fn the_place_of_a_token_does_not_make_a_tree() {
    for text in ["", "1 +", "(1", "1 2", "2 ^ -1"] {
        let tokens = lex(text.to_string()).unwrap();
        let moved: Vec<Token> = tokens
            .iter()
            .map(|t| Token {
                pos: Position { ind: 0, len: 0 },
                kind: t.kind,
                content: t.content.clone(),
            })
            .collect();
        assert!(parse(tokens).is_err());
        assert!(parse(moved).is_err());
    }
}
