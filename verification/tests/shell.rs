use pratt_calc::eval::EvalError;
use pratt_calc::parse::lexer::LexError;
use pratt_calc::parse::parser::ParseError;
use pratt_calc::parse::{Position, Token, TokenKind};
use pratt_calc::repl::{lex, parse, Command, Failure, Reply, Shell};
use pratt_calc::text::{chars_of, decimal_string, starts_with};

fn token(kind: TokenKind, ind: usize, len: usize, content: &str) -> Token {
    Token { pos: Position { ind, len }, kind, content: content.to_string() }
}

#[test]
fn a_new_shell_shows_values_only() {
    assert_eq!(Shell::new(), Shell { print_tree: false, print_tokens: false });
}

#[test]
fn a_command_starts_the_line() {
    assert_eq!(Shell::command("#tree"), Command::ToggleTree);
    assert_eq!(Shell::command("#tree\n"), Command::ToggleTree);
    assert_eq!(Shell::command("#trees and more"), Command::ToggleTree);
    assert_eq!(Shell::command("#tokens\n"), Command::ToggleTokens);
    assert_eq!(Shell::command("#token\n"), Command::Unrecognized);
    assert_eq!(Shell::command("#tre"), Command::Unrecognized);
    assert_eq!(Shell::command("#"), Command::Unrecognized);
    assert_eq!(Shell::command("# tree"), Command::Unrecognized);
    assert_eq!(Shell::command(" #tree"), Command::Evaluate);
    assert_eq!(Shell::command("1 + 2\n"), Command::Evaluate);
    assert_eq!(Shell::command(""), Command::Evaluate);
}

#[test]
fn a_toggle_switches_one_setting() {
    let mut shell = Shell::new();
    assert_eq!(shell.step("#tree\n"), Reply::TreePrinting { enabled: true });
    assert_eq!(shell, Shell { print_tree: true, print_tokens: false });
    assert_eq!(shell.step("#tokens\n"), Reply::TokenPrinting { enabled: true });
    assert_eq!(shell, Shell { print_tree: true, print_tokens: true });
    assert_eq!(shell.step("#tree\n"), Reply::TreePrinting { enabled: false });
    assert_eq!(shell, Shell { print_tree: false, print_tokens: true });
    assert_eq!(shell.step("#tokens\n"), Reply::TokenPrinting { enabled: false });
    assert_eq!(shell, Shell::new());
}

#[test]
fn an_unknown_command_changes_nothing() {
    let mut shell = Shell { print_tree: true, print_tokens: false };
    assert_eq!(shell.step("#help\n"), Reply::Unrecognized);
    assert_eq!(shell, Shell { print_tree: true, print_tokens: false });
}

#[test]
fn a_quiet_shell_replies_with_the_value() {
    let mut shell = Shell::new();
    assert_eq!(
        shell.step("2 + 3 * 4\n"),
        Reply::Evaluated { tokens: None, tree: None, value: Ok(14) }
    );
    assert_eq!(shell, Shell::new());
}

#[test]
fn a_shell_shows_what_it_was_asked_to() {
    let mut shell = Shell { print_tree: true, print_tokens: true };
    let tokens = lex("1!\n".to_string()).unwrap();
    let tree = parse(lex("1!\n".to_string()).unwrap()).unwrap();
    assert_eq!(
        shell.step("1!\n"),
        Reply::Evaluated { tokens: Some(tokens), tree: Some(tree), value: Ok(1) }
    );
    let mut shell = Shell { print_tree: false, print_tokens: true };
    let tokens = lex("1!\n".to_string()).unwrap();
    assert_eq!(
        shell.step("1!\n"),
        Reply::Evaluated { tokens: Some(tokens), tree: None, value: Ok(1) }
    );
    let mut shell = Shell { print_tree: true, print_tokens: false };
    let tree = parse(lex("1!\n".to_string()).unwrap()).unwrap();
    assert_eq!(
        shell.step("1!\n"),
        Reply::Evaluated { tokens: None, tree: Some(tree), value: Ok(1) }
    );
}

#[test]
fn a_shell_shows_as_far_as_the_line_got() {
    let mut shell = Shell { print_tree: true, print_tokens: true };
    assert_eq!(
        shell.step("1 ? 2\n"),
        Reply::Evaluated {
            tokens: None,
            tree: None,
            value: Err(Failure::Lex(LexError::UnexpectedCharacter { character: '?', offset: 2 })),
        }
    );
    assert_eq!(
        shell.step("1 +"),
        Reply::Evaluated {
            tokens: Some(lex("1 +".to_string()).unwrap()),
            tree: None,
            value: Err(Failure::Parse(ParseError::UnexpectedToken {
                token: token(TokenKind::Eof, 3, 0, ""),
            })),
        }
    );
    assert_eq!(
        shell.step("1/0"),
        Reply::Evaluated {
            tokens: Some(lex("1/0".to_string()).unwrap()),
            tree: Some(parse(lex("1/0".to_string()).unwrap()).unwrap()),
            value: Err(Failure::Eval(EvalError::DivisionByZero)),
        }
    );
    assert_eq!(shell, Shell { print_tree: true, print_tokens: true });
}

#[test]
fn text_is_its_characters() {
    assert_eq!(chars_of(""), Vec::<char>::new());
    assert_eq!(chars_of("a\u{e9}\u{1f600}"), vec!['a', '\u{e9}', '\u{1f600}']);
}

#[test]
fn a_prefix_stands_in_front() {
    let text = chars_of("#tree");
    assert!(starts_with(&text, ""));
    assert!(starts_with(&text, "#"));
    assert!(starts_with(&text, "#tree"));
    assert!(!starts_with(&text, "#trees"));
    assert!(!starts_with(&text, "tree"));
    assert!(!starts_with(&text, "#trex"));
    assert!(starts_with(&Vec::new(), ""));
    assert!(!starts_with(&Vec::new(), "#"));
}

#[test]
fn numbers_are_written_in_base_ten() {
    assert_eq!(decimal_string(0), "0");
    assert_eq!(decimal_string(9), "9");
    assert_eq!(decimal_string(10), "10");
    assert_eq!(decimal_string(1234567890), "1234567890");
    assert_eq!(decimal_string(18446744073709551615), "18446744073709551615");
    assert_eq!(decimal_string(u128::MAX), "340282366920938463463374607431768211455");
}
