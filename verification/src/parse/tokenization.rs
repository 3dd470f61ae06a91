//! The tokens that the scanner finds are the only ones: any run of tokens
//! that covers the text but for whitespace, each token as long as it can
//! be, is the run that the scanner reads.

use super::lexer::{
    eof_token, is_integer_char, is_whitespace, lemma_literal_end_run, lemma_scan_from_well_scanned,
    lexical, literal_end, scan, scan_from, symbol_kind, token_over, well_scanned, LexErrorView,
};
use super::token::{TokenKind, TokenView};
use vstd::prelude::*;

verus! {

/// The offset behind the last character of `token`.
pub open spec fn end_of(token: TokenView) -> int {
    (token.ind + token.len) as int
}

/// Whether `text[from..to]` holds whitespace only.
pub open spec fn blank(text: Seq<char>, from: int, to: int) -> bool {
    forall|i: int| from <= i < to ==> is_whitespace(#[trigger] text[i])
}

/// Whether `tokens` are the tokens of `text` from offset `from` on: they
/// lie in the text in order, each with the text that it spans; what lies
/// in front of, between and behind them is whitespace; no integer literal
/// stops in front of a character that could go on with it; and the last
/// token, and only that, marks the end of the input.
pub open spec fn tokenizes(text: Seq<char>, from: int, tokens: Seq<TokenView>) -> bool {
    &&& well_scanned(text, from, tokens)
    &&& blank(text, from, tokens[0].ind as int)
    &&& forall|j: int, k: int|
        0 <= j && j + 1 == k && k < tokens.len() ==> blank(
            text,
            end_of(#[trigger] tokens[j]),
            (#[trigger] tokens[k]).ind as int,
        )
    &&& forall|k: int|
        0 <= k < tokens.len() && (#[trigger] tokens[k]).kind == TokenKind::Integer ==> {
            let end = end_of(tokens[k]);
            end < text.len() ==> !is_integer_char(text[end], tokens[k].len as int)
        }
}

/// A token over `text[start..end]` in front of the tokens of the text from
/// `end` on gives the tokens of the text from `start` on.
proof fn lemma_tokenizes_prepend(
    text: Seq<char>,
    start: int,
    end: int,
    first: TokenView,
    rest: Seq<TokenView>,
)
    requires
        0 <= start < end <= text.len(),
        tokenizes(text, end, rest),
        well_scanned(text, start, seq![first] + rest),
        first == token_over(first.kind, text, start, end),
        first.kind == TokenKind::Integer ==> (end < text.len() ==> !is_integer_char(
            text[end],
            end - start,
        )),
    ensures
        tokenizes(text, start, seq![first] + rest),
{
    let tokens = seq![first] + rest;
    assert forall|j: int, k: int| 0 <= j && j + 1 == k && k < tokens.len() implies blank(
        text,
        end_of(#[trigger] tokens[j]),
        (#[trigger] tokens[k]).ind as int,
    ) by {
        assert(tokens[k] == rest[k - 1]);
        if j > 0 {
            assert(tokens[j] == rest[j - 1]);
        }
    }
    assert forall|k: int|
        0 <= k < tokens.len() && (#[trigger] tokens[k]).kind == TokenKind::Integer implies {
        let end = end_of(tokens[k]);
        end < text.len() ==> !is_integer_char(text[end], tokens[k].len as int)
    } by {
        if k > 0 {
            assert(tokens[k] == rest[k - 1]);
        }
    }
}

/// What a scan reads are the tokens of the text.
pub proof fn lemma_scan_from_tokenizes(text: Seq<char>, i: int)
    requires
        0 <= i <= text.len(),
    ensures
        scan_from(text, i) matches Ok(tokens) ==> tokenizes(text, i, tokens),
    decreases text.len() - i,
{
    lemma_scan_from_well_scanned(text, i);
    if i < text.len() {
        if is_whitespace(text[i]) {
            lemma_scan_from_tokenizes(text, i + 1);
        } else if symbol_kind(text[i]) is Some {
            lemma_scan_from_tokenizes(text, i + 1);
            if let Ok(rest) = scan_from(text, i + 1) {
                let first = token_over(symbol_kind(text[i])->0, text, i, i + 1);
                lemma_tokenizes_prepend(text, i, i + 1, first, rest);
            }
        } else if is_integer_char(text[i], 0) {
            let end = literal_end(text, i, i + 1);
            lemma_literal_end_run(text, i, i + 1);
            lemma_scan_from_tokenizes(text, end);
            if let Ok(rest) = scan_from(text, end) {
                let first = token_over(TokenKind::Integer, text, i, end);
                lemma_tokenizes_prepend(text, i, end, first, rest);
            }
        }
    }
}

/// The tokens of the text are what a scan reads.
pub proof fn lemma_tokens_are_scanned(text: Seq<char>, i: int, tokens: Seq<TokenView>)
    requires
        0 <= i <= text.len(),
        tokenizes(text, i, tokens),
    ensures
        scan_from(text, i) == Ok::<Seq<TokenView>, LexErrorView>(tokens),
    decreases text.len() - i,
{
    let first = tokens[0];
    if i >= text.len() {
        assert(tokens.len() == 1);
        assert(tokens =~= seq![eof_token(text)]);
    } else if first.ind > i {
        lemma_tokens_are_scanned(text, i + 1, tokens);
    } else {
        assert(first != eof_token(text));
        let rest = tokens.skip(1);
        let end = end_of(first);
        assert(lexical(first));
        assert(first.content[0] == text[i]);
        assert(tokens[1] == rest[0]);
        assert forall|j: int| i <= j < end implies text[j] == first.content[j - i] by {}
        if first.kind == TokenKind::Integer {
            lemma_literal_end_run(text, i, i + 1);
            let stop = literal_end(text, i, i + 1);
            if stop < end {
                assert(is_integer_char(first.content[stop - i], stop - i));
            } else if stop > end {
                assert(is_integer_char(text[end], end - i));
            }
        }
        assert(first == token_over(first.kind, text, i, end));
        assert(tokenizes(text, end, rest)) by {
            assert(rest.last() == tokens.last());
            assert forall|k: int| 0 <= k < rest.len() - 1 implies {
                &&& (#[trigger] rest[k]).kind != TokenKind::Eof
                &&& lexical(rest[k])
                &&& end <= rest[k].ind
                &&& rest[k].len >= 1
                &&& rest[k].ind + rest[k].len <= text.len()
                &&& rest[k].content == text.subrange(
                    rest[k].ind as int,
                    (rest[k].ind + rest[k].len) as int,
                )
            } by {
                assert(rest[k] == tokens[k + 1]);
            }
            assert forall|j: int, k: int| 0 <= j < k < rest.len() implies (#[trigger] rest[j]).ind
                + rest[j].len <= (#[trigger] rest[k]).ind by {
                assert(rest[j] == tokens[j + 1]);
                assert(rest[k] == tokens[k + 1]);
            }
            assert forall|j: int, k: int| 0 <= j && j + 1 == k && k < rest.len() implies blank(
                text,
                end_of(#[trigger] rest[j]),
                (#[trigger] rest[k]).ind as int,
            ) by {
                assert(rest[j] == tokens[j + 1]);
                assert(rest[k] == tokens[k + 1]);
            }
            assert forall|k: int|
                0 <= k < rest.len() && (#[trigger] rest[k]).kind == TokenKind::Integer implies {
                let end = end_of(rest[k]);
                end < text.len() ==> !is_integer_char(text[end], rest[k].len as int)
            } by {
                assert(rest[k] == tokens[k + 1]);
            }
        }
        lemma_tokens_are_scanned(text, end, rest);
        assert(seq![first] + rest =~= tokens);
    }
}

/// The scanner finds the tokens of the text, and there are no others: a
/// run of tokens is the result of a scan if and only if it is the tokens
/// of the text. So a scan fails exactly where the text has no tokens.
pub proof fn lemma_scan_finds_the_tokens(text: Seq<char>, tokens: Seq<TokenView>)
    ensures
        scan(text) == Ok::<Seq<TokenView>, LexErrorView>(tokens) <==> tokenizes(text, 0, tokens),
{
    if scan(text) == Ok::<Seq<TokenView>, LexErrorView>(tokens) {
        lemma_scan_from_tokenizes(text, 0);
    }
    if tokenizes(text, 0, tokens) {
        lemma_tokens_are_scanned(text, 0, tokens);
    }
}

} // verus!
