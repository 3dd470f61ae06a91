//! The scanner: from text to tokens.

use super::token::{tokens_view, Position, Token, TokenKind, TokenView};
use crate::text::chars_of;
use vstd::prelude::*;

verus! {

/// Why a text cannot be scanned.
#[derive(Debug, PartialEq, Eq, Clone, Copy, Structural)]
pub enum LexError {
    /// A character that starts no token, and its offset in the text.
    UnexpectedCharacter { character: char, offset: usize },
}

/// The mathematical value of a [`LexError`].
pub enum LexErrorView {
    UnexpectedCharacter { character: char, offset: nat },
}

impl View for LexError {
    type V = LexErrorView;

    open spec fn view(&self) -> LexErrorView {
        match self {
            LexError::UnexpectedCharacter { character, offset } => {
                LexErrorView::UnexpectedCharacter { character: *character, offset: *offset as nat }
            },
        }
    }
}

/// Space, tab, line feed and carriage return separate tokens.
pub open spec fn is_whitespace(c: char) -> bool {
    c == ' ' || c == '\t' || c == '\n' || c == '\r'
}

/// The ten decimal digits.
pub open spec fn is_digit(c: char) -> bool {
    '0' <= c <= '9'
}

/// Whether `c` may stand `at` characters into an integer literal: a digit
/// anywhere, the separator `_` anywhere but in front.
pub open spec fn is_integer_char(c: char, at: int) -> bool {
    is_digit(c) || (c == '_' && at > 0)
}

/// Whether `s` is the text of an integer literal: a digit, then digits and
/// separators.
pub open spec fn is_literal_body(s: Seq<char>) -> bool {
    &&& s.len() > 0
    &&& forall|i: int| 0 <= i < s.len() ==> is_integer_char(#[trigger] s[i], i)
}

/// The kind of the one-character token that `c` spells, if it spells one.
pub open spec fn symbol_kind(c: char) -> Option<TokenKind> {
    if c == '+' {
        Some(TokenKind::Plus)
    } else if c == '-' {
        Some(TokenKind::Minus)
    } else if c == '/' {
        Some(TokenKind::Slash)
    } else if c == '*' {
        Some(TokenKind::Asterisk)
    } else if c == '^' {
        Some(TokenKind::Caret)
    } else if c == '(' {
        Some(TokenKind::LParen)
    } else if c == ')' {
        Some(TokenKind::RParen)
    } else if c == '!' {
        Some(TokenKind::Bang)
    } else {
        None
    }
}

/// The end of the integer literal that starts at `start`, looking on from
/// `i`: the first offset from `i` on that holds no character of the literal.
pub open spec fn literal_end(text: Seq<char>, start: int, i: int) -> int
    decreases text.len() - i,
{
    if 0 <= start <= i < text.len() && is_integer_char(text[i], i - start) {
        literal_end(text, start, i + 1)
    } else {
        i
    }
}

/// The token of kind `kind` that spans `text[start..end]`.
pub open spec fn token_over(kind: TokenKind, text: Seq<char>, start: int, end: int) -> TokenView {
    TokenView {
        ind: start as nat,
        len: (end - start) as nat,
        kind,
        content: text.subrange(start, end),
    }
}

/// The token that closes every scan of `text`: empty, one past the last
/// character.
pub open spec fn eof_token(text: Seq<char>) -> TokenView {
    TokenView { ind: text.len(), len: 0, kind: TokenKind::Eof, content: Seq::empty() }
}

/// `tokens` in front of what `rest` holds; a failure stays the failure.
pub open spec fn prepend(
    tokens: Seq<TokenView>,
    rest: Result<Seq<TokenView>, LexErrorView>,
) -> Result<Seq<TokenView>, LexErrorView> {
    match rest {
        Ok(more) => Ok(tokens + more),
        Err(e) => Err(e),
    }
}

/// The tokens of `text` from offset `i` on, or the first character from
/// there on that starts no token.
pub open spec fn scan_from(text: Seq<char>, i: int) -> Result<Seq<TokenView>, LexErrorView>
    decreases text.len() - i,
{
    if !(0 <= i < text.len()) {
        Ok(seq![eof_token(text)])
    } else if is_whitespace(text[i]) {
        scan_from(text, i + 1)
    } else if symbol_kind(text[i]) is Some {
        prepend(
            seq![token_over(symbol_kind(text[i])->0, text, i, i + 1)],
            scan_from(text, i + 1),
        )
    } else if is_digit(text[i]) {
        let end = literal_end(text, i, i + 1);
        proof {
            lemma_literal_end_bounds(text, i, i + 1);
        }
        prepend(seq![token_over(TokenKind::Integer, text, i, end)], scan_from(text, end))
    } else {
        Err(LexErrorView::UnexpectedCharacter { character: text[i], offset: i as nat })
    }
}

/// The tokens of the whole of `text`.
pub open spec fn scan(text: Seq<char>) -> Result<Seq<TokenView>, LexErrorView> {
    scan_from(text, 0)
}

/// A literal ends at or after the offset from which its end is sought, and
/// within the text.
pub proof fn lemma_literal_end_bounds(text: Seq<char>, start: int, i: int)
    requires
        0 <= start <= i <= text.len(),
    ensures
        i <= literal_end(text, start, i) <= text.len(),
    decreases text.len() - i,
{
    if i < text.len() && is_integer_char(text[i], i - start) {
        lemma_literal_end_bounds(text, start, i + 1);
    }
}

/// Whether the text of `token` is one that its kind can have: a literal for
/// an integer, the symbol for a symbol, nothing for the end of the input.
pub open spec fn lexical(token: TokenView) -> bool {
    match token.kind {
        TokenKind::Integer => is_literal_body(token.content),
        TokenKind::Eof => token.content.len() == 0,
        kind => token.content.len() == 1 && symbol_kind(token.content[0]) == Some(kind),
    }
}

/// Whether `tokens` lie in `text` from offset `from` on as a scan leaves
/// them: every token but the last spans at least one character and holds
/// the text it spans, which is text of its kind; each ends before the next
/// one starts; the last one, and only that, marks the end of the input.
pub open spec fn well_scanned(text: Seq<char>, from: int, tokens: Seq<TokenView>) -> bool {
    &&& tokens.len() >= 1
    &&& tokens.last() == eof_token(text)
    &&& forall|k: int|
        0 <= k < tokens.len() - 1 ==> {
            &&& (#[trigger] tokens[k]).kind != TokenKind::Eof
            &&& lexical(tokens[k])
            &&& from <= tokens[k].ind
            &&& tokens[k].len >= 1
            &&& tokens[k].ind + tokens[k].len <= text.len()
            &&& tokens[k].content == text.subrange(
                tokens[k].ind as int,
                (tokens[k].ind + tokens[k].len) as int,
            )
        }
    &&& forall|j: int, k: int|
        0 <= j < k < tokens.len() ==> (#[trigger] tokens[j]).ind + tokens[j].len <= (
        #[trigger] tokens[k]).ind
}

/// What a scan reads lies in the text in order, and ends with the one
/// end-of-input token.
pub proof fn lemma_scan_from_well_scanned(text: Seq<char>, i: int)
    requires
        0 <= i <= text.len(),
    ensures
        scan_from(text, i) matches Ok(tokens) ==> well_scanned(text, i, tokens),
    decreases text.len() - i,
{
    if i < text.len() {
        if is_whitespace(text[i]) {
            lemma_scan_from_well_scanned(text, i + 1);
        } else if symbol_kind(text[i]) is Some {
            lemma_scan_from_well_scanned(text, i + 1);
            if let Ok(rest) = scan_from(text, i + 1) {
                let first = token_over(symbol_kind(text[i])->0, text, i, i + 1);
                lemma_well_scanned_prepend(text, i, i + 1, first, rest);
            }
        } else if is_digit(text[i]) {
            let end = literal_end(text, i, i + 1);
            lemma_literal_end_run(text, i, i + 1);
            lemma_scan_from_well_scanned(text, end);
            if let Ok(rest) = scan_from(text, end) {
                let first = token_over(TokenKind::Integer, text, i, end);
                lemma_well_scanned_prepend(text, i, end, first, rest);
            }
        }
    }
}

/// A literal runs over characters of a literal only, and ends at the end
/// of the text or in front of a character that is none.
pub proof fn lemma_literal_end_run(text: Seq<char>, start: int, i: int)
    requires
        0 <= start < i <= text.len(),
        forall|j: int| start <= j < i ==> is_integer_char(#[trigger] text[j], j - start),
    ensures
        i <= literal_end(text, start, i) <= text.len(),
        forall|j: int|
            start <= j < literal_end(text, start, i) ==> is_integer_char(
                #[trigger] text[j],
                j - start,
            ),
        literal_end(text, start, i) < text.len() ==> !is_integer_char(
            text[literal_end(text, start, i)],
            literal_end(text, start, i) - start,
        ),
        is_literal_body(text.subrange(start, literal_end(text, start, i))),
    decreases text.len() - i,
{
    if i < text.len() && is_integer_char(text[i], i - start) {
        lemma_literal_end_run(text, start, i + 1);
    }
}

/// A token over `text[start..end]` in front of what was scanned from `end`
/// on is what is scanned from `start` on.
proof fn lemma_well_scanned_prepend(
    text: Seq<char>,
    start: int,
    end: int,
    first: TokenView,
    rest: Seq<TokenView>,
)
    requires
        0 <= start < end <= text.len(),
        well_scanned(text, end, rest),
        first.kind != TokenKind::Eof,
        first == token_over(first.kind, text, start, end),
        lexical(first),
    ensures
        well_scanned(text, start, seq![first] + rest),
{
    let tokens = seq![first] + rest;
    assert(tokens.last() == rest.last());
    assert forall|k: int| 0 <= k < tokens.len() - 1 implies {
        &&& (#[trigger] tokens[k]).kind != TokenKind::Eof
        &&& lexical(tokens[k])
        &&& start <= tokens[k].ind
        &&& tokens[k].len >= 1
        &&& tokens[k].ind + tokens[k].len <= text.len()
        &&& tokens[k].content == text.subrange(
            tokens[k].ind as int,
            (tokens[k].ind + tokens[k].len) as int,
        )
    } by {
        if k > 0 {
            assert(tokens[k] == rest[k - 1]);
        }
    }
    assert forall|j: int, k: int| 0 <= j < k < tokens.len() implies (#[trigger] tokens[j]).ind
        + tokens[j].len <= (#[trigger] tokens[k]).ind by {
        assert(tokens[k] == rest[k - 1]);
        if j > 0 {
            assert(tokens[j] == rest[j - 1]);
        }
    }
}

/// `scan_from` goes on from a token that has been read.
proof fn lemma_prepend_push(
    tokens: Seq<TokenView>,
    token: TokenView,
    rest: Result<Seq<TokenView>, LexErrorView>,
)
    ensures
        prepend(tokens, prepend(seq![token], rest)) == prepend(tokens.push(token), rest),
{
    if let Ok(more) = rest {
        assert(tokens + (seq![token] + more) =~= tokens.push(token) + more);
    }
}

/// A scanner over one text. It reads the text from left to right and keeps
/// the tokens it has read until [`Lexer::lex`] hands them out.
pub struct Lexer<'a> {
    tokens: Vec<Token>,
    input: &'a str,
    chars: Vec<char>,
    pos: usize,
}

impl<'a> Lexer<'a> {
    /// The cursor stands within the text.
    pub closed spec fn well_formed(&self) -> bool {
        &&& self.chars@ == self.input@
        &&& self.pos <= self.chars.len()
    }

    /// The text that this scanner reads.
    pub closed spec fn text(&self) -> Seq<char> {
        self.input@
    }

    /// The offset of the next character to read.
    pub closed spec fn offset(&self) -> int {
        self.pos as int
    }

    /// The tokens read and not yet handed out.
    pub closed spec fn emitted(&self) -> Seq<TokenView> {
        tokens_view(self.tokens@)
    }

    /// A scanner at the start of `input`.
    pub fn new(input: &'a str) -> (r: Self)
        ensures
            r.well_formed(),
            r.text() == input@,
            r.offset() == 0,
            r.emitted() == Seq::<TokenView>::empty(),
    {
        let r = Lexer { tokens: Vec::new(), input, chars: chars_of(input), pos: 0 };
        assert(r.emitted() =~= Seq::<TokenView>::empty());
        r
    }

    /// Scans the rest of the text and hands out every token read, closed by
    /// an end-of-input token. At the first character that starts no token
    /// the scan stops there, drops the tokens read, and fails.
    pub fn lex(&mut self) -> (r: Result<Vec<Token>, LexError>)
        requires
            old(self).well_formed(),
        ensures
            final(self).well_formed(),
            final(self).text() == old(self).text(),
            match r {
                Ok(tokens) => {
                    &&& prepend(
                        old(self).emitted(),
                        scan_from(old(self).text(), old(self).offset()),
                    ) == Ok::<Seq<TokenView>, LexErrorView>(tokens_view(tokens@))
                    &&& tokens.len() > 0
                    &&& tokens[tokens.len() - 1]@ == eof_token(old(self).text())
                    &&& final(self).offset() == old(self).text().len()
                    &&& final(self).emitted() == Seq::<TokenView>::empty()
                },
                Err(e) => {
                    &&& scan_from(old(self).text(), old(self).offset()) == Err::<
                        Seq<TokenView>,
                        LexErrorView,
                    >(e@)
                    &&& e == LexError::UnexpectedCharacter {
                        character: old(self).text()[final(self).offset()],
                        offset: final(self).offset() as usize,
                    }
                    &&& old(self).offset() <= final(self).offset() < old(self).text().len()
                    &&& final(self).emitted() == Seq::<TokenView>::empty()
                },
            },
    {
        let ghost whole = prepend(self.emitted(), scan_from(self.text(), self.offset()));
        loop
            invariant
                self.well_formed(),
                self.text() == old(self).text(),
                old(self).offset() <= self.offset(),
                whole == prepend(
                    old(self).emitted(),
                    scan_from(old(self).text(), old(self).offset()),
                ),
                whole == prepend(self.emitted(), scan_from(self.text(), self.offset())),
            ensures
                self.offset() == self.text().len(),
            decreases self.text().len() - self.offset(),
        {
            let pos = self.pos;
            let peeked = match self.peek() {
                Some(c) => c,
                None => {
                    break ;
                },
            };
            match Self::symbol(peeked) {
                Some((kind, content)) => {
                    proof {
                        lemma_prepend_push(
                            self.emitted(),
                            token_over(kind, self.text(), pos as int, pos + 1),
                            scan_from(self.text(), pos + 1),
                        );
                        assert(self.text().subrange(pos as int, pos + 1) =~= seq![peeked]);
                    }
                    self.emit_contentful(kind, pos, 1, content);
                    self.consume();
                },
                None => {
                    if Self::match_whitespace(peeked, 0) {
                        self.lex_whitespace();
                    } else if Self::match_integer(peeked, 0) {
                        proof {
                            lemma_literal_end_bounds(self.text(), pos as int, pos + 1);
                            lemma_prepend_push(
                                self.emitted(),
                                token_over(
                                    TokenKind::Integer,
                                    self.text(),
                                    pos as int,
                                    literal_end(self.text(), pos as int, pos + 1),
                                ),
                                scan_from(
                                    self.text(),
                                    literal_end(self.text(), pos as int, pos + 1),
                                ),
                            );
                        }
                        self.lex_integer();
                    } else {
                        self.tokens = Vec::new();
                        assert(self.emitted() =~= Seq::<TokenView>::empty());
                        return Err(
                            LexError::UnexpectedCharacter { character: peeked, offset: pos },
                        );
                    }
                },
            }
        }
        proof {
            assert(self.emitted() + seq![eof_token(self.text())] =~= self.emitted().push(
                eof_token(self.text()),
            ));
        }
        self.emit(TokenKind::Eof, self.pos, 0);
        let mut tokens: Vec<Token> = Vec::new();
        core::mem::swap(&mut self.tokens, &mut tokens);
        assert(self.emitted() =~= Seq::<TokenView>::empty());
        assert(tokens_view(tokens@).last() == tokens[tokens.len() - 1]@);
        Ok(tokens)
    }

    /// The kind and the text of the one-character token that `c` spells.
    fn symbol(c: char) -> (r: Option<(TokenKind, String)>)
        ensures
            match r {
                Some((kind, content)) => symbol_kind(c) == Some(kind) && content@ == seq![c],
                None => symbol_kind(c) is None,
            },
    {
        proof {
            reveal_strlit("+");
            reveal_strlit("-");
            reveal_strlit("/");
            reveal_strlit("*");
            reveal_strlit("^");
            reveal_strlit("(");
            reveal_strlit(")");
            reveal_strlit("!");
        }
        let r = match c {
            '+' => Some((TokenKind::Plus, "+".to_owned())),
            '-' => Some((TokenKind::Minus, "-".to_owned())),
            '/' => Some((TokenKind::Slash, "/".to_owned())),
            '*' => Some((TokenKind::Asterisk, "*".to_owned())),
            '^' => Some((TokenKind::Caret, "^".to_owned())),
            '(' => Some((TokenKind::LParen, "(".to_owned())),
            ')' => Some((TokenKind::RParen, ")".to_owned())),
            '!' => Some((TokenKind::Bang, "!".to_owned())),
            _ => None,
        };
        assert(r matches Some((_, content)) ==> content@ =~= seq![c]);
        r
    }

    /// Reads one integer literal: the digit under the cursor and every digit
    /// or separator that follows it.
    fn lex_integer(&mut self)
        requires
            old(self).well_formed(),
            0 <= old(self).offset() < old(self).text().len(),
            is_digit(old(self).text()[old(self).offset()]),
        ensures
            final(self).well_formed(),
            final(self).text() == old(self).text(),
            final(self).offset() == literal_end(
                old(self).text(),
                old(self).offset(),
                old(self).offset() + 1,
            ),
            final(self).emitted() == old(self).emitted().push(
                token_over(
                    TokenKind::Integer,
                    old(self).text(),
                    old(self).offset(),
                    final(self).offset(),
                ),
            ),
    {
        let start_pos = self.pos;
        loop
            invariant
                self.well_formed(),
                self.text() == old(self).text(),
                self.emitted() == old(self).emitted(),
                start_pos == old(self).offset(),
                start_pos <= self.offset() <= self.text().len(),
                literal_end(self.text(), start_pos as int, self.offset()) == literal_end(
                    self.text(),
                    start_pos as int,
                    start_pos + 1,
                ),
            ensures
                self.offset() == literal_end(self.text(), start_pos as int, start_pos + 1),
            decreases self.text().len() - self.offset(),
        {
            match self.peek() {
                Some(c) => {
                    if Self::match_integer(c, self.pos - start_pos) {
                        self.consume();
                    } else {
                        break ;
                    }
                },
                None => {
                    break ;
                },
            }
        }
        let content = self.input.substring_char(start_pos, self.pos).to_owned();
        self.emit_contentful(TokenKind::Integer, start_pos, self.pos - start_pos, content);
    }

    /// Passes over the whitespace under the cursor.
    fn lex_whitespace(&mut self)
        requires
            old(self).well_formed(),
            0 <= old(self).offset() < old(self).text().len(),
            is_whitespace(old(self).text()[old(self).offset()]),
        ensures
            final(self).well_formed(),
            final(self).text() == old(self).text(),
            final(self).emitted() == old(self).emitted(),
            old(self).offset() < final(self).offset() <= old(self).text().len(),
            forall|i: int|
                old(self).offset() <= i < final(self).offset() ==> is_whitespace(
                    #[trigger] old(self).text()[i],
                ),
            final(self).offset() < old(self).text().len() ==> !is_whitespace(
                old(self).text()[final(self).offset()],
            ),
            scan_from(old(self).text(), final(self).offset()) == scan_from(
                old(self).text(),
                old(self).offset(),
            ),
    {
        let start_pos = self.pos;
        loop
            invariant
                self.well_formed(),
                self.text() == old(self).text(),
                self.emitted() == old(self).emitted(),
                0 <= old(self).offset() < self.text().len(),
                is_whitespace(self.text()[old(self).offset()]),
                old(self).offset() <= self.offset() <= self.text().len(),
                start_pos == old(self).offset(),
                forall|i: int|
                    old(self).offset() <= i < self.offset() ==> is_whitespace(
                        #[trigger] self.text()[i],
                    ),
                scan_from(self.text(), self.offset()) == scan_from(
                    self.text(),
                    old(self).offset(),
                ),
            ensures
                old(self).offset() < self.offset(),
                self.offset() < self.text().len() ==> !is_whitespace(self.text()[self.offset()]),
            decreases self.text().len() - self.offset(),
        {
            match self.peek() {
                Some(c) => {
                    if Self::match_whitespace(c, self.pos - start_pos) {
                        self.consume();
                    } else {
                        break ;
                    }
                },
                None => {
                    break ;
                },
            }
        }
    }

    /// Whether `c` is whitespace. Whitespace is the same wherever in a run
    /// it stands, so `pos` does not matter.
    #[allow(unused_variables)]
    fn match_whitespace(c: char, pos: usize) -> (r: bool)
        ensures
            r == is_whitespace(c),
    {
        c == ' ' || c == '\t' || c == '\n' || c == '\r'
    }

    /// Whether `c` may stand `pos` characters into an integer literal.
    fn match_integer(c: char, pos: usize) -> (r: bool)
        ensures
            r == is_integer_char(c, pos as int),
    {
        (c >= '0' && c <= '9') || (c == '_' && pos > 0)
    }

    /// Records a token without text.
    fn emit(&mut self, type_: TokenKind, pos: usize, length: usize)
        requires
            old(self).well_formed(),
        ensures
            final(self).well_formed(),
            final(self).text() == old(self).text(),
            final(self).offset() == old(self).offset(),
            final(self).emitted() == old(self).emitted().push(
                TokenView {
                    ind: pos as nat,
                    len: length as nat,
                    kind: type_,
                    content: Seq::empty(),
                },
            ),
    {
        self.emit_contentful(type_, pos, length, String::new());
    }

    /// Records a token.
    fn emit_contentful(
        &mut self,
        type_: TokenKind,
        pos: usize,
        length: usize,
        content: String,
    )
        requires
            old(self).well_formed(),
        ensures
            final(self).well_formed(),
            final(self).text() == old(self).text(),
            final(self).offset() == old(self).offset(),
            final(self).emitted() == old(self).emitted().push(
                TokenView { ind: pos as nat, len: length as nat, kind: type_, content: content@ },
            ),
    {
        let pos = Position { ind: pos, len: length };
        let token = Token { pos: pos, kind: type_, content: content };
        assert(tokens_view(self.tokens@.push(token)) =~= tokens_view(self.tokens@).push(token@));
        self.tokens.push(token);
    }

    /// The character under the cursor, if the text has not ended.
    fn peek(&self) -> (r: Option<char>)
        requires
            self.well_formed(),
        ensures
            r == if self.offset() < self.text().len() {
                Some(self.text()[self.offset()])
            } else {
                None
            },
            0 <= self.offset() <= self.text().len(),
    {
        if self.pos < self.chars.len() {
            Some(self.chars[self.pos])
        } else {
            None
        }
    }

    /// Steps over the character under the cursor and returns it, if the
    /// text has not ended.
    fn consume(&mut self) -> (r: Option<char>)
        requires
            old(self).well_formed(),
        ensures
            final(self).well_formed(),
            final(self).text() == old(self).text(),
            final(self).emitted() == old(self).emitted(),
            r == if old(self).offset() < old(self).text().len() {
                Some(old(self).text()[old(self).offset()])
            } else {
                None
            },
            final(self).offset() == if r is Some {
                old(self).offset() + 1
            } else {
                old(self).offset()
            },
    {
        if self.pos < self.chars.len() {
            let c = self.chars[self.pos];
            self.pos += 1;
            Some(c)
        } else {
            None
        }
    }
}

} // verus!
